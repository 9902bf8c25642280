//! What the differences between the terms of a merge tell about renames.

use crate::backend::BackendError;
use crate::backend::BackendResult;
use crate::conflict_labels;
use crate::copy_source::CopyHistoryDiffTerm;
use crate::copy_source::CopyHistorySource;
use crate::copy_source::CopyHistoryTreeDiffEntry;
use crate::copy_source::CopySourceView;
use crate::copy_source::DiffTermView;
use crate::copy_source::SourcesView;
use crate::merge;
use crate::merge::Merge;
use crate::merged_tree;
use crate::merged_tree::MergedTree;
use crate::path_groups::LinkView;
use crate::path_groups::PathGroups;
use crate::path_map::PathMap;
use crate::path_map::PathSet;
use crate::repo_path::PathView;
use crate::repo_path::RepoPathBuf;
use crate::tree_value::MergedTreeValue;
use crate::tree_value::MergedValueView;
use crate::value::Value;
use vstd::prelude::*;

verus! {

/// Maps a path in the output tree to the paths in each term of the input
/// merge.
pub type RenameMap = PathMap<Merge<Option<RepoPathBuf>>>;

/// What is known about the paths of a merge.
#[verifier::ext_equal]
pub ghost struct RenameFactsModel {
    /// Every path mentioned in a difference, including copy/rename parents.
    pub mentioned: Set<PathView>,
    /// For each merge term, the paths that are known to be present.
    pub presence: Seq<Set<PathView>>,
    /// For each merge term, the paths that something was renamed from.
    pub renamed_from: Seq<Set<PathView>>,
    /// The paths that are related by a copy or a rename.
    pub links: Seq<LinkView>,
}

impl RenameFactsModel {
    /// Nothing is known.
    pub open spec fn none(num_terms: nat) -> RenameFactsModel {
        RenameFactsModel {
            mentioned: Set::empty(),
            presence: Seq::new(num_terms, |j: int| Set::empty()),
            renamed_from: Seq::new(num_terms, |j: int| Set::empty()),
            links: Seq::empty(),
        }
    }

    /// The path is mentioned.
    pub open spec fn with_mention(self, path: PathView) -> RenameFactsModel {
        RenameFactsModel { mentioned: self.mentioned.insert(path), ..self }
    }

    /// The path is present in the term, if `present`.
    pub open spec fn with_presence(self, term: int, path: PathView, present: bool) ->
        RenameFactsModel {
        if present {
            RenameFactsModel {
                presence: self.presence.update(term, self.presence[term].insert(path)),
                ..self
            }
        } else {
            self
        }
    }

    /// Something was renamed from the path in the term.
    pub open spec fn with_rename(self, term: int, path: PathView) -> RenameFactsModel {
        RenameFactsModel {
            renamed_from: self.renamed_from.update(term, self.renamed_from[term].insert(path)),
            ..self
        }
    }

    /// The two paths are related.
    pub open spec fn with_link(self, a: PathView, b: PathView) -> RenameFactsModel {
        RenameFactsModel { links: self.links.push((a, b)), ..self }
    }
}

/// What is known once a source has been seen. A source with conflicts tells
/// nothing.
pub open spec fn with_source(
    facts: RenameFactsModel,
    before: int,
    after: int,
    target: PathView,
    source: (CopySourceView, MergedValueView),
) -> RenameFactsModel {
    let present = !merge::is_absent(source.1);
    if source.1.len() != 1 {
        facts
    } else {
        match source.0 {
            CopySourceView::Normal => facts.with_presence(before, target, present),
            CopySourceView::Copy(path) => facts.with_link(path, target).with_mention(
                path,
            ).with_presence(before, path, present),
            CopySourceView::Rename(path) => facts.with_link(path, target).with_mention(
                path,
            ).with_presence(before, path, present).with_rename(after, path),
        }
    }
}

/// What is known once sources have been seen.
pub open spec fn with_sources(
    facts: RenameFactsModel,
    before: int,
    after: int,
    target: PathView,
    sources: SourcesView,
) -> RenameFactsModel
    decreases sources.len(),
{
    if sources.len() == 0 {
        facts
    } else {
        with_source(
            with_sources(facts, before, after, target, sources.drop_last()),
            before,
            after,
            target,
            sources.last(),
        )
    }
}

/// What is known once a term of a difference has been seen.
pub open spec fn with_term(
    facts: RenameFactsModel,
    before: int,
    after: int,
    target: PathView,
    term: DiffTermView,
) -> RenameFactsModel {
    with_sources(
        facts.with_mention(target).with_presence(after, target, term.target_value is Some),
        before,
        after,
        target,
        term.sources,
    )
}

/// What is known once the terms of a difference have been seen.
pub open spec fn with_terms(
    facts: RenameFactsModel,
    before: int,
    after: int,
    target: PathView,
    terms: Seq<DiffTermView>,
) -> RenameFactsModel
    decreases terms.len(),
{
    if terms.len() == 0 {
        facts
    } else {
        with_term(
            with_terms(facts, before, after, target, terms.drop_last()),
            before,
            after,
            target,
            terms.last(),
        )
    }
}

/// The sets of a list.
pub open spec fn sets_view(sets: Seq<PathSet>) -> Seq<Set<PathView>> {
    Seq::new(sets.len(), |j: int| sets[j]@)
}

fn new_sets(n: usize) -> (r: Vec<PathSet>)
    ensures
        sets_view(r@) == Seq::new(n as nat, |j: int| Set::<PathView>::empty()),
{
    let mut sets: Vec<PathSet> = Vec::new();
    for i in 0..n
        invariant
            sets.len() == i,
            forall|j: int| 0 <= j < i ==> (#[trigger] sets@[j])@ == Set::<PathView>::empty(),
    {
        sets.push(PathSet::new());
    }
    assert(sets_view(sets@) =~= Seq::new(n as nat, |j: int| Set::<PathView>::empty()));
    sets
}

pub(crate) fn insert_at(sets: &mut Vec<PathSet>, index: usize, path: RepoPathBuf)
    requires
        index < old(sets).len(),
    ensures
        sets_view(final(sets)@) == sets_view(old(sets)@).update(
            index as int,
            sets_view(old(sets)@)[index as int].insert(path@),
        ),
{
    let ghost before = sets@;
    let set = &mut sets[index];
    set.insert(path);
    assert(sets_view(sets@) =~= sets_view(before).update(
        index as int,
        sets_view(before)[index as int].insert(path@),
    ));
}

/// What is known about the paths of a merge.
pub struct RenameFacts {
    /// Every path mentioned in a difference, including copy/rename parents.
    pub mentioned: PathSet,
    /// For each merge term, the paths that are known to be present.
    pub presence: Vec<PathSet>,
    /// For each merge term, the paths that something was renamed from.
    pub renamed_from: Vec<PathSet>,
    /// The paths that are related by copies and renames.
    pub groups: PathGroups,
}

impl View for RenameFacts {
    type V = RenameFactsModel;

    open spec fn view(&self) -> RenameFactsModel {
        RenameFactsModel {
            mentioned: self.mentioned@,
            presence: sets_view(self.presence@),
            renamed_from: sets_view(self.renamed_from@),
            links: self.groups@,
        }
    }
}

impl RenameFacts {
    /// Nothing is known.
    pub fn none(num_terms: usize) -> (r: Self)
        ensures
            r@ == RenameFactsModel::none(num_terms as nat),
    {
        let r = RenameFacts {
            mentioned: PathSet::new(),
            presence: new_sets(num_terms),
            renamed_from: new_sets(num_terms),
            groups: PathGroups::new(),
        };
        assert(r@ =~= RenameFactsModel::none(num_terms as nat));
        r
    }

    /// Takes note of a source.
    pub fn take_source(
        &mut self,
        before_idx: usize,
        after_idx: usize,
        target: &RepoPathBuf,
        source: &(CopyHistorySource, MergedTreeValue),
    )
        requires
            before_idx < old(self)@.presence.len(),
            after_idx < old(self)@.renamed_from.len(),
        ensures
            final(self)@ == with_source(
                old(self)@,
                before_idx as int,
                after_idx as int,
                target@,
                source.deep_view(),
            ),
            final(self)@.presence.len() == old(self)@.presence.len(),
            final(self)@.renamed_from.len() == old(self)@.renamed_from.len(),
    {
        let ghost before = self@;
        let value = &source.1;
        if !value.is_resolved() {
            return;
        }
        let present = value.is_present();
        proof {
            merge::lemma_absent_view(*value);
        }
        match &source.0 {
            CopyHistorySource::Normal => {
                if present {
                    insert_at(&mut self.presence, before_idx, target.dup());
                }
            },
            CopyHistorySource::Copy(path) => {
                self.groups.union(path, target);
                self.mentioned.insert(path.dup());
                if present {
                    insert_at(&mut self.presence, before_idx, path.dup());
                }
            },
            CopyHistorySource::Rename(path) => {
                self.groups.union(path, target);
                self.mentioned.insert(path.dup());
                if present {
                    insert_at(&mut self.presence, before_idx, path.dup());
                }
                insert_at(&mut self.renamed_from, after_idx, path.dup());
            },
        }
        assert(self@ =~= with_source(
            before,
            before_idx as int,
            after_idx as int,
            target@,
            source.deep_view(),
        ));
    }

    /// Takes note of a term of a difference.
    pub fn take_term(
        &mut self,
        before_idx: usize,
        after_idx: usize,
        target: &RepoPathBuf,
        term: &CopyHistoryDiffTerm,
    )
        requires
            before_idx < old(self)@.presence.len(),
            after_idx < old(self)@.presence.len(),
            old(self)@.renamed_from.len() == old(self)@.presence.len(),
        ensures
            final(self)@ == with_term(
                old(self)@,
                before_idx as int,
                after_idx as int,
                target@,
                term.deep_view(),
            ),
            final(self)@.presence.len() == old(self)@.presence.len(),
            final(self)@.renamed_from.len() == old(self)@.renamed_from.len(),
    {
        let ghost before = self@;
        self.mentioned.insert(target.dup());
        if term.target_value.is_some() {
            insert_at(&mut self.presence, after_idx, target.dup());
        }
        let ghost start = before.with_mention(target@).with_presence(
            after_idx as int,
            target@,
            term.deep_view().target_value is Some,
        );
        assert(self@ =~= start);
        let n = term.sources.len();
        let ghost sources = term.sources.deep_view();
        assert(sources.take(0) =~= Seq::empty());
        for i in 0..n
            invariant
                n == term.sources.len(),
                sources == term.sources.deep_view(),
                before_idx < self@.presence.len(),
                after_idx < self@.presence.len(),
                self@.renamed_from.len() == self@.presence.len(),
                self@.presence.len() == before.presence.len(),
                self@ == with_sources(
                    start,
                    before_idx as int,
                    after_idx as int,
                    target@,
                    sources.take(i as int),
                ),
        {
            let ghost next = sources.take(i + 1);
            assert(next.drop_last() =~= sources.take(i as int));
            assert(next.last() == term.sources@[i as int].deep_view());
            self.take_source(before_idx, after_idx, target, &term.sources[i]);
        }
        assert(sources.take(n as int) =~= sources);
    }

    /// Takes note of the terms of a difference.
    pub fn take_terms(
        &mut self,
        before_idx: usize,
        after_idx: usize,
        target: &RepoPathBuf,
        terms: &Merge<CopyHistoryDiffTerm>,
    )
        requires
            before_idx < old(self)@.presence.len(),
            after_idx < old(self)@.presence.len(),
            old(self)@.renamed_from.len() == old(self)@.presence.len(),
        ensures
            final(self)@ == with_terms(
                old(self)@,
                before_idx as int,
                after_idx as int,
                target@,
                terms@,
            ),
            final(self)@.presence.len() == old(self)@.presence.len(),
            final(self)@.renamed_from.len() == old(self)@.renamed_from.len(),
    {
        let ghost before = self@;
        let values = terms.as_slice();
        let n = values.len();
        assert(terms@.take(0) =~= Seq::empty());
        for i in 0..n
            invariant
                n == values.len(),
                values@ == terms.terms(),
                before_idx < self@.presence.len(),
                after_idx < self@.presence.len(),
                self@.renamed_from.len() == self@.presence.len(),
                self@.presence.len() == before.presence.len(),
                self@ == with_terms(
                    before,
                    before_idx as int,
                    after_idx as int,
                    target@,
                    terms@.take(i as int),
                ),
        {
            let ghost next = terms@.take(i + 1);
            assert(next.drop_last() =~= terms@.take(i as int));
            assert(next.last() == values@[i as int].deep_view());
            self.take_term(before_idx, after_idx, target, &values[i]);
        }
        assert(terms@.take(n as int) =~= terms@);
    }
}

/// The terms that are compared in a transition, before and after: a negative
/// term (base) with its adjacent positive terms (sides), in turn.
pub open spec fn transition_terms(transition: int) -> (int, int) {
    (2 * (transition / 2) + 1, 2 * (transition / 2) + 2 * (transition % 2))
}

/// The model of a scan.
#[verifier::ext_equal]
pub ghost struct RenameScanModel {
    /// The number of sides of the merge.
    pub num_sides: nat,
    /// How many transitions have been scanned.
    pub transition: int,
    /// What is known.
    pub facts: RenameFactsModel,
}

impl RenameScanModel {
    /// The terms that are compared now.
    pub open spec fn terms(self) -> Option<(int, int)> {
        if self.transition < 2 * (self.num_sides - 1) {
            Some(transition_terms(self.transition))
        } else {
            None
        }
    }
}

/// Scans the differences between the terms of a merge.
pub struct RenameScan {
    num_sides: usize,
    transition: usize,
    facts: RenameFacts,
}

impl View for RenameScan {
    type V = RenameScanModel;

    closed spec fn view(&self) -> RenameScanModel {
        RenameScanModel {
            num_sides: self.num_sides as nat,
            transition: self.transition as int,
            facts: self.facts@,
        }
    }
}

/// How the computation of a rename map begins.
pub enum RenameMapStart {
    /// There are no renames.
    Done(RenameMap),
    /// The differences between the terms have to be scanned.
    Scan(RenameScan),
}

/// Begins to compute the renames between the terms of a merge.
pub fn compute_rename_map(merge: &MergedTree) -> (r: RenameMapStart)
    ensures
        match r {
            RenameMapStart::Done(map) => merge@.ids.len() < 3 && map@ == Map::<
                PathView,
                Merge<Option<RepoPathBuf>>,
            >::empty(),
            RenameMapStart::Scan(scan) => {
                &&& merge@.ids.len() >= 3
                &&& merge@.ids.len() == 2 * scan@.num_sides - 1
                &&& scan@.transition == 0
                &&& scan@.facts == RenameFactsModel::none(merge@.ids.len())
            },
        },
{
    let tree_ids = merge.tree_ids();
    let num_terms = tree_ids.as_slice().len();
    let num_sides = tree_ids.num_sides();
    if num_sides < 2 {
        return RenameMapStart::Done(PathMap::new());
    }
    RenameMapStart::Scan(
        RenameScan { num_sides, transition: 0, facts: RenameFacts::none(num_terms) },
    )
}

impl MergedTree {
    /// The tree with a single term of this tree.
    pub fn term_tree(&self, term: usize) -> (r: MergedTree)
        requires
            term < self@.ids.len(),
        ensures
            r@.store == self@.store,
            r@.ids == seq![self@.ids[term as int]],
            r@.labels == conflict_labels::unlabeled_terms(),
    {
        let ids = self.tree_ids().as_slice();
        assert(self@.ids[term as int] == ids@[term as int]@);
        MergedTree::resolved(self.store().clone(), ids[term].dup())
    }
}

impl RenameScan {
    #[verifier::type_invariant]
    spec fn type_inv(self) -> bool {
        &&& self.num_sides >= 2
        &&& self.facts@.presence.len() == 2 * self.num_sides - 1
        &&& self.facts@.renamed_from.len() == 2 * self.num_sides - 1
        &&& self.facts.presence@.len() <= usize::MAX
        &&& self.transition <= 2 * (self.num_sides - 1)
    }

    /// The indexes of the terms whose differences are needed now, before and
    /// after.
    pub fn terms(&self) -> (r: Option<(usize, usize)>)
        ensures
            match r {
                Some((before_idx, after_idx)) => self@.terms() == Some(
                    (before_idx as int, after_idx as int),
                ) && before_idx < 2 * self@.num_sides - 1 && after_idx < 2 * self@.num_sides - 1,
                None => self@.terms() is None,
            },
    {
        proof {
            use_type_invariant(self);
        }
        if self.transition < 2 * (self.num_sides - 1) {
            let i = self.transition / 2;
            // add[i - 1] THEN add[i]
            Some((2 * i + 1, 2 * i + 2 * (self.transition % 2)))
        } else {
            None
        }
    }

    /// Goes on with a difference. If it is not known, the computation ends:
    /// without renames if the backend does not support copies.
    pub fn take_entry(&mut self, entry: CopyHistoryTreeDiffEntry) -> (r: Option<
        BackendResult<RenameMap>,
    >)
        requires
            old(self)@.terms() is Some,
        ensures
            match entry.diffs {
                Ok(diffs) => r is None && final(self)@ == (RenameScanModel {
                    facts: with_terms(
                        old(self)@.facts,
                        (old(self)@.terms()->0).0,
                        (old(self)@.terms()->0).1,
                        entry.target_path@,
                        diffs@,
                    ),
                    ..old(self)@
                }),
                Err(BackendError::Unsupported(_)) => r matches Some(Ok(map)) && map@ == Map::<
                    PathView,
                    Merge<Option<RepoPathBuf>>,
                >::empty() && final(self)@ == old(self)@,
                Err(err) => r == Some(Err::<RenameMap, BackendError>(err)) && final(self)@ == old(
                    self,
                )@,
            },
    {
        let diffs = match entry.diffs {
            Ok(diffs) => diffs,
            Err(err) => return match err {
                BackendError::Unsupported(_) => Some(Ok(PathMap::new())),
                err => Some(Err(err)),
            },
        };
        let (before_idx, after_idx) = match self.terms() {
            Some(terms) => terms,
            None => {
                assert(false);
                return None;
            },
        };
        proof {
            use_type_invariant(&*self);
        }
        let num_sides = self.num_sides;
        let transition = self.transition;
        let mut scan = RenameScan { num_sides: 2, transition: 0, facts: RenameFacts::none(3) };
        std::mem::swap(&mut scan, self);
        let mut facts = scan.facts;
        facts.take_terms(before_idx, after_idx, &entry.target_path, &diffs);
        *self = RenameScan { num_sides, transition, facts };
        None
    }

    /// Takes note that there are no more differences between the terms.
    pub fn end_entries(&mut self)
        requires
            old(self)@.terms() is Some,
        ensures
            final(self)@ == (RenameScanModel {
                transition: old(self)@.transition + 1,
                ..old(self)@
            }),
    {
        proof {
            use_type_invariant(&*self);
        }
        self.transition = self.transition + 1;
    }

    /// What is known once all differences have been seen.
    pub fn into_facts(self) -> (r: RenameFacts)
        requires
            self@.terms() is None,
        ensures
            r@ == self@.facts,
            r@.presence.len() == 2 * self@.num_sides - 1,
            r@.renamed_from.len() == 2 * self@.num_sides - 1,
    {
        proof {
            use_type_invariant(&self);
        }
        self.facts
    }
}

/// Whether all that is known is known of mentioned paths.
pub open spec fn only_mentioned(facts: RenameFactsModel) -> bool {
    &&& forall|j: int|
        0 <= j < facts.presence.len() ==> (#[trigger] facts.presence[j]).subset_of(
            facts.mentioned,
        )
    &&& forall|j: int|
        0 <= j < facts.renamed_from.len() ==> (#[trigger] facts.renamed_from[j]).subset_of(
            facts.mentioned,
        )
    &&& forall|i: int|
        0 <= i < facts.links.len() ==> facts.mentioned.contains((#[trigger] facts.links[i]).0)
            && facts.mentioned.contains(facts.links[i].1)
}

/// What is known before a difference is seen is known after it.
pub open spec fn keeps_facts(before: RenameFactsModel, after: RenameFactsModel) -> bool {
    &&& before.mentioned.subset_of(after.mentioned)
    &&& before.presence.len() == after.presence.len()
    &&& forall|j: int|
        0 <= j < before.presence.len() ==> (#[trigger] before.presence[j]).subset_of(
            after.presence[j],
        )
    &&& before.renamed_from.len() == after.renamed_from.len()
    &&& forall|j: int|
        0 <= j < before.renamed_from.len() ==> (#[trigger] before.renamed_from[j]).subset_of(
            after.renamed_from[j],
        )
    &&& before.links.len() <= after.links.len()
    &&& after.links.take(before.links.len() as int) == before.links
}

proof fn lemma_keeps_trans(a: RenameFactsModel, b: RenameFactsModel, c: RenameFactsModel)
    requires
        keeps_facts(a, b),
        keeps_facts(b, c),
    ensures
        keeps_facts(a, c),
{
    assert(c.links.take(a.links.len() as int) =~= b.links.take(a.links.len() as int));
    assert forall|j: int| 0 <= j < a.presence.len() implies (#[trigger] a.presence[j]).subset_of(
        c.presence[j],
    ) by {
        assert(b.presence[j].subset_of(c.presence[j]));
    }
    assert forall|j: int| 0 <= j < a.renamed_from.len() implies (
    #[trigger] a.renamed_from[j]).subset_of(c.renamed_from[j]) by {
        assert(b.renamed_from[j].subset_of(c.renamed_from[j]));
    }
}

proof fn lemma_with_source(
    facts: RenameFactsModel,
    before: int,
    after: int,
    target: PathView,
    source: (CopySourceView, MergedValueView),
)
    requires
        only_mentioned(facts),
        facts.mentioned.contains(target),
        0 <= before < facts.presence.len(),
        0 <= after < facts.renamed_from.len(),
    ensures
        only_mentioned(with_source(facts, before, after, target, source)),
        keeps_facts(facts, with_source(facts, before, after, target, source)),
{
    let next = with_source(facts, before, after, target, source);
    assert(next.links.take(facts.links.len() as int) =~= facts.links);
    assert forall|i: int| 0 <= i < next.links.len() implies next.mentioned.contains(
        (#[trigger] next.links[i]).0,
    ) && next.mentioned.contains(next.links[i].1) by {
        if i < facts.links.len() {
            assert(next.links[i] == facts.links[i]);
        }
    }
    assert forall|j: int| 0 <= j < next.presence.len() implies (
    #[trigger] next.presence[j]).subset_of(next.mentioned) by {
        assert(facts.presence[j].subset_of(facts.mentioned));
    }
    assert forall|j: int| 0 <= j < next.renamed_from.len() implies (
    #[trigger] next.renamed_from[j]).subset_of(next.mentioned) by {
        assert(facts.renamed_from[j].subset_of(facts.mentioned));
    }
}

proof fn lemma_with_sources(
    facts: RenameFactsModel,
    before: int,
    after: int,
    target: PathView,
    sources: SourcesView,
)
    requires
        only_mentioned(facts),
        facts.mentioned.contains(target),
        0 <= before < facts.presence.len(),
        0 <= after < facts.renamed_from.len(),
    ensures
        only_mentioned(with_sources(facts, before, after, target, sources)),
        keeps_facts(facts, with_sources(facts, before, after, target, sources)),
    decreases sources.len(),
{
    assert(facts.links.take(facts.links.len() as int) =~= facts.links);
    if sources.len() > 0 {
        let fewer = with_sources(facts, before, after, target, sources.drop_last());
        lemma_with_sources(facts, before, after, target, sources.drop_last());
        lemma_with_source(fewer, before, after, target, sources.last());
        lemma_keeps_trans(
            facts,
            fewer,
            with_source(fewer, before, after, target, sources.last()),
        );
    }
}

/// Seeing a difference takes back nothing that was known before, and whatever is
/// known stays known of mentioned paths only.
pub proof fn law_scan_keeps(
    facts: RenameFactsModel,
    before: int,
    after: int,
    target: PathView,
    terms: Seq<DiffTermView>,
)
    requires
        only_mentioned(facts),
        0 <= before < facts.presence.len(),
        0 <= after < facts.presence.len(),
        facts.presence.len() == facts.renamed_from.len(),
    ensures
        only_mentioned(with_terms(facts, before, after, target, terms)),
        keeps_facts(facts, with_terms(facts, before, after, target, terms)),
    decreases terms.len(),
{
    assert(facts.links.take(facts.links.len() as int) =~= facts.links);
    if terms.len() > 0 {
        let fewer = with_terms(facts, before, after, target, terms.drop_last());
        law_scan_keeps(facts, before, after, target, terms.drop_last());
        let term = terms.last();
        let noted = fewer.with_mention(target).with_presence(
            after,
            target,
            term.target_value is Some,
        );
        assert(noted.links.take(fewer.links.len() as int) =~= fewer.links);
        assert forall|j: int| 0 <= j < noted.presence.len() implies (
        #[trigger] noted.presence[j]).subset_of(noted.mentioned) by {
            assert(fewer.presence[j].subset_of(fewer.mentioned));
        }
        assert forall|j: int| 0 <= j < noted.renamed_from.len() implies (
        #[trigger] noted.renamed_from[j]).subset_of(noted.mentioned) by {
            assert(fewer.renamed_from[j].subset_of(fewer.mentioned));
        }
        assert(keeps_facts(fewer, noted));
        lemma_with_sources(noted, before, after, target, term.sources);
        lemma_keeps_trans(fewer, noted, with_term(fewer, before, after, target, term));
        lemma_keeps_trans(facts, fewer, with_term(fewer, before, after, target, term));
    }
}

} // verus!
