//! What the computation of a rename map amounts to as a whole.

use crate::ancestor_paths;
use crate::ancestor_paths::RelatedCopies;
use crate::ancestor_paths::TermFiles;
use crate::ancestor_paths::TermValues;
use crate::backend::BackendError;
use crate::copy_source::CopyEntryView;
use crate::copy_source::CopySourceView;
use crate::copy_source::DiffTermView;
use crate::copy_source::SourcesView;
use crate::merge;
use crate::merged_tree;
use crate::presence_fill;
use crate::presence_fill::PresenceFillModel;
use crate::presence_fill::TermPaths;
use crate::rename_map;
use crate::rename_map::RenameGroupsModel;
use crate::rename_scan;
use crate::rename_scan::RenameFactsModel;
use crate::rename_scan::RenameScanModel;
use crate::repo_path::PathView;
use crate::tree_value::MergedValueView;
use vstd::prelude::*;

verus! {

/// What the backend answers about the terms of a merge.
pub ghost struct RenameOracle {
    /// The number of terms.
    pub num_terms: nat,
    /// The differences that take copy history into account, in each transition.
    pub entries: spec_fn(int) -> Seq<CopyEntryView>,
    /// The values in the trees of the terms.
    pub values: TermValues,
    /// The path in the history of a copy.
    pub copy_paths: spec_fn(Seq<u8>) -> PathView,
    /// The copies that are related to a copy.
    pub copies: RelatedCopies,
}

impl RenameOracle {
    /// Whether a path is present in the tree of a term.
    pub open spec fn present(self) -> TermPaths {
        |term: int, path: PathView| !merge::is_absent((self.values)(term, path))
    }

    /// Whether the tree of a term has the file of a copy at its path.
    pub open spec fn files(self) -> TermFiles {
        |term: int, id: Seq<u8>|
            merged_tree::copy_value_in(id, (self.values)(term, (self.copy_paths)(id))) is Some
    }

    /// The paths of the ancestors of a path, given what is known.
    pub open spec fn ancestors(self, facts: RenameFactsModel, path: PathView) -> Seq<PathView> {
        ancestor_paths::ancestor_list(
            facts.presence,
            self.values,
            self.copies,
            self.files(),
            path,
        )
    }
}

/// What is known once the differences of a transition have been seen, or why one of
/// them is not known.
pub open spec fn with_entries(
    facts: RenameFactsModel,
    transition: int,
    entries: Seq<CopyEntryView>,
) -> Result<RenameFactsModel, BackendError>
    decreases entries.len(),
{
    if entries.len() == 0 {
        Ok(facts)
    } else {
        match with_entries(facts, transition, entries.drop_last()) {
            Err(err) => Err(err),
            Ok(known) => match entries.last().1 {
                Err(err) => Err(err),
                Ok(terms) => {
                    let (before, after) = rename_scan::transition_terms(transition);
                    Ok(rename_scan::with_terms(known, before, after, entries.last().0, terms))
                },
            },
        }
    }
}

/// What is known once the differences of the first `n` transitions have been seen.
pub open spec fn scanned(oracle: RenameOracle, n: nat) -> Result<RenameFactsModel, BackendError>
    decreases n,
{
    if n == 0 {
        Ok(RenameFactsModel::none(oracle.num_terms))
    } else {
        match scanned(oracle, (n - 1) as nat) {
            Err(err) => Err(err),
            Ok(facts) => with_entries(facts, n - 1, (oracle.entries)(n - 1)),
        }
    }
}

/// A model of a rename map: the terms of the entry of each path that has one.
pub type RenamesView = spec_fn(PathView) -> Option<Seq<Option<PathView>>>;

/// The rename map without entries.
pub open spec fn no_renames() -> RenamesView {
    |path: PathView| None
}

/// What is known once it is also known which of the paths are present in each term.
pub open spec fn known_facts(oracle: RenameOracle, facts: RenameFactsModel) -> RenameFactsModel {
    presence_fill::filled(facts, oracle.present())
}

/// The rename map of a merge. It has no entries if there is one side only, or if the
/// backend does not support copies.
pub open spec fn rename_map_of(oracle: RenameOracle) -> Result<RenamesView, BackendError> {
    if oracle.num_terms < 3 {
        Ok(no_renames())
    } else {
        match scanned(oracle, (oracle.num_terms - 1) as nat) {
            Err(BackendError::Unsupported(_)) => Ok(no_renames()),
            Err(err) => Err(err),
            Ok(facts) => {
                let known = known_facts(oracle, facts);
                Ok(
                    |path: PathView|
                        rename_map::rename_entry(known, oracle.ancestors(known, path), path),
                )
            },
        }
    }
}

/// A stage of the computation.
pub ghost enum RenameStage {
    /// The differences are scanned; this many of the current transition have been.
    Scan(RenameScanModel, int),
    /// Missing presence info is filled in.
    Fill(PresenceFillModel),
    /// The ancestors of paths are found.
    Groups(RenameGroupsModel),
    /// The result is known.
    Done(Result<RenamesView, BackendError>),
}

/// Whether the computation begins with the given stage.
pub open spec fn is_first_stage(oracle: RenameOracle, stage: RenameStage) -> bool {
    match stage {
        RenameStage::Done(result) => oracle.num_terms < 3 && result == Ok::<
            RenamesView,
            BackendError,
        >(no_renames()),
        RenameStage::Scan(scan, taken) => {
            &&& oracle.num_terms >= 3
            &&& oracle.num_terms == 2 * scan.num_sides - 1
            &&& scan.transition == 0
            &&& scan.facts == RenameFactsModel::none(oracle.num_terms)
            &&& taken == 0
        },
        _ => false,
    }
}

/// Whether one stage leads to another, given what the backend answers.
pub open spec fn leads_to(oracle: RenameOracle, stage: RenameStage, next: RenameStage) -> bool {
    match stage {
        RenameStage::Scan(scan, taken) => match scan.terms() {
            Some((before, after)) => {
                let entries = (oracle.entries)(scan.transition);
                if taken < entries.len() {
                    match entries[taken].1 {
                        Ok(terms) => next == RenameStage::Scan(
                            RenameScanModel {
                                facts: rename_scan::with_terms(
                                    scan.facts,
                                    before,
                                    after,
                                    entries[taken].0,
                                    terms,
                                ),
                                ..scan
                            },
                            taken + 1,
                        ),
                        Err(BackendError::Unsupported(_)) => next == RenameStage::Done(
                            Ok(no_renames()),
                        ),
                        Err(err) => next == RenameStage::Done(Err(err)),
                    }
                } else {
                    next == RenameStage::Scan(
                        RenameScanModel { transition: scan.transition + 1, ..scan },
                        0,
                    )
                }
            },
            None => if scan.facts.mentioned == Set::<PathView>::empty() {
                next == RenameStage::Done(Ok(no_renames()))
            } else {
                &&& next is Fill
                &&& next->Fill_0.facts == scan.facts
                &&& presence_fill::lists_paths(next->Fill_0.paths, scan.facts.mentioned)
                &&& next->Fill_0.term == 0
                &&& next->Fill_0.place == 0
            },
        },
        RenameStage::Fill(fill) => match fill.next() {
            Some((term, path)) => next == RenameStage::Fill(
                fill.answered(oracle.present()(term, path)),
            ),
            None => next == RenameStage::Groups(
                RenameGroupsModel {
                    facts: fill.facts,
                    traced: rename_map::traced_paths(fill.facts, fill.paths, fill.paths.len()),
                    place: 0,
                    ancestors: Map::empty(),
                },
            ),
        },
        RenameStage::Groups(groups) => match groups.next_path() {
            Some(path) => next == RenameStage::Groups(
                RenameGroupsModel {
                    place: groups.place + 1,
                    ancestors: groups.ancestors.insert(path, oracle.ancestors(groups.facts, path)),
                    ..groups
                },
            ),
            None => {
                &&& next is Done
                &&& next->Done_0 is Ok
                &&& forall|path: PathView| #[trigger]
                    (next->Done_0->Ok_0)(path) == groups.entry(path)
            },
        },
        RenameStage::Done(_) => false,
    }
}

/// Whether these are the stages of the computation, from the beginning on.
pub open spec fn is_run(oracle: RenameOracle, stages: Seq<RenameStage>) -> bool {
    &&& stages.len() > 0
    &&& is_first_stage(oracle, stages[0])
    &&& forall|i: int|
        0 <= i < stages.len() - 1 ==> leads_to(oracle, #[trigger] stages[i], stages[i + 1])
}

/// Whether a result has the entries of another, or is the same error.
pub open spec fn same_renames(
    a: Result<RenamesView, BackendError>,
    b: Result<RenamesView, BackendError>,
) -> bool {
    match (a, b) {
        (Ok(f), Ok(g)) => forall|path: PathView| #[trigger] f(path) == g(path),
        (Err(e), Err(f)) => e == f,
        _ => false,
    }
}

/// Whether a stage is on the way to the rename map.
spec fn on_the_way(oracle: RenameOracle, stage: RenameStage) -> bool {
    let last = (oracle.num_terms - 1) as nat;
    match stage {
        RenameStage::Done(result) => same_renames(result, rename_map_of(oracle)),
        RenameStage::Scan(scan, taken) => {
            &&& oracle.num_terms >= 3
            &&& oracle.num_terms == 2 * scan.num_sides - 1
            &&& 0 <= scan.transition <= last
            &&& 0 <= taken
            &&& scan.transition < last ==> taken <= (oracle.entries)(scan.transition).len()
            &&& scan.transition == last ==> taken == 0
            &&& scanned(oracle, scan.transition as nat) is Ok
            &&& with_entries(
                scanned(oracle, scan.transition as nat)->Ok_0,
                scan.transition,
                (oracle.entries)(scan.transition).take(taken),
            ) == Ok::<RenameFactsModel, BackendError>(scan.facts)
        },
        RenameStage::Fill(fill) => {
            &&& oracle.num_terms >= 3
            &&& scanned(oracle, last) is Ok
            &&& fill.agrees_with(scanned(oracle, last)->Ok_0, oracle.present())
            &&& fill.term >= 0
            &&& fill.place >= 0
        },
        RenameStage::Groups(groups) => {
            &&& oracle.num_terms >= 3
            &&& scanned(oracle, last) is Ok
            &&& groups.facts == known_facts(oracle, scanned(oracle, last)->Ok_0)
            &&& 0 <= groups.place <= groups.traced.len()
            &&& forall|p: PathView| #[trigger]
                rename_map::needs_ancestors(groups.facts, p) ==> groups.traced.contains(p)
            &&& forall|i: int|
                0 <= i < groups.place ==> groups.ancestors.dom().contains(
                    #[trigger] groups.traced[i],
                )
            &&& forall|p: PathView| #[trigger]
                groups.ancestors.dom().contains(p) ==> groups.ancestors[p] == oracle.ancestors(
                    groups.facts,
                    p,
                )
        },
    }
}

proof fn lemma_entries_stay(
    facts: RenameFactsModel,
    transition: int,
    entries: Seq<CopyEntryView>,
    n: int,
)
    requires
        0 <= n <= entries.len(),
        with_entries(facts, transition, entries.take(n)) is Err,
    ensures
        with_entries(facts, transition, entries) == with_entries(
            facts,
            transition,
            entries.take(n),
        ),
    decreases entries.len(),
{
    if n == entries.len() {
        assert(entries.take(n) =~= entries);
    } else {
        assert(entries.drop_last().take(n) =~= entries.take(n));
        lemma_entries_stay(facts, transition, entries.drop_last(), n);
    }
}

proof fn lemma_scanned_stays(oracle: RenameOracle, m: nat, n: nat)
    requires
        m <= n,
        scanned(oracle, m) is Err,
    ensures
        scanned(oracle, n) == scanned(oracle, m),
    decreases n,
{
    if m < n {
        lemma_scanned_stays(oracle, m, (n - 1) as nat);
    }
}

proof fn lemma_next_unknown(
    presence: Seq<Set<PathView>>,
    paths: Seq<PathView>,
    term: int,
    place: int,
)
    requires
        term >= 0,
        place >= 0,
    ensures
        match presence_fill::next_unknown(presence, paths, term, place) {
            Some((t, p)) => t >= 0 && p >= 0,
            None => true,
        },
    decreases presence.len() - term, paths.len() - place,
{
    if term < presence.len() {
        if place >= paths.len() {
            lemma_next_unknown(presence, paths, term + 1, 0);
        } else if presence[term].contains(paths[place]) {
            lemma_next_unknown(presence, paths, term, place + 1);
        }
    }
}

proof fn lemma_traced(facts: RenameFactsModel, paths: Seq<PathView>, n: nat, i: int)
    requires
        0 <= i < n <= paths.len(),
        rename_map::needs_ancestors(facts, paths[i]),
    ensures
        rename_map::traced_paths(facts, paths, n).contains(paths[i]),
    decreases n,
{
    let all = rename_map::traced_paths(facts, paths, n);
    let before = rename_map::traced_paths(facts, paths, (n - 1) as nat);
    if i == n - 1 {
        assert(all[all.len() - 1] == paths[i]);
    } else {
        lemma_traced(facts, paths, (n - 1) as nat, i);
        let k = choose|k: int| 0 <= k < before.len() && before[k] == paths[i];
        assert(all[k] == paths[i]);
    }
}

proof fn lemma_scan_step(
    oracle: RenameOracle,
    scan: RenameScanModel,
    taken: int,
    next: RenameStage,
)
    requires
        on_the_way(oracle, RenameStage::Scan(scan, taken)),
        leads_to(oracle, RenameStage::Scan(scan, taken), next),
    ensures
        on_the_way(oracle, next),
{
    let last = (oracle.num_terms - 1) as nat;
    let t = scan.transition;
    let facts = scanned(oracle, t as nat)->Ok_0;
    let entries = (oracle.entries)(t);
    if scan.terms() is Some {
        if taken < entries.len() {
            let more = entries.take(taken + 1);
            assert(more.drop_last() =~= entries.take(taken));
            assert(more.last() == entries[taken]);
            if let Err(err) = entries[taken].1 {
                lemma_entries_stay(facts, t, entries, taken + 1);
                lemma_scanned_stays(oracle, (t + 1) as nat, last);
            }
        } else {
            assert(entries.take(taken) =~= entries);
            assert((oracle.entries)(t + 1).take(0) =~= Seq::empty());
        }
    } else {
        assert(entries.take(taken) =~= Seq::empty());
        assert(facts == scan.facts);
        if scan.facts.mentioned == Set::<PathView>::empty() {
            let known = known_facts(oracle, facts);
            assert forall|path: PathView| no_renames()(path) == #[trigger] (rename_map_of(
                oracle,
            )->Ok_0)(path) by {
                assert(!rename_map::has_relatives(known, path));
            }
        } else {
            let fill = next->Fill_0;
            assert forall|j: int, i: int|
                0 <= j < facts.presence.len() && 0 <= i < fill.paths.len() implies (
            #[trigger] fill.facts.presence[j].contains(#[trigger] fill.paths[i]) == (
            facts.presence[j].contains(fill.paths[i]) || (fill.is_past(j, i) && oracle.present()(
                j,
                fill.paths[i],
            )))) by {
                assert(!fill.is_past(j, i));
            }
            assert(fill.facts =~= (RenameFactsModel { presence: fill.facts.presence, ..facts }));
            assert(fill.agrees_with(facts, oracle.present()));
        }
    }
}

proof fn lemma_fill_step(oracle: RenameOracle, fill: PresenceFillModel, next: RenameStage)
    requires
        on_the_way(oracle, RenameStage::Fill(fill)),
        leads_to(oracle, RenameStage::Fill(fill), next),
    ensures
        on_the_way(oracle, next),
{
    let last = (oracle.num_terms - 1) as nat;
    let facts = scanned(oracle, last)->Ok_0;
    presence_fill::law_presence_fill(fill, facts, oracle.present());
    lemma_next_unknown(fill.facts.presence, fill.paths, fill.term, fill.place);
    if fill.next() is None {
        let groups = next->Groups_0;
        assert forall|p: PathView| #[trigger]
            rename_map::needs_ancestors(groups.facts, p) implies groups.traced.contains(p) by {
            let q = choose|q: PathView|
                q != p && #[trigger] rename_map::in_same_group(groups.facts, p, q);
            assert(groups.facts.mentioned.contains(p));
            assert(fill.paths.contains(p));
            let i = choose|i: int| 0 <= i < fill.paths.len() && fill.paths[i] == p;
            lemma_traced(fill.facts, fill.paths, fill.paths.len(), i);
        }
    }
}

proof fn lemma_groups_step(oracle: RenameOracle, groups: RenameGroupsModel, next: RenameStage)
    requires
        on_the_way(oracle, RenameStage::Groups(groups)),
        leads_to(oracle, RenameStage::Groups(groups), next),
    ensures
        on_the_way(oracle, next),
{
    let known = groups.facts;
    if let Some(path) = groups.next_path() {
        let more = next->Groups_0;
        assert forall|i: int| 0 <= i < more.place implies more.ancestors.dom().contains(
            #[trigger] more.traced[i],
        ) by {
            if i < groups.place {
                assert(groups.ancestors.dom().contains(groups.traced[i]));
            }
        }
        assert forall|p: PathView| #[trigger] more.ancestors.dom().contains(p) implies (
        more.ancestors[p] == oracle.ancestors(more.facts, p)) by {
            if p != path {
                assert(groups.ancestors.dom().contains(p));
            }
        }
    } else {
        let map = next->Done_0->Ok_0;
        assert forall|path: PathView| #[trigger] map(path) == (rename_map_of(oracle)->Ok_0)(
            path,
        ) by {
            assert(map(path) == groups.entry(path));
            if rename_map::needs_ancestors(known, path) {
                assert(groups.traced.contains(path));
                let i = choose|i: int| 0 <= i < groups.traced.len() && groups.traced[i] == path;
                assert(groups.ancestors.dom().contains(groups.traced[i]));
            } else {
                lemma_without_ancestors(
                    known,
                    groups.ancestors_of(path),
                    oracle.ancestors(known, path),
                    path,
                );
            }
        }
    }
}

proof fn lemma_without_ancestors(
    facts: RenameFactsModel,
    a: Seq<PathView>,
    b: Seq<PathView>,
    path: PathView,
)
    requires
        !rename_map::needs_ancestors(facts, path),
    ensures
        rename_map::rename_entry(facts, a, path) == rename_map::rename_entry(facts, b, path),
{
    if rename_map::has_relatives(facts, path) && rename_map::is_active(facts, path) {
        let x = rename_map::rename_entry(facts, a, path)->0;
        let y = rename_map::rename_entry(facts, b, path)->0;
        assert(x =~= y);
    }
}

/// A computation that comes to its end gives the rename map of the merge: the entries
/// for what the scan of all differences tells, with the presence of all mentioned
/// paths looked up in the trees of the terms, and with the ancestors that the copy
/// histories and these trees give.
pub proof fn law_rename_run(oracle: RenameOracle, stages: Seq<RenameStage>)
    requires
        is_run(oracle, stages),
        stages.last() is Done,
    ensures
        same_renames(stages.last()->Done_0, rename_map_of(oracle)),
{
    lemma_run(oracle, stages, stages.len() - 1);
}

proof fn lemma_run(oracle: RenameOracle, stages: Seq<RenameStage>, i: int)
    requires
        is_run(oracle, stages),
        0 <= i < stages.len(),
    ensures
        on_the_way(oracle, stages[i]),
    decreases i,
{
    if i == 0 {
        assert((oracle.entries)(0).take(0) =~= Seq::empty());
    } else {
        lemma_run(oracle, stages, i - 1);
        assert(leads_to(oracle, stages[i - 1], stages[i]));
        match stages[i - 1] {
            RenameStage::Scan(scan, taken) => lemma_scan_step(oracle, scan, taken, stages[i]),
            RenameStage::Fill(fill) => lemma_fill_step(oracle, fill, stages[i]),
            RenameStage::Groups(groups) => lemma_groups_step(oracle, groups, stages[i]),
            RenameStage::Done(_) => {},
        }
    }
}

/// The path of a source of a difference.
pub open spec fn source_path(source: CopySourceView, target: PathView) -> PathView {
    match source {
        CopySourceView::Normal => target,
        CopySourceView::Copy(path) => path,
        CopySourceView::Rename(path) => path,
    }
}

/// Whether a resolved source that a difference shows is present before it.
pub open spec fn source_holds(
    present: TermPaths,
    before: int,
    target: PathView,
    source: (CopySourceView, MergedValueView),
) -> bool {
    source.1.len() == 1 && !merge::is_absent(source.1) ==> present(
        before,
        source_path(source.0, target),
    )
}

/// Whether what a term of a difference shows is present: the target after it, and the
/// sources before it.
pub open spec fn term_holds(
    present: TermPaths,
    before: int,
    after: int,
    target: PathView,
    term: DiffTermView,
) -> bool {
    &&& term.target_value is Some ==> present(after, target)
    &&& forall|k: int|
        0 <= k < term.sources.len() ==> source_holds(
            present,
            before,
            target,
            #[trigger] term.sources[k],
        )
}

/// Whether what a difference shows is present.
pub open spec fn entry_holds(
    present: TermPaths,
    before: int,
    after: int,
    entry: CopyEntryView,
) -> bool {
    entry.1 is Ok ==> forall|i: int|
        0 <= i < entry.1->Ok_0.len() ==> term_holds(
            present,
            before,
            after,
            entry.0,
            #[trigger] entry.1->Ok_0[i],
        )
}

/// Whether a term of a difference shows that a path is present in a merge term: the
/// target after it, or a resolved source before it.
pub open spec fn term_shows(
    before: int,
    after: int,
    target: PathView,
    term: DiffTermView,
    j: int,
    path: PathView,
) -> bool {
    ||| term.target_value is Some && j == after && path == target
    ||| exists|k: int|
        0 <= k < term.sources.len() && (#[trigger] term.sources[k]).1.len() == 1
            && !merge::is_absent(term.sources[k].1) && j == before && path == source_path(
            term.sources[k].0,
            target,
        )
}

/// Whether a difference shows that a path is present in a merge term.
pub open spec fn entry_shows(
    before: int,
    after: int,
    entry: CopyEntryView,
    j: int,
    path: PathView,
) -> bool {
    entry.1 is Ok && exists|i: int|
        0 <= i < entry.1->Ok_0.len() && term_shows(
            before,
            after,
            entry.0,
            #[trigger] entry.1->Ok_0[i],
            j,
            path,
        )
}

/// What the differences show to be present in the merge terms.
pub open spec fn shown_present(oracle: RenameOracle) -> TermPaths {
    |j: int, path: PathView|
        exists|t: int, i: int|
            0 <= t < oracle.num_terms - 1 && 0 <= i < (oracle.entries)(t).len() && entry_shows(
                rename_scan::transition_terms(t).0,
                rename_scan::transition_terms(t).1,
                #[trigger] (oracle.entries)(t)[i],
                j,
                path,
            )
}

/// Whether the differences show only what is present, by the given measure.
spec fn all_hold(oracle: RenameOracle, present: TermPaths) -> bool {
    forall|t: int, i: int|
        0 <= t < oracle.num_terms - 1 && 0 <= i < (oracle.entries)(t).len() ==> entry_holds(
            present,
            rename_scan::transition_terms(t).0,
            rename_scan::transition_terms(t).1,
            #[trigger] (oracle.entries)(t)[i],
        )
}

proof fn lemma_shown_holds(oracle: RenameOracle)
    ensures
        all_hold(oracle, shown_present(oracle)),
{
    let shown = shown_present(oracle);
    assert forall|t: int, i: int|
        0 <= t < oracle.num_terms - 1 && 0 <= i < (oracle.entries)(t).len() implies entry_holds(
        shown,
        rename_scan::transition_terms(t).0,
        rename_scan::transition_terms(t).1,
        #[trigger] (oracle.entries)(t)[i],
    ) by {
        let (before, after) = rename_scan::transition_terms(t);
        let entry = (oracle.entries)(t)[i];
        if let Ok(terms) = entry.1 {
            assert forall|m: int| 0 <= m < terms.len() implies term_holds(
                shown,
                before,
                after,
                entry.0,
                #[trigger] terms[m],
            ) by {
                let term = terms[m];
                if term.target_value is Some {
                    assert(term_shows(before, after, entry.0, entry.1->Ok_0[m], after, entry.0));
                    assert(entry_shows(before, after, entry, after, entry.0));
                    assert(shown(after, entry.0));
                }
                assert forall|k: int| 0 <= k < term.sources.len() implies source_holds(
                    shown,
                    before,
                    entry.0,
                    #[trigger] term.sources[k],
                ) by {
                    let source = term.sources[k];
                    if source.1.len() == 1 && !merge::is_absent(source.1) {
                        let path = source_path(source.0, entry.0);
                        assert(term_shows(before, after, entry.0, entry.1->Ok_0[m], before, path));
                        assert(entry_shows(before, after, entry, before, path));
                        assert(shown(before, path));
                    }
                }
            }
        }
    }
}

/// Whether the differences are those of the trees of the terms, in that they show
/// only what is present.
pub open spec fn entries_hold(oracle: RenameOracle) -> bool {
    forall|t: int, i: int|
        0 <= t < oracle.num_terms - 1 && 0 <= i < (oracle.entries)(t).len() ==> entry_holds(
            oracle.present(),
            rename_scan::transition_terms(t).0,
            rename_scan::transition_terms(t).1,
            #[trigger] (oracle.entries)(t)[i],
        )
}

/// Whether all that is known to be present is.
spec fn facts_hold(present: TermPaths, facts: RenameFactsModel, num_terms: nat) -> bool {
    &&& facts.presence.len() == num_terms
    &&& facts.renamed_from.len() == num_terms
    &&& forall|j: int, p: PathView|
        0 <= j < num_terms && #[trigger] facts.presence[j].contains(p) ==> present(j, p)
}

proof fn lemma_sources_hold(
    present: TermPaths,
    facts: RenameFactsModel,
    before: int,
    after: int,
    target: PathView,
    sources: SourcesView,
    num_terms: nat,
)
    requires
        facts_hold(present, facts, num_terms),
        0 <= before < num_terms,
        0 <= after < num_terms,
        forall|k: int|
            0 <= k < sources.len() ==> source_holds(
                present,
                before,
                target,
                #[trigger] sources[k],
            ),
    ensures
        facts_hold(
            present,
            rename_scan::with_sources(facts, before, after, target, sources),
            num_terms,
        ),
    decreases sources.len(),
{
    if sources.len() > 0 {
        let fewer = sources.drop_last();
        assert forall|k: int| 0 <= k < fewer.len() implies source_holds(
            present,
            before,
            target,
            #[trigger] fewer[k],
        ) by {
            assert(fewer[k] == sources[k]);
        }
        lemma_sources_hold(present, facts, before, after, target, fewer, num_terms);
        assert(source_holds(present, before, target, sources[sources.len() - 1]));
    }
}

proof fn lemma_terms_hold(
    present: TermPaths,
    facts: RenameFactsModel,
    before: int,
    after: int,
    target: PathView,
    terms: Seq<DiffTermView>,
    num_terms: nat,
)
    requires
        facts_hold(present, facts, num_terms),
        0 <= before < num_terms,
        0 <= after < num_terms,
        forall|i: int|
            0 <= i < terms.len() ==> term_holds(
                present,
                before,
                after,
                target,
                #[trigger] terms[i],
            ),
    ensures
        facts_hold(
            present,
            rename_scan::with_terms(facts, before, after, target, terms),
            num_terms,
        ),
    decreases terms.len(),
{
    if terms.len() > 0 {
        let fewer = terms.drop_last();
        assert forall|i: int| 0 <= i < fewer.len() implies term_holds(
            present,
            before,
            after,
            target,
            #[trigger] fewer[i],
        ) by {
            assert(fewer[i] == terms[i]);
        }
        lemma_terms_hold(present, facts, before, after, target, fewer, num_terms);
        let term = terms.last();
        assert(term_holds(present, before, after, target, terms[terms.len() - 1]));
        let noted = rename_scan::with_terms(facts, before, after, target, fewer).with_mention(
            target,
        ).with_presence(after, target, term.target_value is Some);
        assert(facts_hold(present, noted, num_terms));
        lemma_sources_hold(present, noted, before, after, target, term.sources, num_terms);
    }
}

proof fn lemma_entries_hold(
    present: TermPaths,
    facts: RenameFactsModel,
    transition: int,
    entries: Seq<CopyEntryView>,
    num_terms: nat,
)
    requires
        facts_hold(present, facts, num_terms),
        num_terms % 2 == 1,
        0 <= transition < num_terms - 1,
        forall|i: int|
            0 <= i < entries.len() ==> entry_holds(
                present,
                rename_scan::transition_terms(transition).0,
                rename_scan::transition_terms(transition).1,
                #[trigger] entries[i],
            ),
        with_entries(facts, transition, entries) is Ok,
    ensures
        facts_hold(present, with_entries(facts, transition, entries)->Ok_0, num_terms),
    decreases entries.len(),
{
    if entries.len() > 0 {
        let (before, after) = rename_scan::transition_terms(transition);
        let fewer = entries.drop_last();
        assert forall|i: int| 0 <= i < fewer.len() implies entry_holds(
            present,
            before,
            after,
            #[trigger] fewer[i],
        ) by {
            assert(fewer[i] == entries[i]);
        }
        lemma_entries_hold(present, facts, transition, fewer, num_terms);
        assert(entry_holds(present, before, after, entries[entries.len() - 1]));
        lemma_terms_hold(
            present,
            with_entries(facts, transition, fewer)->Ok_0,
            before,
            after,
            entries.last().0,
            entries.last().1->Ok_0,
            num_terms,
        );
    }
}

proof fn lemma_scanned_holds(oracle: RenameOracle, present: TermPaths, n: nat)
    requires
        oracle.num_terms % 2 == 1,
        all_hold(oracle, present),
        n <= oracle.num_terms - 1,
        scanned(oracle, n) is Ok,
    ensures
        facts_hold(present, scanned(oracle, n)->Ok_0, oracle.num_terms),
    decreases n,
{
    if n > 0 {
        lemma_scanned_holds(oracle, present, (n - 1) as nat);
        lemma_entries_hold(
            present,
            scanned(oracle, (n - 1) as nat)->Ok_0,
            n - 1,
            (oracle.entries)(n - 1),
            oracle.num_terms,
        );
    }
}

/// Whether the terms of an entry of a rename map go with the trees of the merge: the
/// path is in the tree of a side, it is itself its path in every tree that has it, and
/// its path in any tree is one that the tree has.
pub open spec fn aligned(
    oracle: RenameOracle,
    path: PathView,
    terms: Seq<Option<PathView>>,
) -> bool {
    &&& terms.len() == oracle.num_terms
    &&& exists|j: int|
        0 <= j < oracle.num_terms && j % 2 == 0 && #[trigger] oracle.present()(j, path)
    &&& forall|j: int|
        0 <= j < oracle.num_terms ==> match #[trigger] terms[j] {
            Some(other) => oracle.present()(j, other),
            None => true,
        }
    &&& forall|j: int|
        0 <= j < oracle.num_terms && oracle.present()(j, path) ==> #[trigger] terms[j] == Some(
            path,
        )
}

/// Whether a path is in the tree of a term, or else is shown to be.
pub open spec fn found_in(oracle: RenameOracle, shown: TermPaths, j: int, path: PathView) -> bool {
    oracle.present()(j, path) || shown(j, path)
}

/// Whether the terms of an entry of a rename map go with the trees of the merge, where a
/// path that is shown to be in a tree is taken to be there.
pub open spec fn aligned_as_shown(
    oracle: RenameOracle,
    shown: TermPaths,
    path: PathView,
    terms: Seq<Option<PathView>>,
) -> bool {
    &&& terms.len() == oracle.num_terms
    &&& exists|j: int|
        0 <= j < oracle.num_terms && j % 2 == 0 && #[trigger] found_in(oracle, shown, j, path)
    &&& forall|j: int|
        0 <= j < oracle.num_terms ==> match #[trigger] terms[j] {
            Some(other) => found_in(oracle, shown, j, other),
            None => true,
        }
    &&& forall|j: int|
        0 <= j < oracle.num_terms && oracle.present()(j, path) ==> #[trigger] terms[j] == Some(
            path,
        )
}

proof fn lemma_aligned(oracle: RenameOracle, shown: TermPaths, path: PathView)
    requires
        oracle.num_terms % 2 == 1,
        all_hold(oracle, shown),
        rename_map_of(oracle) is Ok,
    ensures
        match (rename_map_of(oracle)->Ok_0)(path) {
            Some(terms) => terms == merge::absent_terms::<PathView>() || aligned_as_shown(
                oracle,
                shown,
                path,
                terms,
            ),
            None => true,
        },
{
    let last = (oracle.num_terms - 1) as nat;
    if oracle.num_terms >= 3 && scanned(oracle, last) is Ok {
        let facts = scanned(oracle, last)->Ok_0;
        let known = known_facts(oracle, facts);
        let ancestors = oracle.ancestors(known, path);
        lemma_scanned_holds(oracle, shown, last);
        assert forall|j: int, p: PathView|
            0 <= j < oracle.num_terms && #[trigger] known.presence[j].contains(p) implies found_in(
            oracle,
            shown,
            j,
            p,
        ) by {
            if facts.presence[j].contains(p) {
                assert(shown(j, p));
            }
        }
        if rename_map::has_relatives(known, path) && rename_map::is_active(known, path) {
            let terms = rename_map::rename_entry(known, ancestors, path)->0;
            let q = choose|q: PathView|
                q != path && #[trigger] rename_map::in_same_group(known, path, q);
            assert(facts.mentioned.contains(path));
            assert forall|j: int| 0 <= j < oracle.num_terms implies match #[trigger] terms[j] {
                Some(other) => found_in(oracle, shown, j, other),
                None => true,
            } by {
                rename_map::law_active_entry(known, ancestors, path, j);
            }
            assert forall|j: int|
                0 <= j < oracle.num_terms && oracle.present()(
                    j,
                    path,
                ) implies #[trigger] terms[j] == Some(path) by {
                rename_map::law_active_entry(known, ancestors, path, j);
                assert(known.presence[j].contains(path));
            }
            let k = choose|k: int|
                0 <= k < known.presence.len() && k % 2 == 0 && (
                #[trigger] known.presence[k]).contains(path);
            assert(found_in(oracle, shown, k, path));
            assert(aligned_as_shown(oracle, shown, path, terms));
        }
    }
}

/// A merge with one side only has no entries in its rename map. Otherwise, whatever the
/// backend answers, an entry is absent, or else it has a term for each term of the merge:
/// the path itself where the tree of that term has it, and elsewhere a path that is in
/// this tree, or that a difference shows to be there. If the differences show only what
/// is in the trees, the entry is aligned with these.
pub proof fn law_rename_map(oracle: RenameOracle, path: PathView)
    requires
        oracle.num_terms % 2 == 1,
        rename_map_of(oracle) is Ok,
    ensures
        oracle.num_terms < 3 ==> (rename_map_of(oracle)->Ok_0)(path) is None,
        match (rename_map_of(oracle)->Ok_0)(path) {
            Some(terms) => terms == merge::absent_terms::<PathView>() || {
                &&& aligned_as_shown(oracle, shown_present(oracle), path, terms)
                &&& entries_hold(oracle) ==> aligned(oracle, path, terms)
            },
            None => true,
        },
{
    lemma_shown_holds(oracle);
    lemma_aligned(oracle, shown_present(oracle), path);
    if entries_hold(oracle) {
        let present = oracle.present();
        assert(all_hold(oracle, present));
        lemma_aligned(oracle, present, path);
        if let Some(terms) = (rename_map_of(oracle)->Ok_0)(path) {
            if terms != merge::absent_terms::<PathView>() {
                let k = choose|k: int|
                    0 <= k < oracle.num_terms && k % 2 == 0 && #[trigger] found_in(
                        oracle,
                        present,
                        k,
                        path,
                    );
                assert(present(k, path));
                assert(aligned(oracle, path, terms));
            }
        }
    }
}

} // verus!
