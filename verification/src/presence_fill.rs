//! Finding out which paths are present in the terms of a merge.

use crate::merge;
use crate::merge::Merge;
use crate::order;
use crate::path_map::PathMap;
use crate::rename_scan;
use crate::rename_scan::RenameFacts;
use crate::rename_scan::RenameFactsModel;
use crate::rename_scan::RenameMap;
use crate::rename_scan::RenameScan;
use crate::repo_path::PathView;
use crate::repo_path::RepoPathBuf;
use crate::tree_value::MergedTreeValue;
use crate::value::Value;
use vstd::prelude::*;

verus! {

/// Whether the list has each path of the set once, in order.
pub open spec fn lists_paths(paths: Seq<PathView>, set: Set<PathView>) -> bool {
    &&& forall|i: int| 0 <= i < paths.len() ==> set.contains(#[trigger] paths[i])
    &&& forall|p: PathView| set.contains(p) ==> #[trigger] paths.contains(p)
    &&& forall|i: int, j: int|
        0 <= i < j < paths.len() ==> order::path_less(#[trigger] paths[i], #[trigger] paths[j])
}

/// The first term and place in it, from the given ones on, of a path that is not
/// known to be present.
pub open spec fn next_unknown(
    presence: Seq<Set<PathView>>,
    paths: Seq<PathView>,
    term: int,
    place: int,
) -> Option<(int, int)>
    decreases presence.len() - term, paths.len() - place,
{
    if term >= presence.len() {
        None
    } else if place >= paths.len() {
        next_unknown(presence, paths, term + 1, 0)
    } else if presence[term].contains(paths[place]) {
        next_unknown(presence, paths, term, place + 1)
    } else {
        Some((term, place))
    }
}

/// The model of a presence fill.
#[verifier::ext_equal]
pub ghost struct PresenceFillModel {
    /// What is known.
    pub facts: RenameFactsModel,
    /// The mentioned paths, in order.
    pub paths: Seq<PathView>,
    /// The term that is being filled.
    pub term: int,
    /// How many paths have been looked up in it.
    pub place: int,
}

/// Whether a path is present in a term.
pub type TermPaths = spec_fn(int, PathView) -> bool;

/// What is known once all mentioned paths have been looked up in all terms.
pub open spec fn filled(facts: RenameFactsModel, present: TermPaths) -> RenameFactsModel {
    RenameFactsModel {
        presence: Seq::new(
            facts.presence.len(),
            |j: int|
                Set::new(
                    |p: PathView|
                        facts.presence[j].contains(p) || (facts.mentioned.contains(p) && present(
                            j,
                            p,
                        )),
                ),
        ),
        ..facts
    }
}

impl PresenceFillModel {
    /// The term and the place of the path that is looked up next.
    pub open spec fn next_place(self) -> Option<(int, int)> {
        next_unknown(self.facts.presence, self.paths, self.term, self.place)
    }

    /// The term and the path that is looked up next.
    pub open spec fn next(self) -> Option<(int, PathView)> {
        match self.next_place() {
            Some((term, place)) => Some((term, self.paths[place])),
            None => None,
        }
    }

    /// The fill once it is known whether the path is present.
    pub open spec fn answered(self, present: bool) -> PresenceFillModel {
        let (term, place) = self.next_place()->0;
        PresenceFillModel {
            facts: self.facts.with_presence(term, self.paths[place], present),
            term,
            place: place + 1,
            ..self
        }
    }

    /// Whether the path at the given place has been looked up in the term.
    pub open spec fn is_past(self, term: int, place: int) -> bool {
        term < self.term || (term == self.term && place < self.place)
    }

    /// Whether the paths that have been looked up are known to be present if they
    /// are, and of the others nothing was learned.
    pub open spec fn agrees_with(self, initial: RenameFactsModel, present: TermPaths) -> bool {
        &&& lists_paths(self.paths, initial.mentioned)
        &&& self.facts == (RenameFactsModel { presence: self.facts.presence, ..initial })
        &&& self.facts.presence.len() == initial.presence.len()
        &&& forall|j: int, i: int|
            0 <= j < initial.presence.len() && 0 <= i < self.paths.len() ==> (
            #[trigger] self.facts.presence[j].contains(#[trigger] self.paths[i])
                == (initial.presence[j].contains(self.paths[i]) || (self.is_past(j, i) && present(
                j,
                self.paths[i],
            ))))
        &&& forall|j: int, p: PathView|
            0 <= j < initial.presence.len() && !initial.mentioned.contains(p) ==> (
            #[trigger] self.facts.presence[j].contains(p) == initial.presence[j].contains(p))
    }
}

/// Fills in missing presence info.
pub struct PresenceFill {
    facts: RenameFacts,
    term: usize,
    place: usize,
}

impl View for PresenceFill {
    type V = PresenceFillModel;

    closed spec fn view(&self) -> PresenceFillModel {
        PresenceFillModel {
            facts: self.facts@,
            paths: self.facts.mentioned.listing(),
            term: self.term as int,
            place: self.place as int,
        }
    }
}

/// How a scan ends.
pub enum RenameScanEnd {
    /// There are no renames.
    Done(RenameMap),
    /// Missing presence info has to be filled in.
    Fill(PresenceFill),
}

impl RenameScan {
    /// Ends the scan, once all differences have been seen.
    pub fn finish(self) -> (r: RenameScanEnd)
        requires
            self@.terms() is None,
        ensures
            match r {
                RenameScanEnd::Done(map) => self@.facts.mentioned == Set::<PathView>::empty()
                    && map@ == Map::<PathView, Merge<Option<RepoPathBuf>>>::empty(),
                RenameScanEnd::Fill(fill) => {
                    &&& self@.facts.mentioned != Set::<PathView>::empty()
                    &&& fill@.facts == self@.facts
                    &&& lists_paths(fill@.paths, self@.facts.mentioned)
                    &&& fill@.term == 0
                    &&& fill@.place == 0
                },
            },
    {
        let facts = self.into_facts();
        if facts.mentioned.is_empty() {
            return RenameScanEnd::Done(PathMap::new());
        }
        let _n = facts.mentioned.len();
        RenameScanEnd::Fill(PresenceFill { facts, term: 0, place: 0 })
    }
}

impl PresenceFill {
    #[verifier::type_invariant]
    spec fn type_inv(self) -> bool {
        &&& self.facts@.presence.len() == self.facts@.renamed_from.len()
        &&& self.facts@.presence.len() % 2 == 1
    }

    /// What is known once all presence info is there.
    pub(crate) fn into_facts(self) -> (r: RenameFacts)
        ensures
            r@ == self@.facts,
            r.mentioned.listing() == self@.paths,
            r@.presence.len() % 2 == 1,
    {
        proof {
            use_type_invariant(&self);
        }
        self.facts
    }

    fn find_next(&self) -> (r: Option<(usize, usize)>)
        ensures
            match r {
                Some((term, place)) => self@.next_place() == Some((term as int, place as int))
                    && term < self.facts.presence.len() && place < self@.paths.len() && place
                    < usize::MAX,
                None => self@.next_place() is None,
            },
    {
        let n = self.facts.presence.len();
        let m = self.facts.mentioned.len();
        let ghost presence = self@.facts.presence;
        let ghost paths = self@.paths;
        let mut term = self.term;
        let mut place = self.place;
        while term < n
            invariant
                n == self.facts.presence.len(),
                m == paths.len(),
                presence == rename_scan::sets_view(self.facts.presence@),
                paths == self.facts.mentioned.listing(),
                next_unknown(presence, paths, term as int, place as int) == self@.next_place(),
            ensures
                self@.next_place() is None,
            decreases n - term,
        {
            while place < m
                invariant
                    term < n,
                    n == self.facts.presence.len(),
                    m == paths.len(),
                    presence == rename_scan::sets_view(self.facts.presence@),
                    paths == self.facts.mentioned.listing(),
                    next_unknown(presence, paths, term as int, place as int)
                        == self@.next_place(),
                decreases m - place,
            {
                assert(presence[term as int] == self.facts.presence@[term as int]@);
                if !self.facts.presence[term].contains(self.facts.mentioned.get_index(place)) {
                    return Some((term, place));
                }
                place = place + 1;
            }
            term = term + 1;
            place = 0;
        }
        None
    }

    /// The index of the term and the path that is looked up in it next.
    pub fn next_path(&self) -> (r: Option<(usize, &RepoPathBuf)>)
        ensures
            match r {
                Some((term, path)) => self@.next() == Some((term as int, path@)) && term
                    < self@.facts.presence.len(),
                None => self@.next() is None,
            },
    {
        match self.find_next() {
            Some((term, place)) => Some((term, self.facts.mentioned.get_index(place))),
            None => None,
        }
    }

    /// Goes on with the value of the path in the term.
    pub fn answer(&mut self, value: &MergedTreeValue)
        requires
            old(self)@.next() is Some,
        ensures
            final(self)@ == old(self)@.answered(!merge::is_absent(value@)),
    {
        let (term, place) = match self.find_next() {
            Some(next) => next,
            None => {
                assert(false);
                return;
            },
        };
        proof {
            use_type_invariant(&*self);
            merge::lemma_absent_view(*value);
        }
        let ghost before = self@;
        if value.is_present() {
            let path = self.facts.mentioned.get_index(place).dup();
            let mut fill = PresenceFill { facts: RenameFacts::none(1), term: 0, place: 0 };
            std::mem::swap(&mut fill, self);
            let mut facts = fill.facts;
            rename_scan::insert_at(&mut facts.presence, term, path);
            *self = PresenceFill { facts, term, place: place + 1 };
        } else {
            self.term = term;
            self.place = place + 1;
        }
        assert(self@ =~= before.answered(!merge::is_absent(value@)));
    }
}

/// Looking up a path changes only what is known of that path: a fill that agrees
/// with what is present goes on to do so with the answer that it asks for, and it
/// ends with all mentioned paths looked up in all terms.
pub proof fn law_presence_fill(
    fill: PresenceFillModel,
    initial: RenameFactsModel,
    present: TermPaths,
)
    requires
        fill.agrees_with(initial, present),
        fill.term >= 0,
        fill.place >= 0,
    ensures
        match fill.next() {
            Some((term, path)) => fill.answered(present(term, path)).agrees_with(initial, present),
            None => fill.facts == filled(initial, present),
        },
    decreases fill.facts.presence.len() - fill.term, fill.paths.len() - fill.place,
{
    let term = fill.term;
    let place = fill.place;
    let presence = fill.facts.presence;
    let paths = fill.paths;
    if term >= presence.len() {
        lemma_filled(fill, initial, present);
    } else if place >= paths.len() {
        let next = PresenceFillModel { term: term + 1, place: 0, ..fill };
        assert forall|j: int, i: int|
            0 <= j < initial.presence.len() && 0 <= i < paths.len() implies (
        #[trigger] next.facts.presence[j].contains(#[trigger] next.paths[i])
            == (initial.presence[j].contains(paths[i]) || (next.is_past(j, i) && present(
            j,
            paths[i],
        )))) by {
            assert(fill.facts.presence[j].contains(fill.paths[i]) == (initial.presence[j].contains(
                paths[i],
            ) || (fill.is_past(j, i) && present(j, paths[i]))));
        }
        assert(next.agrees_with(initial, present));
        law_presence_fill(next, initial, present);
    } else if presence[term].contains(paths[place]) {
        let next = PresenceFillModel { place: place + 1, ..fill };
        assert forall|j: int, i: int|
            0 <= j < initial.presence.len() && 0 <= i < paths.len() implies (
        #[trigger] next.facts.presence[j].contains(#[trigger] next.paths[i])
            == (initial.presence[j].contains(paths[i]) || (next.is_past(j, i) && present(
            j,
            paths[i],
        )))) by {
            assert(fill.facts.presence[j].contains(fill.paths[i]) == (initial.presence[j].contains(
                paths[i],
            ) || (fill.is_past(j, i) && present(j, paths[i]))));
        }
        assert(next.agrees_with(initial, present));
        law_presence_fill(next, initial, present);
    } else {
        let path = paths[place];
        let next = fill.answered(present(term, path));
        assert(fill.next_place() == Some((term, place)));
        assert forall|j: int, i: int|
            0 <= j < initial.presence.len() && 0 <= i < paths.len() implies (
        #[trigger] next.facts.presence[j].contains(#[trigger] next.paths[i])
            == (initial.presence[j].contains(paths[i]) || (next.is_past(j, i) && present(
            j,
            paths[i],
        )))) by {
            assert(fill.facts.presence[j].contains(fill.paths[i]) == (initial.presence[j].contains(
                paths[i],
            ) || (fill.is_past(j, i) && present(j, paths[i]))));
            if i != place {
                if i < place {
                    assert(order::path_less(paths[i], paths[place]));
                } else {
                    assert(order::path_less(paths[place], paths[i]));
                }
                order::lemma_path_order();
                let less = order::path_order();
                assert(!less(paths[i], paths[i]));
            }
        }
        assert forall|j: int, p: PathView|
            0 <= j < initial.presence.len() && !initial.mentioned.contains(p) implies (
        #[trigger] next.facts.presence[j].contains(p) == initial.presence[j].contains(p)) by {
            assert(fill.facts.presence[j].contains(p) == initial.presence[j].contains(p));
            assert(initial.mentioned.contains(path));
        }
        assert(next.facts =~= (RenameFactsModel { presence: next.facts.presence, ..initial }));
    }
}

proof fn lemma_filled(fill: PresenceFillModel, initial: RenameFactsModel, present: TermPaths)
    requires
        fill.agrees_with(initial, present),
        fill.term >= fill.facts.presence.len(),
    ensures
        fill.facts == filled(initial, present),
{
    let goal = filled(initial, present);
    assert forall|j: int| 0 <= j < initial.presence.len() implies #[trigger] fill.facts.presence[j]
        == goal.presence[j] by {
        assert forall|p: PathView| #[trigger] fill.facts.presence[j].contains(p)
            == goal.presence[j].contains(p) by {
            if initial.mentioned.contains(p) {
                assert(fill.paths.contains(p));
                let i = choose|i: int| 0 <= i < fill.paths.len() && fill.paths[i] == p;
                assert(fill.facts.presence[j].contains(fill.paths[i]) == (
                initial.presence[j].contains(fill.paths[i]) || (fill.is_past(j, i) && present(
                    j,
                    fill.paths[i],
                ))));
            }
        }
        assert(fill.facts.presence[j] =~= goal.presence[j]);
    }
    assert(fill.facts.presence =~= goal.presence);
    assert(fill.facts =~= goal);
}

} // verus!
