//! The paths of a file's ancestors that are present in a merge.

use crate::backend::CopyId;
use crate::copy_graph;
use crate::copy_graph::CopyGraph;
use crate::copy_graph::GraphView;
use crate::copy_trace;
use crate::copy_walk;
use crate::path_map::PathSet;
use crate::rename_scan;
use crate::repo_path::PathView;
use crate::repo_path::RepoPathBuf;
use crate::tree_value;
use crate::tree_value::MergedTreeValue;
use crate::tree_value::MergedValueView;
use crate::value::Value;
use vstd::prelude::*;

verus! {

/// Whether `term` is the first merge term where the path is present.
pub open spec fn is_first_term(presence: Seq<Set<PathView>>, path: PathView, term: int) -> bool {
    &&& 0 <= term < presence.len()
    &&& presence[term].contains(path)
    &&& forall|j: int| 0 <= j < term ==> !(#[trigger] presence[j]).contains(path)
}

/// Whether the path is present in no merge term.
pub open spec fn in_no_term(presence: Seq<Set<PathView>>, path: PathView) -> bool {
    forall|j: int| 0 <= j < presence.len() ==> !(#[trigger] presence[j]).contains(path)
}

/// How the search for the paths of ancestors begins.
#[derive(Debug)]
pub enum AncestorStart {
    /// The paths are known.
    Done(Vec<RepoPathBuf>),
    /// The value of the path in this term is needed.
    Value(usize),
}

/// Begins to find the paths of the ancestors of a path, by its copy ID in the first
/// merge term where it is present. A path that is present in no term has none.
pub fn begin_ancestor_paths(presence: &Vec<PathSet>, path: &RepoPathBuf) -> (r: AncestorStart)
    ensures
        match r {
            AncestorStart::Done(paths) => paths@.len() == 0 && in_no_term(
                rename_scan::sets_view(presence@),
                path@,
            ),
            AncestorStart::Value(term) => is_first_term(
                rename_scan::sets_view(presence@),
                path@,
                term as int,
            ),
        },
{
    let n = presence.len();
    let ghost sets = rename_scan::sets_view(presence@);
    for j in 0..n
        invariant
            n == presence.len(),
            sets == rename_scan::sets_view(presence@),
            forall|k: int| 0 <= k < j ==> !(#[trigger] sets[k]).contains(path@),
    {
        assert(sets[j as int] == presence@[j as int]@);
        if presence[j].contains(path) {
            return AncestorStart::Value(j);
        }
    }
    AncestorStart::Done(Vec::new())
}

/// The copy ID of a value, if it is resolved to a file and the ID is no
/// placeholder.
pub open spec fn traceable_id(value: MergedValueView) -> Option<Seq<u8>> {
    if value.len() == 1 && value[0] is Some {
        match tree_value::copy_id_of(value[0]->0) {
            Some(id) => if id == Seq::<u8>::empty() {
                None
            } else {
                Some(id)
            },
            None => None,
        }
    } else {
        None
    }
}

/// What the ancestors of a value are found by.
#[derive(Debug)]
pub enum AncestorSource {
    /// The paths are known.
    Done(Vec<RepoPathBuf>),
    /// The copies that are related to this copy ID are needed.
    Copies(CopyId),
}

/// Goes on with the value of the path in the term. A value that is not resolved to a
/// file with a copy ID has no ancestors.
pub fn ancestors_of_value(value: &MergedTreeValue) -> (r: AncestorSource)
    ensures
        match r {
            AncestorSource::Done(paths) => paths@.len() == 0 && traceable_id(value@) is None,
            AncestorSource::Copies(id) => traceable_id(value@) == Some(id@),
        },
{
    match value.as_resolved() {
        Some(term) => {
            assert(value@[0] == term.deep_view());
            match term {
                Some(file) => match file.copy_id() {
                    Some(copy_id) => if copy_id.is_placeholder() {
                        AncestorSource::Done(Vec::new())
                    } else {
                        AncestorSource::Copies(copy_id.dup())
                    },
                    None => AncestorSource::Done(Vec::new()),
                },
                None => AncestorSource::Done(Vec::new()),
            }
        },
        None => AncestorSource::Done(Vec::new()),
    }
}

/// Whether the tree of a term has the file of a copy ID at its path.
pub type TermFiles = spec_fn(int, Seq<u8>) -> bool;

/// Whether one of the first `n` terms has the file of a copy ID.
pub open spec fn in_some_term(files: TermFiles, n: int, id: Seq<u8>) -> bool {
    exists|j: int| 0 <= j < n && #[trigger] files(j, id)
}

/// The paths of the IDs whose files are in one of the terms, in order.
pub open spec fn paths_in_terms(
    g: GraphView,
    ids: Seq<Seq<u8>>,
    num_terms: int,
    files: TermFiles,
) -> Seq<PathView>
    decreases ids.len(),
{
    if ids.len() == 0 {
        Seq::empty()
    } else {
        let before = paths_in_terms(g, ids.drop_last(), num_terms, files);
        if in_some_term(files, num_terms, ids.last()) {
            before.push(copy_trace::path_of(g, ids.last()))
        } else {
            before
        }
    }
}

/// The ancestors of an ID, children before parents, without the ID itself.
pub open spec fn other_ancestors(g: GraphView, id: Seq<u8>, n: nat) -> Seq<Seq<u8>>
    decreases n,
{
    if n == 0 {
        Seq::empty()
    } else {
        let before = other_ancestors(g, id, (n - 1) as nat);
        if copy_walk::marked(g, id, (n - 1) as nat).contains(g[n - 1].0) && g[n - 1].0 != id {
            before.push(g[n - 1].0)
        } else {
            before
        }
    }
}

/// The model of a search.
#[verifier::ext_equal]
pub ghost struct AncestorSearchModel {
    /// The related copies.
    pub graph: GraphView,
    /// The number of merge terms.
    pub num_terms: int,
    /// The ancestors.
    pub ids: Seq<Seq<u8>>,
    /// How many of them have been looked for.
    pub place: int,
    /// In how many terms the next one has been looked for.
    pub term: int,
    /// The paths that are in some term.
    pub paths: Seq<PathView>,
}

impl AncestorSearchModel {
    /// The term and the ID whose file is looked for next.
    pub open spec fn next(self) -> Option<(int, Seq<u8>)> {
        if self.place < self.ids.len() {
            Some((self.term, self.ids[self.place]))
        } else {
            None
        }
    }

    /// The search once it is known whether the term has the file.
    pub open spec fn answered(self, found: bool) -> AncestorSearchModel {
        if found {
            AncestorSearchModel {
                place: self.place + 1,
                term: 0,
                paths: self.paths.push(copy_trace::path_of(self.graph, self.ids[self.place])),
                ..self
            }
        } else if self.term + 1 < self.num_terms {
            AncestorSearchModel { term: self.term + 1, ..self }
        } else {
            AncestorSearchModel { place: self.place + 1, term: 0, ..self }
        }
    }

    /// Whether the paths are those of the files that have been looked for and are
    /// in some term.
    pub open spec fn agrees_with(self, files: TermFiles) -> bool {
        &&& 0 <= self.place <= self.ids.len()
        &&& 0 <= self.term < self.num_terms
        &&& self.paths == paths_in_terms(
            self.graph,
            self.ids.take(self.place),
            self.num_terms,
            files,
        )
        &&& self.place < self.ids.len() ==> !in_some_term(
            files,
            self.term,
            self.ids[self.place],
        )
    }
}

/// Searches for ancestor paths which are actually present in at least one merge
/// term.
#[derive(Debug)]
pub struct AncestorSearch {
    copy_graph: CopyGraph,
    num_terms: usize,
    ids: Vec<CopyId>,
    place: usize,
    term: usize,
    paths: Vec<RepoPathBuf>,
}

impl View for AncestorSearch {
    type V = AncestorSearchModel;

    closed spec fn view(&self) -> AncestorSearchModel {
        AncestorSearchModel {
            graph: self.copy_graph@,
            num_terms: self.num_terms as int,
            ids: self.ids.deep_view(),
            place: self.place as int,
            term: self.term as int,
            paths: self.paths.deep_view(),
        }
    }
}

/// Begins to search for the paths of the ancestors of a copy ID in the terms of a
/// merge.
pub fn get_ancestor_paths(copy_graph: CopyGraph, copy_id: &CopyId, num_terms: usize) -> (r:
    AncestorSearch)
    requires
        num_terms > 0,
    ensures
        r@ == search_start(copy_graph@, copy_id@, num_terms as int),
{
    let ghost g = copy_graph@;
    let _size = copy_graph.len();
    let all = copy_walk::iterate_ancestors(&copy_graph, copy_id);
    let ghost list = all.deep_view();
    let n = all.len();
    let mut ids: Vec<CopyId> = Vec::new();
    assert(list.take(0) =~= Seq::empty());
    for i in 0..n
        invariant
            n == all.len(),
            list == all.deep_view(),
            ids.deep_view() == without(list.take(i as int), copy_id@),
    {
        let ghost now = ids.deep_view();
        let ghost next = list.take(i + 1);
        assert(next.drop_last() =~= list.take(i as int));
        assert(next.last() == all@[i as int]@);
        if !all[i].same(copy_id) {
            ids.push(all[i].dup());
            assert(ids.deep_view() =~= now.push(list[i as int]));
        }
    }
    assert(list.take(n as int) =~= list);
    proof {
        lemma_without(g, copy_id@, g.len());
        assert forall|i: int| 0 <= i < ids@.len() implies copy_graph::has_id(
            g,
            (#[trigger] ids@[i])@,
        ) by {
            assert(ids.deep_view()[i] == ids@[i]@);
            lemma_ancestors_known(g, copy_id@, g.len(), i);
        }
    }
    let search = AncestorSearch {
        copy_graph,
        num_terms,
        ids,
        place: 0,
        term: 0,
        paths: Vec::new(),
    };
    assert(search.paths.deep_view() =~= Seq::empty());
    search
}

spec fn without(ids: Seq<Seq<u8>>, id: Seq<u8>) -> Seq<Seq<u8>>
    decreases ids.len(),
{
    if ids.len() == 0 {
        Seq::empty()
    } else if ids.last() != id {
        without(ids.drop_last(), id).push(ids.last())
    } else {
        without(ids.drop_last(), id)
    }
}

proof fn lemma_without(g: GraphView, id: Seq<u8>, n: nat)
    ensures
        without(copy_walk::listed_ancestors(g, id, n), id) == other_ancestors(g, id, n),
    decreases n,
{
    if n > 0 {
        lemma_without(g, id, (n - 1) as nat);
        let before = copy_walk::listed_ancestors(g, id, (n - 1) as nat);
        let after = copy_walk::listed_ancestors(g, id, n);
        if after != before {
            assert(after.drop_last() =~= before);
            assert(after.last() == g[n - 1].0);
        }
    }
}

proof fn lemma_ancestors_known(g: GraphView, id: Seq<u8>, n: nat, i: int)
    requires
        n <= g.len(),
        copy_graph::distinct_ids(g),
        0 <= i < other_ancestors(g, id, n).len(),
    ensures
        copy_graph::has_id(g, other_ancestors(g, id, n)[i]),
    decreases n,
{
    let before = other_ancestors(g, id, (n - 1) as nat);
    if i < before.len() {
        lemma_ancestors_known(g, id, (n - 1) as nat, i);
    } else {
        copy_walk::lemma_lookup_distinct(g, n - 1);
    }
}

impl AncestorSearch {
    #[verifier::type_invariant]
    spec fn type_inv(self) -> bool {
        &&& forall|i: int|
            0 <= i < self.ids@.len() ==> copy_graph::has_id(
                self.copy_graph@,
                (#[trigger] self.ids@[i])@,
            )
        &&& self.place <= self.ids@.len()
        &&& self.term < self.num_terms
    }

    /// The term and the copy ID whose file is looked for next.
    pub fn next_file(&self) -> (r: Option<(usize, &CopyId)>)
        ensures
            match r {
                Some((term, id)) => self@.next() == Some((term as int, id@)) && term
                    < self@.num_terms,
                None => self@.next() is None,
            },
    {
        proof {
            use_type_invariant(self);
        }
        if self.place < self.ids.len() {
            assert(self@.ids[self.place as int] == self.ids@[self.place as int]@);
            Some((self.term, &self.ids[self.place]))
        } else {
            None
        }
    }

    /// Goes on, knowing whether the term has the file.
    pub fn answer(&mut self, found: bool)
        requires
            old(self)@.next() is Some,
        ensures
            final(self)@ == old(self)@.answered(found),
    {
        proof {
            use_type_invariant(&*self);
        }
        if found {
            let place = self.place;
            assert(self@.ids[place as int] == self.ids@[place as int]@);
            let path = match self.copy_graph.get(&self.ids[place]) {
                Some(history) => history.current_path.dup(),
                None => {
                    assert(false);
                    return;
                },
            };
            let mut paths: Vec<RepoPathBuf> = Vec::new();
            std::mem::swap(&mut paths, &mut self.paths);
            let ghost now = paths.deep_view();
            paths.push(path);
            assert(paths.deep_view() =~= now.push(path@));
            self.paths = paths;
            assert(place < self.ids.len());
            self.place = place + 1;
            self.term = 0;
        } else if self.term + 1 < self.num_terms {
            self.term = self.term + 1;
        } else {
            assert(self.place < self.ids.len());
            self.place = self.place + 1;
            self.term = 0;
        }
    }

    /// The paths of the ancestors that are in some term.
    pub fn into_paths(self) -> (r: Vec<RepoPathBuf>)
        requires
            self@.next() is None,
        ensures
            r.deep_view() == self@.paths,
    {
        self.paths
    }
}

/// A search that agrees with the files of the terms goes on to do so with the
/// answer that it asks for, and it ends with the paths of all ancestors that are
/// in some term, children before parents.
pub proof fn law_ancestor_paths(search: AncestorSearchModel, files: TermFiles)
    requires
        search.agrees_with(files),
    ensures
        match search.next() {
            Some((term, id)) => search.answered(files(term, id)).agrees_with(files),
            None => search.paths == paths_in_terms(
                search.graph,
                search.ids,
                search.num_terms,
                files,
            ),
        },
{
    let ids = search.ids;
    if search.place < ids.len() {
        let id = ids[search.place];
        let next = ids.take(search.place + 1);
        assert(next.drop_last() =~= ids.take(search.place));
        assert(next.last() == id);
        if files(search.term, id) {
            assert(in_some_term(files, search.num_terms, id));
        } else {
            assert(!in_some_term(files, search.term + 1, id)) by {
                if in_some_term(files, search.term + 1, id) {
                    let j = choose|j: int| 0 <= j < search.term + 1 && #[trigger] files(j, id);
                    if j < search.term {
                        assert(in_some_term(files, search.term, id));
                    }
                }
            }
        }
    } else {
        assert(ids.take(search.place) =~= ids);
    }
}

/// What the tree of a term holds at a path.
pub type TermValues = spec_fn(int, PathView) -> MergedValueView;

/// The copies that are related to a copy.
pub type RelatedCopies = spec_fn(Seq<u8>) -> GraphView;

/// The paths of the ancestors of a path that are present in some merge term: those of
/// the ancestors of its copy ID in the first term where the path is present. There are
/// none if it is present in no term, or has no copy ID there.
pub open spec fn ancestor_list(
    presence: Seq<Set<PathView>>,
    values: TermValues,
    copies: RelatedCopies,
    files: TermFiles,
    path: PathView,
) -> Seq<PathView> {
    if in_no_term(presence, path) {
        Seq::empty()
    } else {
        let term = choose|term: int| is_first_term(presence, path, term);
        match traceable_id(values(term, path)) {
            None => Seq::empty(),
            Some(id) => paths_in_terms(
                copies(id),
                other_ancestors(copies(id), id, copies(id).len()),
                presence.len() as int,
                files,
            ),
        }
    }
}

/// The search for the ancestors of a copy ID, before anything has been looked for.
pub open spec fn search_start(g: GraphView, id: Seq<u8>, num_terms: int) -> AncestorSearchModel {
    AncestorSearchModel {
        graph: g,
        num_terms,
        ids: other_ancestors(g, id, g.len()),
        place: 0,
        term: 0,
        paths: Seq::empty(),
    }
}

/// What a search ends with, if the given number of answers is enough.
pub open spec fn search_run(search: AncestorSearchModel, files: TermFiles, answers: nat) -> Option<
    Seq<PathView>,
>
    decreases answers,
{
    match search.next() {
        None => Some(search.paths),
        Some((term, id)) => if answers == 0 {
            None
        } else {
            search_run(search.answered(files(term, id)), files, (answers - 1) as nat)
        },
    }
}

proof fn lemma_search_run(search: AncestorSearchModel, files: TermFiles, answers: nat)
    requires
        search.agrees_with(files),
        search_run(search, files, answers) is Some,
    ensures
        search_run(search, files, answers) == Some(
            paths_in_terms(search.graph, search.ids, search.num_terms, files),
        ),
    decreases answers,
{
    law_ancestor_paths(search, files);
    if let Some((term, id)) = search.next() {
        lemma_search_run(search.answered(files(term, id)), files, (answers - 1) as nat);
    }
}

/// The first term where a path is present is the only one.
pub proof fn lemma_first_term(presence: Seq<Set<PathView>>, path: PathView, term: int)
    requires
        is_first_term(presence, path, term),
    ensures
        !in_no_term(presence, path),
        term == (choose|term: int| is_first_term(presence, path, term)),
{
    let other = choose|term: int| is_first_term(presence, path, term);
    assert(is_first_term(presence, path, other));
    if other < term {
        assert(!presence[other].contains(path));
    } else if term < other {
        assert(!presence[term].contains(path));
    }
}

/// The steps lead to the whole list. It is empty for a path that is present in no
/// term, and for one whose value in the first term where it is present is no file with
/// a copy ID. Otherwise it is what the search among the related copies ends with.
pub proof fn law_ancestor_list(
    presence: Seq<Set<PathView>>,
    values: TermValues,
    copies: RelatedCopies,
    files: TermFiles,
    path: PathView,
    term: int,
    answers: nat,
)
    requires
        in_no_term(presence, path) || is_first_term(presence, path, term),
    ensures
        in_no_term(presence, path) ==> ancestor_list(presence, values, copies, files, path)
            == Seq::<PathView>::empty(),
        is_first_term(presence, path, term) ==> match traceable_id(values(term, path)) {
            None => ancestor_list(presence, values, copies, files, path) == Seq::<
                PathView,
            >::empty(),
            Some(id) => {
                let start = search_start(copies(id), id, presence.len() as int);
                search_run(start, files, answers) is Some ==> search_run(start, files, answers)
                    == Some(ancestor_list(presence, values, copies, files, path))
            },
        },
{
    if is_first_term(presence, path, term) {
        lemma_first_term(presence, path, term);
        if let Some(id) = traceable_id(values(term, path)) {
            let start = search_start(copies(id), id, presence.len() as int);
            assert(start.ids.take(0) =~= Seq::empty());
            assert(start.agrees_with(files));
            if search_run(start, files, answers) is Some {
                lemma_search_run(start, files, answers);
            }
        }
    }
}

proof fn lemma_other_ancestors(g: GraphView, id: Seq<u8>, n: nat)
    requires
        copy_graph::distinct_ids(g),
        copy_walk::children_first(g),
        n <= g.len(),
    ensures
        other_ancestors(g, id, n) == Seq::new(n, |i: int| g[i].0).filter(
            |a: Seq<u8>| a != id && copy_graph::is_reachable(g, id, a),
        ),
    decreases n,
{
    let all = Seq::new(n, |i: int| g[i].0);
    let keep = |a: Seq<u8>| a != id && copy_graph::is_reachable(g, id, a);
    if n == 0 {
        assert(all =~= Seq::empty());
        assert(all.filter(keep) =~= Seq::empty()) by {
            reveal(Seq::filter);
        }
    } else {
        let fewer = (n - 1) as nat;
        lemma_other_ancestors(g, id, fewer);
        assert(all.drop_last() =~= Seq::new(fewer, |i: int| g[i].0));
        copy_walk::lemma_marked(g, id, n - 1);
        assert(all.filter(keep) == if keep(all.last()) {
            all.drop_last().filter(keep).push(all.last())
        } else {
            all.drop_last().filter(keep)
        }) by {
            reveal(Seq::filter);
        }
    }
}

proof fn lemma_paths_in_terms(g: GraphView, ids: Seq<Seq<u8>>, num_terms: int, files: TermFiles)
    ensures
        paths_in_terms(g, ids, num_terms, files) == ids.filter(
            |a: Seq<u8>| in_some_term(files, num_terms, a),
        ).map_values(|a: Seq<u8>| copy_trace::path_of(g, a)),
    decreases ids.len(),
{
    let keep = |a: Seq<u8>| in_some_term(files, num_terms, a);
    let path = |a: Seq<u8>| copy_trace::path_of(g, a);
    reveal(Seq::filter);
    if ids.len() == 0 {
        assert(ids.filter(keep).map_values(path) =~= Seq::empty());
    } else {
        lemma_paths_in_terms(g, ids.drop_last(), num_terms, files);
        let before = ids.drop_last().filter(keep);
        assert(before.push(ids.last()).map_values(path) =~= before.map_values(path).push(
            path(ids.last()),
        ));
    }
}

/// Among related copies with children before parents, the list has the paths of
/// exactly those ancestors of the copy ID, other than itself, whose file is in at least
/// one term. They come in the order of the related copies, children before parents.
pub proof fn law_listed_ancestors(
    presence: Seq<Set<PathView>>,
    values: TermValues,
    copies: RelatedCopies,
    files: TermFiles,
    path: PathView,
    term: int,
    id: Seq<u8>,
)
    requires
        is_first_term(presence, path, term),
        traceable_id(values(term, path)) == Some(id),
        copy_graph::distinct_ids(copies(id)),
        copy_walk::children_first(copies(id)),
    ensures
        ancestor_list(presence, values, copies, files, path) == Seq::new(
            copies(id).len(),
            |i: int| copies(id)[i].0,
        ).filter(|a: Seq<u8>| a != id && copy_graph::is_reachable(copies(id), id, a)).filter(
            |a: Seq<u8>| in_some_term(files, presence.len() as int, a),
        ).map_values(|a: Seq<u8>| copy_trace::path_of(copies(id), a)),
{
    let g = copies(id);
    lemma_first_term(presence, path, term);
    lemma_other_ancestors(g, id, g.len());
    lemma_paths_in_terms(g, other_ancestors(g, id, g.len()), presence.len() as int, files);
}

} // verus!
