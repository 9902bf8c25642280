//! Finding where a file was copied or renamed from.

use crate::backend::BackendError;
use crate::backend::BackendResult;
use crate::backend::CopyId;
use crate::copy_candidates;
use crate::copy_descendants;
use crate::copy_graph;
use crate::copy_graph::CopyGraph;
use crate::copy_graph::GraphView;
use crate::copy_source::CopyHistoryDiffTerm;
use crate::copy_source::CopyHistorySource;
use crate::copy_source::CopySourceView;
use crate::copy_source::DiffTermView;
use crate::copy_source::SourcesView;
use crate::listing;
use crate::merge;
use crate::merge::Merge;
use crate::merge::SameChange;
use crate::repo_path::PathView;
use crate::repo_path::RepoPathBuf;
use crate::tree_value;
use crate::tree_value::MergedTreeValue;
use crate::tree_value::MergedValueView;
use crate::tree_value::TreeValue;
use crate::tree_value::TreeValueView;
use crate::value::Value;
use vstd::prelude::*;
use vstd::string::*;

verus! {

/// What the tree before a change holds for a copy ID: the file with that ID, if it
/// is at its path.
pub type CopyValues = spec_fn(Seq<u8>) -> Result<Option<TreeValueView>, BackendError>;

/// What the tree after a change holds at a path.
pub type PathValues = spec_fn(PathView) -> Result<MergedValueView, BackendError>;

/// Files that were found, with their paths.
pub type FoundView = Seq<(PathView, TreeValueView)>;

/// The path of a history.
pub open spec fn path_of(g: GraphView, id: Seq<u8>) -> PathView {
    listing::lookup(g, id)->0.current_path
}

/// The first of the IDs whose file is there, with the file.
pub open spec fn first_present(ids: Seq<Seq<u8>>, values: CopyValues) -> Result<
    Option<(Seq<u8>, TreeValueView)>,
    BackendError,
>
    decreases ids.len(),
{
    if ids.len() == 0 {
        Ok(None)
    } else {
        match first_present(ids.drop_last(), values) {
            Ok(None) => match values(ids.last()) {
                Ok(Some(value)) => Ok(Some((ids.last(), value))),
                Ok(None) => Ok(None),
                Err(err) => Err(err),
            },
            other => other,
        }
    }
}

/// The files that are found, at most one for each list of IDs.
pub open spec fn found_sources(g: GraphView, lists: Seq<Seq<Seq<u8>>>, values: CopyValues) -> Result<
    FoundView,
    BackendError,
>
    decreases lists.len(),
{
    if lists.len() == 0 {
        Ok(Seq::empty())
    } else {
        match found_sources(g, lists.drop_last(), values) {
            Err(err) => Err(err),
            Ok(found) => match first_present(lists.last(), values) {
                Err(err) => Err(err),
                Ok(None) => Ok(found),
                Ok(Some((id, value))) => Ok(found.push((path_of(g, id), value))),
            },
        }
    }
}

/// Whether the two histories are the same, or one is an ancestor of the other.
pub open spec fn in_line(g: GraphView, a: Seq<u8>, b: Seq<u8>) -> bool {
    copy_graph::is_reachable(g, a, b) || copy_graph::is_reachable(g, b, a)
}

/// Whether a file is at the path of its source, and one of the two histories is
/// an ancestor of the other.
pub open spec fn is_same_file(
    g: GraphView,
    after: Seq<u8>,
    before_path: PathView,
    before: Seq<u8>,
) -> bool {
    path_of(g, after) == before_path && in_line(g, after, before)
}

/// The copy ID that is left of a merged value, where there is one, and whether
/// the value is of files whose copy IDs do not conflict.
pub open spec fn kept_copy_id(value: MergedValueView) -> Option<Option<Seq<u8>>> {
    if tree_value::only_files(value) {
        merge::trivial_resolution(tree_value::copy_ids(value), SameChange::Accept)
    } else {
        None
    }
}

/// Whether it can be told by what is now at its path how a source was used.
pub open spec fn tells_source(g: GraphView, value: MergedValueView) -> bool {
    match kept_copy_id(value) {
        None => false,
        Some(None) => true,
        Some(Some(id)) => copy_graph::has_id(g, id),
    }
}

/// How a source at another path was used, given what is now there: it was copied
/// if it is still there, and renamed if not.
pub open spec fn moved_source(
    g: GraphView,
    before_path: PathView,
    before: Seq<u8>,
    value: MergedValueView,
) -> CopySourceView {
    match kept_copy_id(value) {
        Some(Some(id)) if in_line(g, before, id) => CopySourceView::Copy(before_path),
        _ => CopySourceView::Rename(before_path),
    }
}

/// How the sources that were found were used, with the values that they had.
pub open spec fn classified(
    g: GraphView,
    after: Seq<u8>,
    found: FoundView,
    values: PathValues,
) -> Result<SourcesView, BackendError>
    decreases found.len(),
{
    if found.len() == 0 {
        Ok(Seq::empty())
    } else {
        let (path, file) = found.last();
        let before = tree_value::copy_id_of(file)->0;
        match classified(g, after, found.drop_last(), values) {
            Err(err) => Err(err),
            Ok(sources) => if is_same_file(g, after, path, before) {
                Ok(sources.push((CopySourceView::Normal, seq![Some(file)])))
            } else {
                match values(path) {
                    Err(err) => Err(err),
                    Ok(value) => Ok(
                        sources.push((moved_source(g, path, before, value), seq![Some(file)])),
                    ),
                }
            },
        }
    }
}

/// The difference that a file makes, given where it comes from.
pub open spec fn traced_terms(file: TreeValueView, sources: SourcesView) -> Seq<DiffTermView> {
    seq![DiffTermView { target_value: Some(file), sources }]
}

/// Whether the source with the given path and ID is the file after the change,
/// at its own path.
pub fn is_normal_source(
    copy_graph: &CopyGraph,
    after_id: &CopyId,
    before_path: &RepoPathBuf,
    before_id: &CopyId,
) -> (r: bool)
    requires
        copy_graph::is_closed(copy_graph@),
        copy_graph::has_id(copy_graph@, after_id@),
        copy_graph::has_id(copy_graph@, before_id@),
    ensures
        r == is_same_file(copy_graph@, after_id@, before_path@, before_id@),
{
    match copy_graph.get(after_id) {
        Some(history) => history.current_path.same(before_path) && (copy_graph::is_ancestor(
            copy_graph,
            after_id,
            before_id,
        ) || copy_graph::is_ancestor(copy_graph, before_id, after_id)),
        None => false,
    }
}

/// Whether it can be told by the value that is now at its path how a source was
/// used.
pub fn can_classify(copy_graph: &CopyGraph, value: &MergedTreeValue) -> (r: bool)
    ensures
        r == tells_source(copy_graph@, value@),
{
    match value.to_copy_id_merge() {
        None => false,
        Some(ids) => match ids.resolve_trivial(SameChange::Accept) {
            None => false,
            Some(None) => true,
            Some(Some(id)) => copy_graph.get(id).is_some(),
        },
    }
}

/// How the source with the given path and ID was used, given the value that is
/// now at the path.
pub fn classify_source(
    copy_graph: &CopyGraph,
    after_id: &CopyId,
    before_path: RepoPathBuf,
    before_id: &CopyId,
    after_tree_before_path_val: &MergedTreeValue,
) -> (r: CopyHistorySource)
    requires
        copy_graph::is_closed(copy_graph@),
        copy_graph::has_id(copy_graph@, after_id@),
        copy_graph::has_id(copy_graph@, before_id@),
        is_same_file(copy_graph@, after_id@, before_path@, before_id@) || tells_source(
            copy_graph@,
            after_tree_before_path_val@,
        ),
    ensures
        r@ == (if is_same_file(copy_graph@, after_id@, before_path@, before_id@) {
            CopySourceView::Normal
        } else {
            moved_source(
                copy_graph@,
                before_path@,
                before_id@,
                after_tree_before_path_val@,
            )
        }),
{
    // First, check to see if we're looking at the same path with different copy
    // IDs, but an ancestor relationship between the histories. If so, this is a
    // "normal" diff source.
    if is_normal_source(copy_graph, after_id, &before_path, before_id) {
        return CopyHistorySource::Normal;
    }
    if let Some(ids) = after_tree_before_path_val.to_copy_id_merge() {
        if let Some(Some(id)) = ids.resolve_trivial(SameChange::Accept) {
            if copy_graph::is_ancestor(copy_graph, before_id, id) || copy_graph::is_ancestor(
                copy_graph,
                id,
                before_id,
            ) {
                return CopyHistorySource::Copy(before_path);
            }
        }
    }
    // before_path is no longer present in after_tree, or before_path in
    // before_tree & after_tree are not ancestors/descendants of each other
    CopyHistorySource::Rename(before_path)
}

/// The model of a trace that has not begun: the file and its copy ID.
#[verifier::ext_equal]
pub ghost struct CopyTraceModel {
    /// The file after the change.
    pub file: TreeValueView,
    /// Its copy ID.
    pub copy_id: Seq<u8>,
}

/// Traces a file with a copy ID, once the related copies are known.
#[derive(Debug)]
pub struct CopyTrace {
    file: TreeValue,
    copy_id: CopyId,
}

impl View for CopyTrace {
    type V = CopyTraceModel;

    closed spec fn view(&self) -> CopyTraceModel {
        CopyTraceModel { file: self.file@, copy_id: self.copy_id@ }
    }
}

/// How a trace begins.
#[derive(Debug)]
pub enum CopyTraceStart {
    /// The result is known.
    Done(BackendResult<Merge<CopyHistoryDiffTerm>>),
    /// The copies that are related to the trace's copy ID are needed.
    RelatedCopies(CopyTrace),
}

/// Begins to trace a file. A file with a placeholder for its copy ID has no
/// sources.
pub fn diffs_from_copies(after_file: TreeValue) -> (r: CopyTraceStart)
    ensures
        match tree_value::copy_id_of(after_file@) {
            None => r matches CopyTraceStart::Done(Err(BackendError::Other(message)))
                && message@ == "Expected TreeValue::File with a CopyId"@,
            Some(id) => if id == Seq::<u8>::empty() {
                r matches CopyTraceStart::Done(Ok(terms)) && terms@ == traced_terms(
                    after_file@,
                    Seq::empty(),
                )
            } else {
                r matches CopyTraceStart::RelatedCopies(trace) && trace@ == (CopyTraceModel {
                    file: after_file@,
                    copy_id: id,
                })
            },
        },
{
    let copy_id = match after_file.copy_id() {
        Some(copy_id) => copy_id.dup(),
        None => return CopyTraceStart::Done(
            Err(BackendError::Other("Expected TreeValue::File with a CopyId".to_owned())),
        ),
    };
    if copy_id.is_placeholder() {
        let term = CopyHistoryDiffTerm { target_value: Some(after_file), sources: Vec::new() };
        let terms = Merge::resolved(term);
        assert(term.sources.deep_view() =~= Seq::empty());
        assert(terms@ =~= traced_terms(after_file@, Seq::empty()));
        return CopyTraceStart::Done(Ok(terms));
    }
    CopyTraceStart::RelatedCopies(CopyTrace { file: after_file, copy_id })
}

impl CopyTrace {
    #[verifier::type_invariant]
    spec fn type_inv(self) -> bool {
        tree_value::copy_id_of(self.file@) == Some(self.copy_id@)
    }

    /// The copy ID whose related copies are needed.
    pub fn copy_id(&self) -> (r: &CopyId)
        ensures
            r@ == self@.copy_id,
    {
        &self.copy_id
    }

    /// Begins to search for the sources. Related copies must contain ancestors
    /// and descendants. They may also contain unrelated copies.
    pub fn find_diff_sources_from_copies(self, copy_graph: CopyGraph) -> (r: BackendResult<
        DiffSourceSearch,
    >)
        requires
            copy_graph::is_closed(copy_graph@),
            copy_graph::is_acyclic(copy_graph@),
        ensures
            match r {
                Ok(search) => copy_graph::has_id(copy_graph@, self@.copy_id) && search@ == (
                DiffSourceSearchModel {
                    graph: copy_graph@,
                    file: self@.file,
                    copy_id: self@.copy_id,
                    lists: copy_candidates::candidates(copy_graph@, self@.copy_id),
                    list: 0,
                    place: 0,
                    found: Seq::empty(),
                }),
                Err(err) => !copy_graph::has_id(copy_graph@, self@.copy_id)
                    && (err matches BackendError::Other(message) && message@
                    == "CopyId should be present in `get_related_copies()` result"@),
            },
    {
        proof {
            use_type_invariant(&self);
        }
        if copy_graph.get(&self.copy_id).is_none() {
            return Err(
                BackendError::Other(
                    "CopyId should be present in `get_related_copies()` result".to_owned(),
                ),
            );
        }
        let _n = copy_graph.len();
        let descendants = copy_descendants::collect_descendants(&copy_graph);
        let lists = copy_candidates::find_candidates(&copy_graph, &descendants, &self.copy_id);
        proof {
            copy_candidates::law_candidates_in_graph(copy_graph@, self.copy_id@);
            assert forall|i: int| 0 <= i < lists@.len() implies copy_candidates::all_in_graph(
                copy_graph@,
                (#[trigger] lists@[i]).deep_view(),
            ) by {
                assert(lists.deep_view()[i] == lists@[i].deep_view());
            }
        }
        let search = DiffSourceSearch {
            copy_graph,
            file: self.file,
            copy_id: self.copy_id,
            lists,
            list: 0,
            place: 0,
            found: Vec::new(),
        };
        assert(search.found.deep_view() =~= Seq::empty());
        Ok(search)
    }
}

/// The model of a search for sources.
#[verifier::ext_equal]
pub ghost struct DiffSourceSearchModel {
    /// The related copies.
    pub graph: GraphView,
    /// The file after the change.
    pub file: TreeValueView,
    /// Its copy ID.
    pub copy_id: Seq<u8>,
    /// The lists of histories, of each of which the first one is taken.
    pub lists: Seq<Seq<Seq<u8>>>,
    /// The list that is being tried.
    pub list: int,
    /// How many histories of it have been tried.
    pub place: int,
    /// What has been found.
    pub found: FoundView,
}

/// The list and the place in it of the first ID that is left, from the given
/// place on.
pub open spec fn next_place(lists: Seq<Seq<Seq<u8>>>, list: int, place: int) -> Option<(int, int)>
    decreases lists.len() - list,
{
    if list >= lists.len() {
        None
    } else if place < lists[list].len() {
        Some((list, place))
    } else {
        next_place(lists, list + 1, 0)
    }
}

impl DiffSourceSearchModel {
    /// The list and the place of the ID to be tried next.
    pub open spec fn next_place(self) -> Option<(int, int)> {
        next_place(self.lists, self.list, self.place)
    }

    /// The ID to be tried next.
    pub open spec fn next_id(self) -> Option<Seq<u8>> {
        match self.next_place() {
            Some((list, place)) => Some(self.lists[list][place]),
            None => None,
        }
    }

    /// The search once it is known whether the file of the next ID is there.
    pub open spec fn answered(self, value: Option<TreeValueView>) -> DiffSourceSearchModel {
        let (list, place) = self.next_place()->0;
        match value {
            None => DiffSourceSearchModel { list, place: place + 1, ..self },
            Some(file) => DiffSourceSearchModel {
                list: list + 1,
                place: 0,
                found: self.found.push((path_of(self.graph, self.lists[list][place]), file)),
                ..self
            },
        }
    }

    /// Whether what has been found is what there is to be found in the lists
    /// that have been tried, and nothing in the current one.
    pub open spec fn agrees_with(self, values: CopyValues) -> bool {
        &&& 0 <= self.list <= self.lists.len()
        &&& found_sources(self.graph, self.lists.take(self.list), values) == Ok::<
            FoundView,
            BackendError,
        >(self.found)
        &&& self.list < self.lists.len() ==> {
            &&& 0 <= self.place <= self.lists[self.list].len()
            &&& first_present(self.lists[self.list].take(self.place), values) == Ok::<
                Option<(Seq<u8>, TreeValueView)>,
                BackendError,
            >(None)
        }
    }
}

/// Searches for the sources of a file: at most one related file that is present
/// in the tree before the change for each parent listed in its history.
#[derive(Debug)]
pub struct DiffSourceSearch {
    copy_graph: CopyGraph,
    file: TreeValue,
    copy_id: CopyId,
    lists: Vec<Vec<CopyId>>,
    list: usize,
    place: usize,
    found: Vec<(RepoPathBuf, TreeValue)>,
}

impl View for DiffSourceSearch {
    type V = DiffSourceSearchModel;

    closed spec fn view(&self) -> DiffSourceSearchModel {
        DiffSourceSearchModel {
            graph: self.copy_graph@,
            file: self.file@,
            copy_id: self.copy_id@,
            lists: self.lists.deep_view(),
            list: self.list as int,
            place: self.place as int,
            found: self.found.deep_view(),
        }
    }
}

/// Whether every file has the ID of a history of the graph.
spec fn found_in_graph(g: GraphView, found: Seq<(RepoPathBuf, TreeValue)>) -> bool {
    forall|i: int|
        0 <= i < found.len() ==> tree_value::copy_id_of((#[trigger] found[i]).1@) is Some
            && copy_graph::has_id(g, tree_value::copy_id_of(found[i].1@)->0)
}

impl DiffSourceSearch {
    #[verifier::type_invariant]
    spec fn type_inv(self) -> bool {
        &&& copy_graph::is_closed(self.copy_graph@)
        &&& copy_graph::has_id(self.copy_graph@, self.copy_id@)
        &&& forall|i: int|
            0 <= i < self.lists@.len() ==> copy_candidates::all_in_graph(
                self.copy_graph@,
                (#[trigger] self.lists@[i]).deep_view(),
            )
        &&& self.list <= self.lists@.len()
        &&& found_in_graph(self.copy_graph@, self.found@)
    }

    fn find_next(&self) -> (r: Option<(usize, usize)>)
        ensures
            match r {
                Some((list, place)) => self@.next_place() == Some((list as int, place as int)) && list
                    < self.lists.len() && place < self.lists@[list as int].len(),
                None => self@.next_place() is None,
            },
    {
        let mut list = self.list;
        let mut place = self.place;
        while list < self.lists.len()
            invariant
                next_place(self@.lists, list as int, place as int) == self@.next_place(),
            ensures
                self@.next_place() is None,
            decreases self.lists@.len() - list,
        {
            assert(self@.lists[list as int] == self.lists@[list as int].deep_view());
            if place < self.lists[list].len() {
                return Some((list, place));
            }
            list = list + 1;
            place = 0;
        }
        None
    }

    /// The ID of the history to be tried next: the value of its file is needed,
    /// if it is there.
    pub fn next_id(&self) -> (r: Option<&CopyId>)
        ensures
            match r {
                Some(id) => self@.next_id() == Some(id@),
                None => self@.next_id() is None,
            },
    {
        match self.find_next() {
            Some((list, place)) => {
                assert(self@.lists[list as int] == self.lists@[list as int].deep_view());
                assert(self@.lists[list as int][place as int]
                    == self.lists@[list as int]@[place as int]@);
                Some(&self.lists[list][place])
            },
            None => None,
        }
    }

    /// Goes on with the value of the file of the history that was to be tried, if
    /// it is there.
    pub fn answer(&mut self, value: Option<TreeValue>)
        requires
            old(self)@.next_id() is Some,
            value is Some ==> tree_value::copy_id_of(value->0@) == old(self)@.next_id(),
        ensures
            final(self)@ == old(self)@.answered(value.deep_view()),
    {
        let (list, place) = match self.find_next() {
            Some(next) => next,
            None => {
                assert(false);
                return;
            },
        };
        proof {
            use_type_invariant(&*self);
            assert(self@.lists[list as int] == self.lists@[list as int].deep_view());
            assert(self@.lists[list as int][place as int]
                == self.lists@[list as int]@[place as int]@);
        }
        let value = match value {
            Some(value) => value,
            None => {
                self.list = list;
                self.place = place + 1;
                return;
            },
        };
        let path = {
            let id = &self.lists[list][place];
            assert(copy_graph::has_id(
                self.copy_graph@,
                self.lists@[list as int].deep_view()[place as int],
            ));
            match self.copy_graph.get(id) {
                Some(history) => history.current_path.dup(),
                None => {
                    assert(false);
                    return;
                },
            }
        };
        let ghost before = *self;
        let mut found: Vec<(RepoPathBuf, TreeValue)> = Vec::new();
        std::mem::swap(&mut found, &mut self.found);
        let ghost now = found.deep_view();
        found.push((path, value));
        assert(found.deep_view() =~= now.push((path@, value@)));
        assert(found_in_graph(self.copy_graph@, found@)) by {
            assert forall|i: int| 0 <= i < found@.len() implies tree_value::copy_id_of(
                (#[trigger] found@[i]).1@,
            ) is Some && copy_graph::has_id(
                self.copy_graph@,
                tree_value::copy_id_of(found@[i].1@)->0,
            ) by {
                if i < before.found@.len() {
                    assert(found@[i] == before.found@[i]);
                }
            }
        }
        self.found = found;
        self.list = list + 1;
        self.place = 0;
    }

    /// Begins to tell how the sources that were found were used.
    pub fn into_classification(self) -> (r: SourceClassification)
        requires
            self@.next_id() is None,
        ensures
            r@ == (SourceClassificationModel {
                graph: self@.graph,
                file: self@.file,
                copy_id: self@.copy_id,
                found: self@.found,
                sources: settled(self@.graph, self@.copy_id, self@.found, Seq::empty()),
            }),
    {
        proof {
            use_type_invariant(&self);
        }
        let sources: Vec<(CopyHistorySource, MergedTreeValue)> = Vec::new();
        assert(sources.deep_view() =~= Seq::empty());
        let sources = settle(&self.copy_graph, &self.copy_id, &self.found, sources);
        proof {
            lemma_settled_twice(self@.graph, self@.copy_id, self@.found, Seq::empty());
        }
        SourceClassification {
            copy_graph: self.copy_graph,
            file: self.file,
            copy_id: self.copy_id,
            found: self.found,
            sources,
        }
    }
}

/// The sources that are known, with those that come next and are the file itself
/// at its own path.
pub open spec fn settled(
    g: GraphView,
    after: Seq<u8>,
    found: FoundView,
    sources: SourcesView,
) -> SourcesView
    decreases found.len() - sources.len(),
{
    if sources.len() < found.len() {
        let (path, file) = found[sources.len() as int];
        if is_same_file(g, after, path, tree_value::copy_id_of(file)->0) {
            settled(g, after, found, sources.push((CopySourceView::Normal, seq![Some(file)])))
        } else {
            sources
        }
    } else {
        sources
    }
}

fn settle(
    copy_graph: &CopyGraph,
    copy_id: &CopyId,
    found: &Vec<(RepoPathBuf, TreeValue)>,
    sources: Vec<(CopyHistorySource, MergedTreeValue)>,
) -> (r: Vec<(CopyHistorySource, MergedTreeValue)>)
    requires
        copy_graph::is_closed(copy_graph@),
        copy_graph::has_id(copy_graph@, copy_id@),
        found_in_graph(copy_graph@, found@),
        sources.len() <= found.len(),
    ensures
        r.deep_view() == settled(
            copy_graph@,
            copy_id@,
            found.deep_view(),
            sources.deep_view(),
        ),
        r.len() <= found.len(),
{
    let mut out = sources;
    let n = found.len();
    let ghost all = found.deep_view();
    let ghost goal = settled(copy_graph@, copy_id@, all, sources.deep_view());
    while out.len() < n
        invariant
            n == found.len(),
            all == found.deep_view(),
            out.len() <= n,
            copy_graph::is_closed(copy_graph@),
            copy_graph::has_id(copy_graph@, copy_id@),
            found_in_graph(copy_graph@, found@),
            settled(copy_graph@, copy_id@, all, out.deep_view()) == goal,
        ensures
            out.deep_view() == goal,
            out.len() <= n,
        decreases n - out.len(),
    {
        let k = out.len();
        let entry = &found[k];
        proof {
            assert(all[k as int] == (entry.0@, entry.1@));
            assert(found@[k as int] == *entry);
        }
        match entry.1.copy_id() {
            Some(before_id) => {
                if !is_normal_source(copy_graph, copy_id, &entry.0, before_id) {
                    break ;
                }
                let ghost now = out.deep_view();
                let value = Merge::normal(entry.1.dup());
                assert(value@ =~= seq![Some(entry.1@)]);
                out.push((CopyHistorySource::Normal, value));
                assert(out.deep_view() =~= now.push(
                    (CopySourceView::Normal, seq![Some(entry.1@)]),
                ));
            },
            None => {
                assert(false);
                break ;
            },
        }
    }
    out
}

/// The model of a classification of sources.
#[verifier::ext_equal]
pub ghost struct SourceClassificationModel {
    /// The related copies.
    pub graph: GraphView,
    /// The file after the change.
    pub file: TreeValueView,
    /// Its copy ID.
    pub copy_id: Seq<u8>,
    /// What has been found.
    pub found: FoundView,
    /// How the first of these were used.
    pub sources: SourcesView,
}

impl SourceClassificationModel {
    /// The path whose value is needed next.
    pub open spec fn next_path(self) -> Option<PathView> {
        if self.sources.len() < self.found.len() {
            Some(self.found[self.sources.len() as int].0)
        } else {
            None
        }
    }

    /// The classification once it is known what is now at the next path.
    pub open spec fn answered(self, value: MergedValueView) -> SourceClassificationModel {
        let (path, file) = self.found[self.sources.len() as int];
        let source = moved_source(self.graph, path, tree_value::copy_id_of(file)->0, value);
        SourceClassificationModel {
            sources: settled(
                self.graph,
                self.copy_id,
                self.found,
                self.sources.push((source, seq![Some(file)])),
            ),
            ..self
        }
    }

    /// Whether the next source that was found, if there is one, is at another
    /// path.
    pub open spec fn is_settled(self) -> bool {
        settled(self.graph, self.copy_id, self.found, self.sources) == self.sources
    }

    /// Whether the sources that are known are as the values at their paths tell.
    pub open spec fn agrees_with(self, values: PathValues) -> bool {
        &&& self.sources.len() <= self.found.len()
        &&& classified(
            self.graph,
            self.copy_id,
            self.found.take(self.sources.len() as int),
            values,
        ) == Ok::<SourcesView, BackendError>(self.sources)
    }
}

/// Tells how sources were used, by what is at their paths after the change.
#[derive(Debug)]
pub struct SourceClassification {
    copy_graph: CopyGraph,
    file: TreeValue,
    copy_id: CopyId,
    found: Vec<(RepoPathBuf, TreeValue)>,
    sources: Vec<(CopyHistorySource, MergedTreeValue)>,
}

impl View for SourceClassification {
    type V = SourceClassificationModel;

    closed spec fn view(&self) -> SourceClassificationModel {
        SourceClassificationModel {
            graph: self.copy_graph@,
            file: self.file@,
            copy_id: self.copy_id@,
            found: self.found.deep_view(),
            sources: self.sources.deep_view(),
        }
    }
}

impl SourceClassification {
    #[verifier::type_invariant]
    spec fn type_inv(self) -> bool {
        &&& copy_graph::is_closed(self.copy_graph@)
        &&& copy_graph::has_id(self.copy_graph@, self.copy_id@)
        &&& found_in_graph(self.copy_graph@, self.found@)
        &&& self.sources@.len() <= self.found@.len()
        &&& settled(
            self.copy_graph@,
            self.copy_id@,
            self.found.deep_view(),
            self.sources.deep_view(),
        ) == self.sources.deep_view()
    }

    /// The related copies.
    pub fn copy_graph(&self) -> (r: &CopyGraph)
        ensures
            r@ == self@.graph,
    {
        &self.copy_graph
    }

    /// The path whose value in the tree after the change is needed next.
    pub fn next_path(&self) -> (r: Option<&RepoPathBuf>)
        ensures
            match r {
                Some(path) => self@.next_path() == Some(path@),
                None => self@.next_path() is None,
            },
    {
        let k = self.sources.len();
        if k < self.found.len() {
            assert(self@.found[k as int] == (self.found@[k as int].0@, self.found@[k as int].1@));
            Some(&self.found[k].0)
        } else {
            None
        }
    }

    /// Goes on with the value at the path that was asked for.
    pub fn answer(&mut self, value: &MergedTreeValue)
        requires
            old(self)@.next_path() is Some,
            tells_source(old(self)@.graph, value@),
        ensures
            final(self)@ == old(self)@.answered(value@),
    {
        proof {
            use_type_invariant(&*self);
        }
        let k = self.sources.len();
        let ghost g = self.copy_graph@;
        let ghost all = self.found.deep_view();
        let ghost before = self.sources.deep_view();
        assert(all[k as int] == (self.found@[k as int].0@, self.found@[k as int].1@));
        let (path, file) = self.found[k].dup();
        assert(file@ == self.found@[k as int].1@);
        let source = match file.copy_id() {
            Some(before_id) => {
                assert(!is_same_file(g, self.copy_id@, path@, before_id@)) by {
                    if is_same_file(g, self.copy_id@, path@, before_id@) {
                        lemma_settled_grows(
                            g,
                            self.copy_id@,
                            all,
                            before.push((CopySourceView::Normal, seq![Some(file@)])),
                        );
                    }
                }
                classify_source(&self.copy_graph, &self.copy_id, path, before_id, value)
            },
            None => {
                assert(false);
                return;
            },
        };
        let merged = Merge::normal(file);
        assert(merged@ =~= seq![Some(file@)]);
        let mut sources = self.sources.dup();
        let ghost now = sources.deep_view();
        assert(sources.deep_view().len() == before.len());
        sources.push((source, merged));
        assert(sources.deep_view() =~= now.push((source@, seq![Some(file@)])));
        let sources = settle(&self.copy_graph, &self.copy_id, &self.found, sources);
        proof {
            lemma_settled_twice(g, self.copy_id@, all, now.push((source@, seq![Some(file@)])));
        }
        self.sources = sources;
    }

    /// The difference that the file makes.
    pub fn finish(self) -> (r: Merge<CopyHistoryDiffTerm>)
        requires
            self@.next_path() is None,
        ensures
            r@ == traced_terms(self@.file, self@.sources),
    {
        let term = CopyHistoryDiffTerm { target_value: Some(self.file), sources: self.sources };
        let terms = Merge::resolved(term);
        assert(terms@ =~= traced_terms(self@.file, self@.sources));
        terms
    }
}

proof fn lemma_settled_grows(
    g: GraphView,
    after: Seq<u8>,
    found: FoundView,
    sources: SourcesView,
)
    ensures
        settled(g, after, found, sources).len() >= sources.len(),
    decreases found.len() - sources.len(),
{
    if sources.len() < found.len() {
        let (path, file) = found[sources.len() as int];
        if is_same_file(g, after, path, tree_value::copy_id_of(file)->0) {
            lemma_settled_grows(
                g,
                after,
                found,
                sources.push((CopySourceView::Normal, seq![Some(file)])),
            );
        }
    }
}

proof fn lemma_settled_twice(
    g: GraphView,
    after: Seq<u8>,
    found: FoundView,
    sources: SourcesView,
)
    ensures
        settled(g, after, found, settled(g, after, found, sources)) == settled(
            g,
            after,
            found,
            sources,
        ),
    decreases found.len() - sources.len(),
{
    if sources.len() < found.len() {
        let (path, file) = found[sources.len() as int];
        if is_same_file(g, after, path, tree_value::copy_id_of(file)->0) {
            lemma_settled_twice(
                g,
                after,
                found,
                sources.push((CopySourceView::Normal, seq![Some(file)])),
            );
        }
    }
}

proof fn lemma_first_present_step(ids: Seq<Seq<u8>>, values: CopyValues, place: int)
    requires
        0 <= place < ids.len(),
        first_present(ids.take(place), values) == Ok::<
            Option<(Seq<u8>, TreeValueView)>,
            BackendError,
        >(None),
    ensures
        match values(ids[place]) {
            Ok(None) => first_present(ids.take(place + 1), values) == Ok::<
                Option<(Seq<u8>, TreeValueView)>,
                BackendError,
            >(None),
            Ok(Some(file)) => first_present(ids, values) == Ok::<
                Option<(Seq<u8>, TreeValueView)>,
                BackendError,
            >(Some((ids[place], file))),
            Err(err) => first_present(ids, values) == Err::<
                Option<(Seq<u8>, TreeValueView)>,
                BackendError,
            >(err),
        },
{
    let next = ids.take(place + 1);
    assert(next.drop_last() =~= ids.take(place));
    assert(next.last() == ids[place]);
    if values(ids[place]) != Ok::<Option<TreeValueView>, BackendError>(None) {
        lemma_first_present_stays(ids, values, place + 1);
    }
}

proof fn lemma_first_present_stays(ids: Seq<Seq<u8>>, values: CopyValues, n: int)
    requires
        0 <= n <= ids.len(),
        first_present(ids.take(n), values) != Ok::<
            Option<(Seq<u8>, TreeValueView)>,
            BackendError,
        >(None),
    ensures
        first_present(ids, values) == first_present(ids.take(n), values),
    decreases ids.len(),
{
    if n == ids.len() {
        assert(ids.take(n) =~= ids);
    } else {
        assert(ids.drop_last().take(n) =~= ids.take(n));
        lemma_first_present_stays(ids.drop_last(), values, n);
    }
}

proof fn lemma_found_stays(
    g: GraphView,
    lists: Seq<Seq<Seq<u8>>>,
    values: CopyValues,
    n: int,
)
    requires
        0 <= n <= lists.len(),
        found_sources(g, lists.take(n), values) is Err,
    ensures
        found_sources(g, lists, values) == found_sources(g, lists.take(n), values),
    decreases lists.len(),
{
    if n == lists.len() {
        assert(lists.take(n) =~= lists);
    } else {
        assert(lists.drop_last().take(n) =~= lists.take(n));
        lemma_found_stays(g, lists.drop_last(), values, n);
    }
}

/// A search whose findings agree with the values of the files goes on to do so
/// with the value that it asks for, and what it ends with is what is found in all
/// lists. A value that cannot be read is why that cannot be known.
pub proof fn law_diff_source_search(search: DiffSourceSearchModel, values: CopyValues)
    requires
        search.agrees_with(values),
    ensures
        match search.next_id() {
            None => found_sources(search.graph, search.lists, values) == Ok::<
                FoundView,
                BackendError,
            >(search.found),
            Some(id) => match values(id) {
                Ok(value) => search.answered(value).agrees_with(values),
                Err(err) => found_sources(search.graph, search.lists, values) == Err::<
                    FoundView,
                    BackendError,
                >(err),
            },
        },
    decreases search.lists.len() - search.list,
{
    let g = search.graph;
    let lists = search.lists;
    let list = search.list;
    if list >= lists.len() {
        assert(lists.take(list) =~= lists);
    } else {
        let ids = lists[list];
        let next = lists.take(list + 1);
        assert(next.drop_last() =~= lists.take(list));
        assert(next.last() == ids);
        if search.place < ids.len() {
            lemma_first_present_step(ids, values, search.place);
            if values(ids[search.place]) is Err {
                lemma_found_stays(g, lists, values, list + 1);
            } else if values(ids[search.place])->Ok_0 is Some && list + 1 < lists.len() {
                assert(lists[list + 1].take(0) =~= Seq::empty());
            }
        } else {
            assert(ids.take(search.place) =~= ids);
            let skipped = DiffSourceSearchModel { list: list + 1, place: 0, ..search };
            if list + 1 < lists.len() {
                assert(lists[list + 1].take(0) =~= Seq::empty());
            }
            law_diff_source_search(skipped, values);
        }
    }
}

proof fn lemma_classified_stays(
    g: GraphView,
    after: Seq<u8>,
    found: FoundView,
    values: PathValues,
    n: int,
)
    requires
        0 <= n <= found.len(),
        classified(g, after, found.take(n), values) is Err,
    ensures
        classified(g, after, found, values) == classified(g, after, found.take(n), values),
    decreases found.len(),
{
    if n == found.len() {
        assert(found.take(n) =~= found);
    } else {
        assert(found.drop_last().take(n) =~= found.take(n));
        lemma_classified_stays(g, after, found.drop_last(), values, n);
    }
}

proof fn lemma_settled_agrees(classification: SourceClassificationModel, values: PathValues)
    requires
        classification.agrees_with(values),
    ensures
        (SourceClassificationModel {
            sources: settled(
                classification.graph,
                classification.copy_id,
                classification.found,
                classification.sources,
            ),
            ..classification
        }).agrees_with(values),
    decreases classification.found.len() - classification.sources.len(),
{
    let g = classification.graph;
    let after = classification.copy_id;
    let found = classification.found;
    let sources = classification.sources;
    if sources.len() < found.len() {
        let k = sources.len() as int;
        let (path, file) = found[k];
        if is_same_file(g, after, path, tree_value::copy_id_of(file)->0) {
            let next = found.take(k + 1);
            assert(next.drop_last() =~= found.take(k));
            assert(next.last() == found[k]);
            let more = SourceClassificationModel {
                sources: sources.push((CopySourceView::Normal, seq![Some(file)])),
                ..classification
            };
            lemma_settled_agrees(more, values);
        }
    }
}

/// Before anything is known, the sources that need no value agree with the values.
pub proof fn law_classification_begins(
    classification: SourceClassificationModel,
    values: PathValues,
)
    requires
        classification.sources == settled(
            classification.graph,
            classification.copy_id,
            classification.found,
            Seq::empty(),
        ),
    ensures
        classification.agrees_with(values),
        classification.is_settled(),
{
    let start = SourceClassificationModel { sources: Seq::empty(), ..classification };
    assert(start.found.take(0) =~= Seq::empty());
    lemma_settled_agrees(start, values);
    lemma_settled_twice(
        classification.graph,
        classification.copy_id,
        classification.found,
        Seq::empty(),
    );
}

/// A classification that agrees with the values at the paths goes on to do so
/// with the value that it asks for, and what it ends with is how all sources were
/// used. A value that cannot be read is why that cannot be known.
pub proof fn law_classification(classification: SourceClassificationModel, values: PathValues)
    requires
        classification.agrees_with(values),
        classification.is_settled(),
    ensures
        match classification.next_path() {
            None => classified(
                classification.graph,
                classification.copy_id,
                classification.found,
                values,
            ) == Ok::<SourcesView, BackendError>(classification.sources),
            Some(path) => match values(path) {
                Ok(value) => classification.answered(value).agrees_with(values)
                    && classification.answered(value).is_settled(),
                Err(err) => classified(
                    classification.graph,
                    classification.copy_id,
                    classification.found,
                    values,
                ) == Err::<SourcesView, BackendError>(err),
            },
        },
{
    let g = classification.graph;
    let after = classification.copy_id;
    let found = classification.found;
    let sources = classification.sources;
    if sources.len() == found.len() {
        assert(found.take(sources.len() as int) =~= found);
    } else {
        let k = sources.len() as int;
        let (path, file) = found[k];
        let before = tree_value::copy_id_of(file)->0;
        if is_same_file(g, after, path, before) {
            lemma_settled_grows(
                g,
                after,
                found,
                sources.push((CopySourceView::Normal, seq![Some(file)])),
            );
        }
        let next = found.take(k + 1);
        assert(next.drop_last() =~= found.take(k));
        assert(next.last() == found[k]);
        match values(path) {
            Ok(value) => {
                let source = moved_source(g, path, before, value);
                let more = SourceClassificationModel {
                    sources: sources.push((source, seq![Some(file)])),
                    ..classification
                };
                lemma_settled_agrees(more, values);
                lemma_settled_twice(g, after, found, more.sources);
            },
            Err(_) => {
                lemma_classified_stays(g, after, found, values, k + 1);
            },
        }
    }
}

/// Whether a file is that of one of the IDs.
pub open spec fn is_file_of(
    g: GraphView,
    ids: Seq<Seq<u8>>,
    values: CopyValues,
    found: (PathView, TreeValueView),
) -> bool {
    exists|j: int|
        0 <= j < ids.len() && path_of(g, #[trigger] ids[j]) == found.0 && values(ids[j]) == Ok::<
            Option<TreeValueView>,
            BackendError,
        >(Some(found.1))
}

/// Whether a file is that of an ID of one of the lists.
pub open spec fn is_file_in(
    g: GraphView,
    lists: Seq<Seq<Seq<u8>>>,
    values: CopyValues,
    found: (PathView, TreeValueView),
) -> bool {
    exists|k: int| 0 <= k < lists.len() && #[trigger] is_file_of(g, lists[k], values, found)
}

proof fn lemma_first_present_file(ids: Seq<Seq<u8>>, values: CopyValues) -> (j: int)
    requires
        first_present(ids, values) is Ok,
        first_present(ids, values)->Ok_0 is Some,
    ensures
        0 <= j < ids.len(),
        ids[j] == (first_present(ids, values)->Ok_0->0).0,
        values(ids[j]) == Ok::<Option<TreeValueView>, BackendError>(
            Some((first_present(ids, values)->Ok_0->0).1),
        ),
    decreases ids.len(),
{
    match first_present(ids.drop_last(), values) {
        Ok(None) => ids.len() - 1,
        _ => lemma_first_present_file(ids.drop_last(), values),
    }
}

/// At most one source is found for each list of histories, and each is the file
/// of one of the histories, at its path.
pub proof fn law_found_sources(g: GraphView, lists: Seq<Seq<Seq<u8>>>, values: CopyValues)
    requires
        found_sources(g, lists, values) is Ok,
    ensures
        found_sources(g, lists, values)->Ok_0.len() <= lists.len(),
        forall|i: int|
            0 <= i < found_sources(g, lists, values)->Ok_0.len() ==> is_file_in(
                g,
                lists,
                values,
                #[trigger] found_sources(g, lists, values)->Ok_0[i],
            ),
    decreases lists.len(),
{
    if lists.len() > 0 {
        let fewer = lists.drop_last();
        law_found_sources(g, fewer, values);
        let before = found_sources(g, fewer, values)->Ok_0;
        let all = found_sources(g, lists, values)->Ok_0;
        let last = lists.len() - 1;
        assert forall|i: int| 0 <= i < all.len() implies is_file_in(
            g,
            lists,
            values,
            #[trigger] all[i],
        ) by {
            if i < before.len() {
                assert(all[i] == before[i]);
                let k = choose|k: int|
                    0 <= k < fewer.len() && #[trigger] is_file_of(g, fewer[k], values, before[i]);
                assert(is_file_of(g, lists[k], values, all[i]));
            } else {
                let j = lemma_first_present_file(lists.last(), values);
                assert(is_file_of(g, lists[last], values, all[i]));
            }
        }
    }
}

} // verus!
