//! Differences that take copy history into account show what is in the trees.

use crate::ancestor_paths;
use crate::ancestor_paths::TermValues;
use crate::backend::BackendError;
use crate::copy_candidates;
use crate::copy_graph;
use crate::copy_graph::GraphView;
use crate::copy_history_stream;
use crate::copy_history_stream::QueuedView;
use crate::copy_history_stream::Traces;
use crate::copy_source;
use crate::copy_source::TermsResult;
use crate::copy_trace;
use crate::copy_trace::CopyValues;
use crate::copy_trace::FoundView;
use crate::copy_trace::PathValues;
use crate::diff_adapters;
use crate::matchers::EverythingMatcher;
use crate::merge;
use crate::merged_tree;
use crate::path_lookup;
use crate::presence_fill::TermPaths;
use crate::rename_laws;
use crate::rename_laws::RenameOracle;
use crate::rename_scan;
use crate::repo_path::PathView;
use crate::store::Store;
use crate::tree_diff::DiffResult;
use crate::tree_diff_laws;
use crate::tree_read::Reads;
use crate::tree_value;
use crate::tree_value::TreeValueView;
use vstd::prelude::*;

verus! {

/// What the trace of a file with a copy ID gives, if the related copies have that ID.
pub open spec fn trace_result(
    g: GraphView,
    id: Seq<u8>,
    file: TreeValueView,
    before: CopyValues,
    after: PathValues,
) -> TermsResult {
    match copy_trace::found_sources(g, copy_candidates::candidates(g, id), before) {
        Err(err) => Err(err),
        Ok(found) => match copy_trace::classified(g, id, found, after) {
            Err(err) => Err(err),
            Ok(sources) => Ok(copy_trace::traced_terms(file, sources)),
        },
    }
}

/// A trace that goes through its stages to the end has this result: the search that
/// agrees with the files has found all sources, and the classification that agrees with
/// the values has told how all of them were used.
pub proof fn law_trace_result(
    search: copy_trace::DiffSourceSearchModel,
    classification: copy_trace::SourceClassificationModel,
    before: CopyValues,
    after: PathValues,
)
    requires
        search.lists == copy_candidates::candidates(search.graph, search.copy_id),
        search.agrees_with(before),
        search.next_id() is None,
        classification.graph == search.graph,
        classification.file == search.file,
        classification.copy_id == search.copy_id,
        classification.found == search.found,
        classification.agrees_with(after),
        classification.is_settled(),
        classification.next_path() is None,
    ensures
        trace_result(search.graph, search.copy_id, search.file, before, after) == Ok::<
            Seq<copy_source::DiffTermView>,
            BackendError,
        >(copy_trace::traced_terms(search.file, classification.sources)),
{
    copy_trace::law_diff_source_search(search, before);
    copy_trace::law_classification(classification, after);
}

proof fn lemma_classified_paths(
    g: GraphView,
    id: Seq<u8>,
    found: FoundView,
    values: PathValues,
    target: PathView,
)
    requires
        copy_trace::classified(g, id, found, values) is Ok,
        copy_trace::path_of(g, id) == target,
    ensures
        ({
            let sources = copy_trace::classified(g, id, found, values)->Ok_0;
            &&& sources.len() == found.len()
            &&& forall|i: int|
                0 <= i < found.len() ==> rename_laws::source_path(
                    (#[trigger] sources[i]).0,
                    target,
                ) == found[i].0
        }),
    decreases found.len(),
{
    if found.len() > 0 {
        let fewer = found.drop_last();
        lemma_classified_paths(g, id, fewer, values, target);
        let sources = copy_trace::classified(g, id, found, values)->Ok_0;
        let before = copy_trace::classified(g, id, fewer, values)->Ok_0;
        assert forall|i: int| 0 <= i < found.len() implies rename_laws::source_path(
            (#[trigger] sources[i]).0,
            target,
        ) == found[i].0 by {
            if i < fewer.len() {
                assert(sources[i] == before[i]);
                assert(fewer[i] == found[i]);
            }
        }
    }
}

/// A trace shows only what is present: the file itself, if it is, and for a source the
/// file of a related copy, at its path.
pub proof fn law_trace_holds(
    present: TermPaths,
    before_term: int,
    after_term: int,
    g: GraphView,
    id: Seq<u8>,
    path: PathView,
    file: TreeValueView,
    before: CopyValues,
    after: PathValues,
)
    requires
        copy_graph::distinct_ids(g),
        copy_graph::is_closed(g),
        copy_graph::is_acyclic(g),
        copy_graph::has_id(g, id),
        copy_trace::path_of(g, id) == path,
        present(after_term, path),
        forall|a: Seq<u8>|
            copy_graph::has_id(g, a) && (#[trigger] before(a)) is Ok && before(a)->Ok_0 is Some
                ==> present(before_term, copy_trace::path_of(g, a)),
    ensures
        rename_laws::entry_holds(
            present,
            before_term,
            after_term,
            (path, trace_result(g, id, file, before, after)),
        ),
{
    let lists = copy_candidates::candidates(g, id);
    if let Ok(terms) = trace_result(g, id, file, before, after) {
        let found = copy_trace::found_sources(g, lists, before)->Ok_0;
        let sources = copy_trace::classified(g, id, found, after)->Ok_0;
        copy_trace::law_found_sources(g, lists, before);
        copy_candidates::law_candidates_in_graph(g, id);
        lemma_classified_paths(g, id, found, after, path);
        assert forall|k: int| 0 <= k < sources.len() implies rename_laws::source_holds(
            present,
            before_term,
            path,
            #[trigger] sources[k],
        ) by {
            assert(copy_trace::is_file_in(g, lists, before, found[k]));
            let l = choose|l: int|
                0 <= l < lists.len() && #[trigger] copy_trace::is_file_of(
                    g,
                    lists[l],
                    before,
                    found[k],
                );
            let ids = lists[l];
            let j = choose|j: int|
                0 <= j < ids.len() && copy_trace::path_of(g, #[trigger] ids[j]) == found[k].0
                    && before(ids[j]) == Ok::<Option<TreeValueView>, BackendError>(
                    Some(found[k].1),
                );
            assert(copy_candidates::all_in_graph(g, lists[l]));
            assert(copy_graph::has_id(g, ids[j]));
            assert(present(before_term, copy_trace::path_of(g, ids[j])));
        }
        assert(rename_laws::term_holds(present, before_term, after_term, path, terms[0]));
    }
}

/// Whether a difference between the trees of two terms shows what is in them, or leaves
/// a side out.
pub open spec fn diff_holds(
    values: TermValues,
    before: int,
    after: int,
    path: PathView,
    diff: DiffResult,
) -> bool {
    diff is Ok ==> {
        &&& merge::is_absent(diff->Ok_0.before) || diff->Ok_0.before == values(before, path)
        &&& merge::is_absent(diff->Ok_0.after) || diff->Ok_0.after == values(after, path)
    }
}

/// Whether the results of traces are those for the trees of two terms, where a file of the
/// latter is traced at its path.
pub open spec fn traces_hold(
    oracle: RenameOracle,
    before: int,
    after: int,
    traces: Traces,
) -> bool {
    forall|path: PathView, file: TreeValueView|
        (oracle.values)(after, path) == seq![Some(file)] ==> match tree_value::copy_id_of(file) {
            None => true,
            Some(id) => if id == Seq::<u8>::empty() {
                #[trigger] traces(path, file) == Ok::<
                    Seq<copy_source::DiffTermView>,
                    BackendError,
                >(copy_trace::traced_terms(file, Seq::empty()))
            } else if copy_graph::has_id((oracle.copies)(id), id) {
                traces(path, file) == trace_result(
                    (oracle.copies)(id),
                    id,
                    file,
                    oracle.copy_values(before),
                    oracle.path_values(after),
                )
            } else {
                traces(path, file) is Err
            },
        }
}

impl RenameOracle {
    /// What the tree of a term holds for a copy ID.
    pub open spec fn copy_values(self, term: int) -> CopyValues {
        |id: Seq<u8>|
            Ok(merged_tree::copy_value_in(id, (self.values)(term, (self.copy_paths)(id))))
    }

    /// What the tree of a term holds at a path.
    pub open spec fn path_values(self, term: int) -> PathValues {
        |path: PathView| Ok((self.values)(term, path))
    }

    /// Whether the related copies of an ID are sound: they have no ID twice, all
    /// parents, and no cycle, and each history is the one that the ID has on its own.
    pub open spec fn has_sound_copies(self, id: Seq<u8>) -> bool {
        &&& copy_graph::distinct_ids((self.copies)(id))
        &&& copy_graph::is_closed((self.copies)(id))
        &&& copy_graph::is_acyclic((self.copies)(id))
        &&& forall|a: Seq<u8>| #[trigger]
            copy_graph::has_id((self.copies)(id), a) ==> copy_trace::path_of(
                (self.copies)(id),
                a,
            ) == (self.copy_paths)(a)
    }

    /// Whether the copy histories go with the tree of a term: for a file with a copy ID
    /// in the tree, the copy object's path must match the path identified by the tree, and
    /// the related copies are sound.
    pub open spec fn has_sound_term(self, term: int) -> bool {
        forall|path: PathView|
            match ancestor_paths::traceable_id(#[trigger] (self.values)(term, path)) {
                Some(id) => (self.copy_paths)(id) == path && self.has_sound_copies(id),
                None => true,
            }
    }

    /// Whether the copy histories go with the trees of the sides of the merge.
    pub open spec fn has_sound_histories(self) -> bool {
        forall|term: int|
            0 <= term < self.num_terms && term % 2 == 0 ==> #[trigger] self.has_sound_term(term)
    }
}

proof fn lemma_queued_holds(
    oracle: RenameOracle,
    before: int,
    after: int,
    path: PathView,
    values: DiffResult,
    traces: Traces,
)
    requires
        oracle.has_sound_term(after),
        diff_holds(oracle.values, before, after, path, values),
        traces_hold(oracle, before, after, traces),
    ensures
        forall|i: int|
            0 <= i < copy_history_stream::queued_for(path, values).len()
                ==> rename_laws::entry_holds(
                oracle.present(),
                before,
                after,
                copy_history_stream::outcome(
                    #[trigger] copy_history_stream::queued_for(path, values)[i],
                    traces,
                ),
            ),
{
    let present = oracle.present();
    let queued = copy_history_stream::queued_for(path, values);
    assert forall|i: int| 0 <= i < queued.len() implies rename_laws::entry_holds(
        present,
        before,
        after,
        copy_history_stream::outcome(#[trigger] queued[i], traces),
    ) by {
        if let Ok(diff) = values {
            if copy_history_stream::needs_trace(diff) {
                let file = diff.after[0]->0;
                assert(present(after, path));
                if queued[i] is Trace {
                    assert(queued[i] == QueuedView::Trace(path, file));
                    lemma_traced_file_holds(oracle, before, after, path, file, traces);
                } else {
                    let value = diff.before[0]->0;
                    let entry = copy_history_stream::deleted_entry(path, value);
                    let term = entry.1->Ok_0[0];
                    assert(present(before, path));
                    assert forall|k: int| 0 <= k < term.sources.len() implies (
                    rename_laws::source_holds(
                        present,
                        before,
                        path,
                        #[trigger] term.sources[k],
                    )) by {}
                    assert(rename_laws::term_holds(present, before, after, path, term));
                }
            } else {
                let terms = copy_source::plain_terms(diff);
                assert forall|k: int| 0 <= k < terms.len() implies rename_laws::term_holds(
                    present,
                    before,
                    after,
                    path,
                    #[trigger] terms[k],
                ) by {
                    if diff.after[k] is Some {
                        assert(!merge::is_absent(diff.after));
                    }
                }
            }
        }
    }
}

proof fn lemma_traced_file_holds(
    oracle: RenameOracle,
    before: int,
    after: int,
    path: PathView,
    file: TreeValueView,
    traces: Traces,
)
    requires
        oracle.has_sound_term(after),
        traces_hold(oracle, before, after, traces),
        tree_value::copy_id_of(file) is Some,
        (oracle.values)(after, path).len() == 1,
        (oracle.values)(after, path)[0] == Some(file),
    ensures
        rename_laws::entry_holds(
            oracle.present(),
            before,
            after,
            (path, traces(path, file)),
        ),
{
    let present = oracle.present();
    let id = tree_value::copy_id_of(file)->0;
    let g = (oracle.copies)(id);
    assert(present(after, path));
    assert((oracle.values)(after, path) =~= seq![Some(file)]);
    if traces(path, file) is Ok {
        if id == Seq::<u8>::empty() {
            let terms = copy_trace::traced_terms(file, Seq::empty());
            assert(rename_laws::term_holds(present, before, after, path, terms[0]));
        } else {
            assert(oracle.has_sound_copies(id));
            assert((oracle.copy_paths)(id) == path);
            let found = oracle.copy_values(before);
            assert forall|a: Seq<u8>|
                copy_graph::has_id(g, a) && (#[trigger] found(a)) is Ok && found(a)->Ok_0 is Some
                implies present(before, copy_trace::path_of(g, a)) by {
                assert(present(before, (oracle.copy_paths)(a)));
            }
            law_trace_holds(
                present,
                before,
                after,
                g,
                id,
                path,
                file,
                found,
                oracle.path_values(after),
            );
        }
    }
}

/// The entries for the differences between the trees of two terms show only what is
/// present in these trees.
pub proof fn law_copy_entries(
    oracle: RenameOracle,
    before: int,
    after: int,
    diffs: Seq<(PathView, DiffResult)>,
    traces: Traces,
)
    requires
        oracle.has_sound_term(after),
        traces_hold(oracle, before, after, traces),
        forall|i: int|
            0 <= i < diffs.len() ==> diff_holds(
                oracle.values,
                before,
                after,
                (#[trigger] diffs[i]).0,
                diffs[i].1,
            ),
    ensures
        forall|i: int|
            0 <= i < copy_history_stream::all_outcomes(diffs, traces).len()
                ==> rename_laws::entry_holds(
                oracle.present(),
                before,
                after,
                #[trigger] copy_history_stream::all_outcomes(diffs, traces)[i],
            ),
    decreases diffs.len(),
{
    if diffs.len() > 0 {
        let fewer = diffs.drop_last();
        assert forall|i: int| 0 <= i < fewer.len() implies diff_holds(
            oracle.values,
            before,
            after,
            (#[trigger] fewer[i]).0,
            fewer[i].1,
        ) by {
            assert(fewer[i] == diffs[i]);
        }
        law_copy_entries(oracle, before, after, fewer, traces);
        let (path, values) = diffs.last();
        assert(diffs[diffs.len() - 1] == (path, values));
        lemma_queued_holds(oracle, before, after, path, values, traces);
        let front = copy_history_stream::all_outcomes(fewer, traces);
        let queued = copy_history_stream::queued_for(path, values);
        let all = copy_history_stream::all_outcomes(diffs, traces);
        assert forall|i: int| 0 <= i < all.len() implies rename_laws::entry_holds(
            oracle.present(),
            before,
            after,
            #[trigger] all[i],
        ) by {
            if i < front.len() {
                assert(all[i] == front[i]);
            } else {
                let k = i - front.len();
                assert(all[i] == copy_history_stream::outcome(queued[k], traces));
            }
        }
    }
}

/// What the trees of the terms hold, as far as it can be read.
pub open spec fn tree_values(reads: Reads, store: Store, ids: Seq<Seq<u8>>) -> TermValues {
    |term: int, path: PathView|
        path_lookup::value_at(reads, store, merged_tree::root_value(seq![ids[term]]), path)->Ok_0
}

/// What is shown at a path of the differences between the trees of two terms, trees
/// left out, is what these trees hold there.
pub proof fn law_shown_values(
    reads: Reads,
    store: Store,
    ids: Seq<Seq<u8>>,
    before: int,
    after: int,
    path: PathView,
)
    ensures
        match tree_diff_laws::pair_of(reads, store, seq![ids[before]], seq![ids[after]]).shown_diff(
            &EverythingMatcher,
        )(path) {
            None => true,
            Some(values) => match diff_adapters::values_without_trees(values) {
                None => true,
                Some(rest) => diff_holds(
                    tree_values(reads, store, ids),
                    before,
                    after,
                    path,
                    rest,
                ),
            },
        },
{
    let pair = tree_diff_laws::pair_of(reads, store, seq![ids[before]], seq![ids[after]]);
    let shown = pair.shown_diff(&EverythingMatcher)(path);
    if shown is Some && shown->0 is Ok {
        let diff = shown->0->Ok_0;
        assert(diff == pair.diff_at(&EverythingMatcher, path));
    }
}

/// In a merge whose differences were found by comparing the trees of its terms, and
/// whose copy histories go with the trees of its sides, an entry of the rename map is
/// absent or aligned with the trees of all terms.
pub proof fn law_rename_map_of_trees(
    oracle: RenameOracle,
    diffs: spec_fn(int) -> Seq<(PathView, DiffResult)>,
    traces: spec_fn(int) -> Traces,
    path: PathView,
)
    requires
        oracle.num_terms % 2 == 1,
        oracle.has_sound_histories(),
        forall|t: int|
            0 <= t < oracle.num_terms - 1 ==> #[trigger] (oracle.entries)(t)
                == copy_history_stream::all_outcomes(diffs(t), traces(t)),
        forall|t: int|
            0 <= t < oracle.num_terms - 1 ==> traces_hold(
                oracle,
                rename_scan::transition_terms(t).0,
                rename_scan::transition_terms(t).1,
                #[trigger] traces(t),
            ),
        forall|t: int, i: int|
            0 <= t < oracle.num_terms - 1 && 0 <= i < diffs(t).len() ==> diff_holds(
                oracle.values,
                rename_scan::transition_terms(t).0,
                rename_scan::transition_terms(t).1,
                (#[trigger] diffs(t)[i]).0,
                diffs(t)[i].1,
            ),
        rename_laws::rename_map_of(oracle) is Ok,
    ensures
        oracle.num_terms < 3 ==> (rename_laws::rename_map_of(oracle)->Ok_0)(path) is None,
        match (rename_laws::rename_map_of(oracle)->Ok_0)(path) {
            Some(terms) => terms == merge::absent_terms::<PathView>() || rename_laws::aligned(
                oracle,
                path,
                terms,
            ),
            None => true,
        },
{
    assert forall|t: int, i: int|
        0 <= t < oracle.num_terms - 1 && 0 <= i < (oracle.entries)(t).len() implies (
    rename_laws::entry_holds(
        oracle.present(),
        rename_scan::transition_terms(t).0,
        rename_scan::transition_terms(t).1,
        #[trigger] (oracle.entries)(t)[i],
    )) by {
        let (before, after) = rename_scan::transition_terms(t);
        assert(oracle.has_sound_term(after));
        assert forall|k: int| 0 <= k < diffs(t).len() implies diff_holds(
            oracle.values,
            before,
            after,
            (#[trigger] diffs(t)[k]).0,
            diffs(t)[k].1,
        ) by {}
        law_copy_entries(oracle, before, after, diffs(t), traces(t));
    }
    rename_laws::law_rename_map(oracle, path);
}

} // verus!
