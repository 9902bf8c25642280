//! What differences show of copies.

use crate::backend::BackendError;
use crate::backend::CopyRecord;
use crate::copies;
use crate::copies::CopiesPathView;
use crate::copies::CopiesStepView;
use crate::copies::CopyOperation;
use crate::copy_history_stream;
use crate::copy_history_stream::QueuedView;
use crate::copy_history_stream::Traces;
use crate::copy_source::CopyEntryView;
use crate::copy_source::CopySourceView;
use crate::copy_source::DiffTermView;
use crate::copy_source::TermsResult;
use crate::file_diff_laws;
use crate::merge::Diff;
use crate::repo_path::PathView;
use crate::tree_diff::DiffResult;
use crate::tree_value::MergedValueView;
use crate::tree_value::TreeValueView;
use crate::value_laws;
use vstd::prelude::*;

verus! {

/// Whether records for the path as a target were added, and all of them name one source.
pub open spec fn has_origin(added: Seq<CopyRecord>, path: PathView) -> bool {
    &&& exists|i: int| 0 <= i < added.len() && (#[trigger] added[i]).target@ == path
    &&& forall|i: int, j: int|
        0 <= i < added.len() && 0 <= j < added.len() && (#[trigger] added[i]).target@ == path && (
        #[trigger] added[j]).target@ == path ==> added[i].source@ == added[j].source@
}

/// Whether a record with the path as its source was added.
pub open spec fn is_source(added: Seq<CopyRecord>, path: PathView) -> bool {
    exists|i: int| 0 <= i < added.len() && (#[trigger] added[i]).source@ == path
}

proof fn lemma_origin(added: Seq<CopyRecord>, path: PathView)
    ensures
        ({
            let kept = copies::with_records(Seq::empty(), added);
            let place = copies::sole_place(copies::targets_of(kept), path);
            &&& (place is Some) == has_origin(added, path)
            &&& place is Some ==> forall|i: int|
                0 <= i < added.len() && (#[trigger] added[i]).target@ == path
                    ==> kept[place->0].source@ == added[i].source@
            &&& copies::sources_of(kept).contains(path) == is_source(added, path)
        }),
{
    let kept = copies::with_records(Seq::empty(), added);
    let targets = copies::targets_of(added);
    copies::law_record_for_target(added, path);
    copies::law_known_paths(added, path);
    if targets.contains(path) {
        let i = choose|i: int| 0 <= i < targets.len() && targets[i] == path;
        assert(added[i].target@ == path);
    }
    if has_origin(added, path) {
        let i = choose|i: int| 0 <= i < added.len() && (#[trigger] added[i]).target@ == path;
        assert(targets[i] == path);
    }
    let sources = copies::sources_of(added);
    if sources.contains(path) {
        let i = choose|i: int| 0 <= i < sources.len() && sources[i] == path;
        assert(added[i].source@ == path);
    }
    if is_source(added, path) {
        let i = choose|i: int| 0 <= i < added.len() && (#[trigger] added[i]).source@ == path;
        assert(sources[i] == path);
    }
    if let Some(place) = copies::sole_place(copies::targets_of(kept), path) {
        let first = choose|first: int| #[trigger]
            copies::is_first_for(added, path, first) && kept[place] == added[first];
        assert(added[first].target@ == path);
    }
}

/// A difference at a path without an origin is shown as it is, with no source. It is left
/// out only if it is a deletion, and then if and only if some record that was added has
/// the path as its source.
pub proof fn law_difference_without_origin(
    added: Seq<CopyRecord>,
    path: PathView,
    values: DiffResult,
)
    requires
        !has_origin(added, path),
    ensures
        ({
            let step = copies::copies_step(
                copies::with_records(Seq::empty(), added),
                path,
                values,
            );
            let deleted = values is Ok && values->Ok_0.after == seq![None::<TreeValueView>];
            if deleted && is_source(added, path) {
                step == CopiesStepView::Skip
            } else {
                step == CopiesStepView::Entry(
                    (CopiesPathView { source: None, target: path }, values),
                )
            }
        }),
{
    lemma_origin(added, path);
    if let Ok(diff) = values {
        if diff.after.len() == 1 {
            assert(diff.after =~= seq![diff.after[0]]);
        }
    }
}

/// Without any copy records, all differences are shown as they are.
pub proof fn law_differences_without_records(path: PathView, values: DiffResult)
    ensures
        copies::copies_step(Seq::empty(), path, values) == CopiesStepView::Entry(
            (CopiesPathView { source: None, target: path }, values),
        ),
{
    let none = Seq::<CopyRecord>::empty();
    assert(copies::with_records(Seq::empty(), none) == none);
    law_difference_without_origin(none, path, values);
}

/// A difference at a path with an origin is shown with the source that its records name:
/// once the source has been looked up, or as a copy if the values are not known.
pub proof fn law_difference_with_origin(
    added: Seq<CopyRecord>,
    path: PathView,
    values: DiffResult,
    i: int,
)
    requires
        has_origin(added, path),
        0 <= i < added.len(),
        added[i].target@ == path,
    ensures
        ({
            let step = copies::copies_step(
                copies::with_records(Seq::empty(), added),
                path,
                values,
            );
            match values {
                Ok(diff) => step == (CopiesStepView::Resolve {
                    source: added[i].source@,
                    target: path,
                    value: diff.after,
                }),
                Err(err) => step == CopiesStepView::Entry(
                    (
                        CopiesPathView {
                            source: Some((added[i].source@, CopyOperation::Copy)),
                            target: path,
                        },
                        Err::<Diff<MergedValueView>, BackendError>(err),
                    ),
                ),
            }
        }),
{
    lemma_origin(added, path);
}

/// The entry of a copy shows the value of the source before it and the value of the
/// target after it. It is a rename if and only if nothing that has a file is left at the
/// source. If one of the lookups fails, it is shown as a copy with the first failure.
pub proof fn law_entry_of_copy(
    source: PathView,
    target: PathView,
    value: MergedValueView,
    before: Result<MergedValueView, BackendError>,
    left: Result<MergedValueView, BackendError>,
)
    requires
        left is Ok ==> left->Ok_0.len() > 0,
    ensures
        ({
            let entry = copies::copy_entry(source, target, value, before, left);
            &&& entry.0.target == target
            &&& entry.0.source is Some
            &&& (entry.0.source->0).0 == source
            &&& ((entry.0.source->0).1 == CopyOperation::Rename) == (before is Ok && left is Ok
                && !file_diff_laws::has_file(left->Ok_0))
            &&& match (before, left) {
                (Ok(old_value), Ok(_)) => entry.1 == Ok::<Diff<MergedValueView>, BackendError>(
                    Diff { before: old_value, after: value },
                ),
                (Err(err), _) => entry.1 == Err::<Diff<MergedValueView>, BackendError>(err),
                (Ok(_), Err(err)) => entry.1 == Err::<Diff<MergedValueView>, BackendError>(err),
            }
        }),
{
    if left is Ok {
        value_laws::law_kinds_of_values(left->Ok_0);
    }
}

/// The entries for differences that come one after the other are those for the first
/// ones and then those for the others.
pub proof fn law_entries_in_turn(
    first: Seq<(PathView, DiffResult)>,
    second: Seq<(PathView, DiffResult)>,
    traces: Traces,
)
    ensures
        copy_history_stream::all_outcomes(first + second, traces)
            == copy_history_stream::all_outcomes(first, traces)
            + copy_history_stream::all_outcomes(second, traces),
    decreases second.len(),
{
    let all = first + second;
    if second.len() == 0 {
        assert(all =~= first);
        assert(copy_history_stream::all_outcomes(first, traces) + Seq::empty()
            =~= copy_history_stream::all_outcomes(first, traces));
    } else {
        let fewer = second.drop_last();
        assert(all.drop_last() =~= first + fewer);
        assert(all.last() == second.last());
        law_entries_in_turn(first, fewer, traces);
        let last = copy_history_stream::outcomes(
            copy_history_stream::queued_for(second.last().0, second.last().1),
            traces,
        );
        let a = copy_history_stream::all_outcomes(first, traces);
        let b = copy_history_stream::all_outcomes(fewer, traces);
        assert((a + b) + last =~= a + (b + last));
    }
}

/// The file that a side of a difference is resolved to, if it is.
pub open spec fn resolved_file(value: MergedValueView) -> Option<TreeValueView> {
    if value.len() == 1 && value[0] is Some && value[0]->0 is File {
        value[0]
    } else {
        None
    }
}

/// Whether a difference has to be traced: both sides are resolved, after it there is a
/// file, and before it there was no file with the same copy ID, whatever that is.
pub open spec fn is_new_copy(diff: Diff<MergedValueView>) -> bool {
    &&& diff.before.len() == 1
    &&& resolved_file(diff.after) is Some
    &&& resolved_file(diff.before) is None || resolved_file(diff.before)->0->File_copy_id
        != resolved_file(diff.after)->0->File_copy_id
}

proof fn lemma_single(path: PathView, values: DiffResult, traces: Traces)
    ensures
        copy_history_stream::all_outcomes(seq![(path, values)], traces)
            == copy_history_stream::outcomes(
            copy_history_stream::queued_for(path, values),
            traces,
        ),
{
    let diffs = seq![(path, values)];
    assert(diffs.drop_last() =~= Seq::empty());
    assert(diffs.last() == (path, values));
    let last = copy_history_stream::outcomes(
        copy_history_stream::queued_for(path, values),
        traces,
    );
    reveal_with_fuel(copy_history_stream::all_outcomes, 2);
    assert(Seq::<CopyEntryView>::empty() + last =~= last);
}

/// A difference between two files with the same copy ID, whatever it is, gives exactly one
/// entry: the file after it, with the file before it as its only source, at the same path.
pub proof fn law_edited_file(
    path: PathView,
    before: TreeValueView,
    after: TreeValueView,
    traces: Traces,
)
    requires
        before is File,
        after is File,
        before->File_copy_id == after->File_copy_id,
    ensures
        ({
            let values = Ok::<Diff<MergedValueView>, BackendError>(
                Diff { before: seq![Some(before)], after: seq![Some(after)] },
            );
            let entries = copy_history_stream::all_outcomes(seq![(path, values)], traces);
            &&& entries.len() == 1
            &&& entries[0].0 == path
            &&& entries[0].1 == Ok::<Seq<DiffTermView>, BackendError>(
                seq![
                    DiffTermView {
                        target_value: Some(after),
                        sources: seq![(CopySourceView::Normal, seq![Some(before)])],
                    },
                ],
            )
        }),
{
    let values = Ok::<Diff<MergedValueView>, BackendError>(
        Diff { before: seq![Some(before)], after: seq![Some(after)] },
    );
    law_untraced_difference(path, values, traces);
    let entries = copy_history_stream::all_outcomes(seq![(path, values)], traces);
    let term = DiffTermView {
        target_value: Some(after),
        sources: seq![(CopySourceView::Normal, seq![Some(before)])],
    };
    assert(seq![Some(before)] != seq![None::<TreeValueView>]) by {
        assert(seq![Some(before)][0] != seq![None::<TreeValueView>][0]);
    }
    assert(entries[0].1->Ok_0 =~= seq![term]);
}

/// A difference that needs no trace gives exactly one entry, at its path: with a term for
/// each term after it, which has the value before it as its only source, or none if there
/// was nothing. A difference that is not known gives one entry that says why.
pub proof fn law_untraced_difference(path: PathView, values: DiffResult, traces: Traces)
    requires
        values is Ok ==> !is_new_copy(values->Ok_0),
    ensures
        ({
            let entries = copy_history_stream::all_outcomes(seq![(path, values)], traces);
            &&& entries.len() == 1
            &&& entries[0].0 == path
            &&& match values {
                Err(err) => entries[0].1 == Err::<Seq<DiffTermView>, BackendError>(err),
                Ok(diff) => {
                    &&& entries[0].1 is Ok
                    &&& entries[0].1->Ok_0.len() == diff.after.len()
                    &&& forall|i: int|
                        0 <= i < diff.after.len() ==> {
                            &&& (#[trigger] entries[0].1->Ok_0[i]).target_value == diff.after[i]
                            &&& entries[0].1->Ok_0[i].sources == if diff.before == seq![
                                None::<TreeValueView>,
                            ] {
                                Seq::empty()
                            } else {
                                seq![(CopySourceView::Normal, diff.before)]
                            }
                        }
                },
            }
        }),
{
    lemma_single(path, values, traces);
    if let Ok(diff) = values {
        if diff.before.len() == 1 {
            assert(diff.before =~= seq![diff.before[0]]);
        }
    }
}

/// A difference that leads to a new copy gives the result of tracing the file, at its
/// path. If there was something before it, an entry comes first that says that this was
/// deleted.
pub proof fn law_traced_difference(
    path: PathView,
    diff: Diff<MergedValueView>,
    traces: Traces,
)
    requires
        is_new_copy(diff),
    ensures
        ({
            let values = Ok::<Diff<MergedValueView>, BackendError>(diff);
            let entries = copy_history_stream::all_outcomes(seq![(path, values)], traces);
            let traced = (path, traces(path, diff.after[0]->0));
            if diff.before[0] is None {
                entries == seq![traced]
            } else {
                &&& entries.len() == 2
                &&& entries[0].0 == path
                &&& entries[0].1 == Ok::<Seq<DiffTermView>, BackendError>(
                    seq![
                        DiffTermView {
                            target_value: None,
                            sources: seq![(CopySourceView::Normal, diff.before)],
                        },
                    ],
                )
                &&& entries[1] == traced
            }
        }),
{
    let values = Ok::<Diff<MergedValueView>, BackendError>(diff);
    lemma_single(path, values, traces);
    let entries = copy_history_stream::all_outcomes(seq![(path, values)], traces);
    let traced = (path, traces(path, diff.after[0]->0));
    assert(diff.before =~= seq![diff.before[0]]);
    if diff.before[0] is None {
        assert(entries =~= seq![traced]);
    } else {
        let term = DiffTermView {
            target_value: None,
            sources: seq![(CopySourceView::Normal, diff.before)],
        };
        assert(entries[0].1->Ok_0 =~= seq![term]);
    }
}

/// A trace that is finished makes its place in the queue known, with its result at the path
/// of the file, and changes nothing else in the queue.
pub proof fn law_finished_trace(
    queue: Seq<QueuedView>,
    index: int,
    path: PathView,
    file: TreeValueView,
    terms: TermsResult,
    i: int,
)
    requires
        0 <= index < queue.len(),
        queue[index] == QueuedView::Trace(path, file),
        0 <= i < queue.len(),
    ensures
        copy_history_stream::with_trace(queue, index, terms).len() == queue.len(),
        copy_history_stream::with_trace(queue, index, terms)[i] == if i == index {
            QueuedView::Ready((path, terms))
        } else {
            queue[i]
        },
{
}

} // verus!
