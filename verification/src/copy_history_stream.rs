//! Differences between two trees that follow copies and renames.

use crate::backend::BackendResult;
use crate::copy_source;
use crate::copy_source::CopyEntryView;
use crate::copy_source::CopyHistoryDiffTerm;
use crate::copy_source::CopyHistorySource;
use crate::copy_source::CopyHistoryTreeDiffEntry;
use crate::copy_source::CopySourceView;
use crate::copy_source::DiffTermView;
use crate::copy_source::TermsResult;
use crate::merge::Diff;
use crate::merge::Merge;
use crate::merged_tree::MergedTree;
use crate::repo_path::PathView;
use crate::repo_path::RepoPathBuf;
use crate::tree_diff;
use crate::tree_diff::DiffResult;
use crate::tree_diff::TreeDiffEntry;
use crate::tree_value;
use crate::tree_value::MergedTreeValue;
use crate::tree_value::MergedValueView;
use crate::tree_value::TreeValue;
use crate::tree_value::TreeValueView;
use crate::value::Value;
use vstd::prelude::*;

verus! {

/// The model of a queued entry.
pub ghost enum QueuedView {
    /// The entry is known.
    Ready(CopyEntryView),
    /// The file at the path has to be traced.
    Trace(PathView, TreeValueView),
}

/// Whether there are files with the same copy ID on both sides of a difference.
pub open spec fn same_copy_id(before: Option<TreeValueView>, after: Option<TreeValueView>) -> bool {
    match (before, after) {
        (
            Some(TreeValueView::File { copy_id: id1, .. }),
            Some(TreeValueView::File { copy_id: id2, .. }),
        ) => id1 == id2,
        _ => false,
    }
}

/// Whether the file after a change has to be traced: neither side has conflicts,
/// and the file after it is not the one from before.
pub open spec fn needs_trace(diff: Diff<MergedValueView>) -> bool {
    &&& diff.before.len() == 1
    &&& diff.after.len() == 1
    &&& diff.after[0] is Some
    &&& diff.after[0]->0 is File
    &&& !same_copy_id(diff.before[0], diff.after[0])
}

/// The entry that says that something was deleted.
pub open spec fn deleted_entry(path: PathView, value: TreeValueView) -> CopyEntryView {
    (
        path,
        Ok(
            seq![
                DiffTermView {
                    target_value: None,
                    sources: seq![(CopySourceView::Normal, seq![Some(value)])],
                },
            ],
        ),
    )
}

/// What is queued for a difference: for a file to be traced, the deletion of what
/// was there before, if anything was, and the trace; else the plain difference.
pub open spec fn queued_for(path: PathView, values: DiffResult) -> Seq<QueuedView> {
    if values is Ok && needs_trace(values->Ok_0) {
        let diff = values->Ok_0;
        let trace = QueuedView::Trace(path, diff.after[0]->0);
        match diff.before[0] {
            Some(value) => seq![QueuedView::Ready(deleted_entry(path, value)), trace],
            None => seq![trace],
        }
    } else {
        seq![QueuedView::Ready(copy_source::plain_entry(path, values))]
    }
}

/// An entry that was queued.
#[derive(Debug)]
enum Queued {
    /// The entry is known.
    Ready(CopyHistoryTreeDiffEntry),
    /// The file at the path has to be traced.
    Trace(RepoPathBuf, TreeValue),
}

impl DeepView for Queued {
    type V = QueuedView;

    closed spec fn deep_view(&self) -> QueuedView {
        match self {
            Queued::Ready(entry) => QueuedView::Ready(entry@),
            Queued::Trace(path, file) => QueuedView::Trace(path@, file@),
        }
    }
}

/// What a stream does next.
#[derive(Debug)]
pub enum CopyHistoryPoll {
    /// It gives this entry.
    Entry(CopyHistoryTreeDiffEntry),
    /// It needs the next difference.
    NextDiff,
    /// It needs the result of a trace.
    Pending,
    /// It ends.
    Done,
}

/// The model of a stream.
pub ghost struct CopyHistoryStreamModel {
    /// The entries that were queued, in order.
    pub queue: Seq<QueuedView>,
    /// Whether there are no more differences.
    pub ended: bool,
}

/// Adapts a stream of differences to follow copies / renames.
#[derive(Debug)]
pub struct CopyHistoryDiffStream<'a> {
    before_tree: &'a MergedTree,
    after_tree: &'a MergedTree,
    queue: Vec<Queued>,
    ended: bool,
}

impl<'a> View for CopyHistoryDiffStream<'a> {
    type V = CopyHistoryStreamModel;

    closed spec fn view(&self) -> CopyHistoryStreamModel {
        CopyHistoryStreamModel { queue: self.queue.deep_view(), ended: self.ended }
    }
}

impl<'a> CopyHistoryDiffStream<'a> {
    /// The trees of this stream, before and after.
    pub closed spec fn trees(self) -> (MergedTree, MergedTree) {
        (*self.before_tree, *self.after_tree)
    }

    /// Creates a stream of the differences between two trees, taking copy
    /// history into account. Generally prefer
    /// `MergedTree::diff_stream_with_copy_history()` instead of calling this
    /// directly.
    pub fn new(before_tree: &'a MergedTree, after_tree: &'a MergedTree) -> (r: Self)
        ensures
            r@ == (CopyHistoryStreamModel { queue: Seq::empty(), ended: false }),
            r.trees() == (*before_tree, *after_tree),
    {
        let r = CopyHistoryDiffStream { before_tree, after_tree, queue: Vec::new(), ended: false };
        assert(r.queue.deep_view() =~= Seq::empty());
        r
    }

    /// The tree before the change.
    pub fn before_tree(&self) -> (r: &'a MergedTree)
        ensures
            *r == self.trees().0,
    {
        self.before_tree
    }

    /// The tree after the change.
    pub fn after_tree(&self) -> (r: &'a MergedTree)
        ensures
            *r == self.trees().1,
    {
        self.after_tree
    }

    /// What comes next: the first entry of the queue if it is known, and else the
    /// next difference while there are any.
    pub fn poll_next(&mut self) -> (r: CopyHistoryPoll)
        ensures
            final(self).trees() == old(self).trees(),
            match r {
                CopyHistoryPoll::Entry(entry) => {
                    &&& old(self)@.queue.len() > 0
                    &&& old(self)@.queue[0] == QueuedView::Ready(entry@)
                    &&& final(self)@ == (CopyHistoryStreamModel {
                        queue: old(self)@.queue.drop_first(),
                        ..old(self)@
                    })
                },
                CopyHistoryPoll::NextDiff => {
                    &&& old(self)@.queue.len() > 0 ==> old(self)@.queue[0] is Trace
                    &&& !old(self)@.ended
                    &&& final(self)@ == old(self)@
                },
                CopyHistoryPoll::Pending => {
                    &&& old(self)@.queue.len() > 0
                    &&& old(self)@.queue[0] is Trace
                    &&& old(self)@.ended
                    &&& final(self)@ == old(self)@
                },
                CopyHistoryPoll::Done => {
                    &&& old(self)@.queue.len() == 0
                    &&& old(self)@.ended
                    &&& final(self)@ == old(self)@
                },
            },
    {
        // First, check if we have newly-finished traces. If not, we intentionally
        // go on with the next difference.
        if self.queue.len() == 0 {
            return if self.ended {
                CopyHistoryPoll::Done
            } else {
                CopyHistoryPoll::NextDiff
            };
        }
        let ghost before = self.queue.deep_view();
        assert(before[0] == self.queue@[0].deep_view());
        match self.queue.remove(0) {
            Queued::Ready(entry) => {
                assert(self.queue.deep_view() =~= before.drop_first());
                CopyHistoryPoll::Entry(entry)
            },
            Queued::Trace(path, file) => {
                self.queue.insert(0, Queued::Trace(path, file));
                assert(self.queue.deep_view() =~= before);
                if self.ended {
                    CopyHistoryPoll::Pending
                } else {
                    CopyHistoryPoll::NextDiff
                }
            },
        }
    }

    /// Queues the entries for the next difference.
    pub fn take_diff(&mut self, next_diff_entry: TreeDiffEntry)
        ensures
            final(self).trees() == old(self).trees(),
            final(self)@ == (CopyHistoryStreamModel {
                queue: old(self)@.queue + queued_for(next_diff_entry@.0, next_diff_entry@.1),
                ..old(self)@
            }),
    {
        let ghost queue = self.queue.deep_view();
        let (before, file) = match trace_of(&next_diff_entry) {
            Some(found) => found,
            None => {
                let entry = CopyHistoryTreeDiffEntry::normal(next_diff_entry);
                self.queue.push(Queued::Ready(entry));
                assert(self.queue.deep_view() =~= queue + seq![QueuedView::Ready(entry@)]);
                return;
            },
        };
        let path = next_diff_entry.path;
        if let Some(other) = before {
            // For files with non-matching copy-ids, or for a non-file that changes to a
            // file, mark the first as deleted and do copy-tracing on the second.
            let mut sources: Vec<(CopyHistorySource, MergedTreeValue)> = Vec::new();
            let value = Merge::normal(other);
            assert(value@ =~= seq![Some(other@)]);
            sources.push((CopyHistorySource::Normal, value));
            assert(sources.deep_view() =~= seq![(CopySourceView::Normal, seq![Some(other@)])]);
            let terms = Merge::resolved(CopyHistoryDiffTerm { target_value: None, sources });
            assert(terms@ =~= deleted_entry(path@, other@).1->Ok_0);
            let entry = CopyHistoryTreeDiffEntry { target_path: path.dup(), diffs: Ok(terms) };
            self.queue.push(Queued::Ready(entry));
        }
        self.queue.push(Queued::Trace(path, file));
        assert(self.queue.deep_view() =~= queue + queued_for(
            next_diff_entry@.0,
            next_diff_entry@.1,
        ));
    }

    /// Takes note that there are no more differences.
    pub fn end_diffs(&mut self)
        ensures
            final(self).trees() == old(self).trees(),
            final(self)@ == (CopyHistoryStreamModel { ended: true, ..old(self)@ }),
    {
        self.ended = true;
    }

    /// The number of entries in the queue.
    pub fn queue_len(&self) -> (r: usize)
        ensures
            r == self@.queue.len(),
    {
        self.queue.len()
    }

    /// The file to be traced at the given place of the queue, if there is one.
    pub fn trace_at(&self, index: usize) -> (r: Option<&TreeValue>)
        requires
            index < self@.queue.len(),
        ensures
            match r {
                Some(file) => self@.queue[index as int] matches QueuedView::Trace(_, f) && f
                    == file@,
                None => self@.queue[index as int] is Ready,
            },
    {
        assert(self@.queue[index as int] == self.queue@[index as int].deep_view());
        match &self.queue[index] {
            Queued::Trace(_, file) => Some(file),
            Queued::Ready(_) => None,
        }
    }

    /// Takes note of the result of the trace at the given place of the queue.
    pub fn finish_trace(
        &mut self,
        index: usize,
        diffs: BackendResult<Merge<CopyHistoryDiffTerm>>,
    )
        requires
            index < old(self)@.queue.len(),
            old(self)@.queue[index as int] is Trace,
        ensures
            final(self).trees() == old(self).trees(),
            final(self)@ == (CopyHistoryStreamModel {
                queue: with_trace(
                    old(self)@.queue,
                    index as int,
                    copy_source::terms_view(diffs),
                ),
                ..old(self)@
            }),
    {
        let ghost queue = self.queue.deep_view();
        assert(queue[index as int] == self.queue@[index as int].deep_view());
        let target_path = match &self.queue[index] {
            Queued::Trace(path, _) => path.dup(),
            Queued::Ready(entry) => entry.target_path.dup(),
        };
        let entry = CopyHistoryTreeDiffEntry { target_path, diffs };
        self.queue.set(index, Queued::Ready(entry));
        assert(self.queue.deep_view() =~= with_trace(
            queue,
            index as int,
            copy_source::terms_view(diffs),
        ));
    }
}

/// The queue once a trace in it has a result.
pub open spec fn with_trace(queue: Seq<QueuedView>, index: int, terms: TermsResult) -> Seq<
    QueuedView,
> {
    queue.update(index, QueuedView::Ready((queue[index]->Trace_0, terms)))
}

/// What was at the path before and the file that is there now, if it has to be
/// traced.
fn trace_of(diff_entry: &TreeDiffEntry) -> (r: Option<(Option<TreeValue>, TreeValue)>)
    ensures
        match r {
            Some((before, file)) => {
                let diff = diff_entry@.1->Ok_0;
                &&& diff_entry@.1 is Ok
                &&& needs_trace(diff)
                &&& before.deep_view() == diff.before[0]
                &&& file@ == diff.after[0]->0
            },
            None => !(diff_entry@.1 is Ok && needs_trace(diff_entry@.1->Ok_0)),
        },
{
    let diff = match &diff_entry.values {
        Ok(diff) => diff,
        Err(_) => return None,
    };
    // Don't try copy-tracing if we have conflicts on either side.
    let before = match diff.before.as_resolved() {
        Some(before) => before,
        None => return None,
    };
    let after = match diff.after.as_resolved() {
        Some(after) => after,
        None => return None,
    };
    assert(diff.before@[0] == before.deep_view());
    assert(diff.after@[0] == after.deep_view());
    let file = match after {
        Some(file) => file,
        None => return None,
    };
    let copy_id = match file.copy_id() {
        Some(copy_id) => copy_id,
        None => return None,
    };
    // If we have files with matching copy_ids, no need to do copy-tracing.
    if let Some(other) = before {
        if let Some(other_id) = other.copy_id() {
            if other_id.same(copy_id) {
                return None;
            }
        }
    }
    Some((before.dup(), file.dup()))
}

impl MergedTree {
    /// The stream of the differences to another tree that takes copy history into
    /// account.
    pub fn diff_stream_with_copy_history<'a>(&'a self, other: &'a Self) -> (r:
        CopyHistoryDiffStream<'a>)
        ensures
            r@ == (CopyHistoryStreamModel { queue: Seq::empty(), ended: false }),
            r.trees() == (*self, *other),
    {
        CopyHistoryDiffStream::new(self, other)
    }
}

/// The results of traces, by the path and the file.
pub type Traces = spec_fn(PathView, TreeValueView) -> TermsResult;

/// The entry that comes of a queued one.
pub open spec fn outcome(queued: QueuedView, traces: Traces) -> CopyEntryView {
    match queued {
        QueuedView::Ready(entry) => entry,
        QueuedView::Trace(path, file) => (path, traces(path, file)),
    }
}

/// The entries that come of a queue, in order.
pub open spec fn outcomes(queue: Seq<QueuedView>, traces: Traces) -> Seq<CopyEntryView> {
    Seq::new(queue.len(), |i: int| outcome(queue[i], traces))
}

/// The entries for all differences, in order.
pub open spec fn all_outcomes(diffs: Seq<(PathView, DiffResult)>, traces: Traces) -> Seq<
    CopyEntryView,
>
    decreases diffs.len(),
{
    if diffs.len() == 0 {
        Seq::empty()
    } else {
        all_outcomes(diffs.drop_last(), traces) + outcomes(
            queued_for(diffs.last().0, diffs.last().1),
            traces,
        )
    }
}

/// Something that happens to a stream.
pub ghost enum HistoryEvent {
    /// The next difference is taken.
    Diff,
    /// The trace at this place of the queue is finished.
    Traced(int),
    /// The first entry of the queue is given.
    Emit,
}

/// A stream in the course of events.
pub ghost struct HistoryRun {
    /// The queue.
    pub queue: Seq<QueuedView>,
    /// How many differences were taken.
    pub taken: nat,
    /// The entries that were given.
    pub given: Seq<CopyEntryView>,
}

/// What the events lead to, if they can happen.
pub open spec fn history_run(
    diffs: Seq<(PathView, DiffResult)>,
    traces: Traces,
    events: Seq<HistoryEvent>,
) -> Option<HistoryRun>
    decreases events.len(),
{
    if events.len() == 0 {
        Some(HistoryRun { queue: Seq::empty(), taken: 0, given: Seq::empty() })
    } else {
        match history_run(diffs, traces, events.drop_last()) {
            None => None,
            Some(run) => match events.last() {
                HistoryEvent::Diff => if run.taken < diffs.len() {
                    let (path, values) = diffs[run.taken as int];
                    Some(
                        HistoryRun {
                            queue: run.queue + queued_for(path, values),
                            taken: run.taken + 1,
                            ..run
                        },
                    )
                } else {
                    None
                },
                HistoryEvent::Traced(index) => if 0 <= index < run.queue.len()
                    && run.queue[index] is Trace {
                    let queued = run.queue[index];
                    Some(
                        HistoryRun {
                            queue: with_trace(run.queue, index, outcome(queued, traces).1),
                            ..run
                        },
                    )
                } else {
                    None
                },
                HistoryEvent::Emit => if run.queue.len() > 0 && run.queue[0] is Ready {
                    Some(
                        HistoryRun {
                            queue: run.queue.drop_first(),
                            given: run.given.push(run.queue[0]->Ready_0),
                            ..run
                        },
                    )
                } else {
                    None
                },
            },
        }
    }
}

/// In whatever order traces are finished, the entries come in the order of the
/// differences: what was given and what the queue leads to are together the
/// entries for the differences that were taken.
pub proof fn law_history_order(
    diffs: Seq<(PathView, DiffResult)>,
    traces: Traces,
    events: Seq<HistoryEvent>,
)
    requires
        history_run(diffs, traces, events) is Some,
    ensures
        history_run(diffs, traces, events)->0.taken <= diffs.len(),
        history_run(diffs, traces, events)->0.given + outcomes(
            history_run(diffs, traces, events)->0.queue,
            traces,
        ) == all_outcomes(diffs.take(history_run(diffs, traces, events)->0.taken as int), traces),
    decreases events.len(),
{
    let after = history_run(diffs, traces, events)->0;
    if events.len() == 0 {
        assert(diffs.take(0) =~= Seq::empty());
        assert(after.given + outcomes(after.queue, traces) =~= Seq::empty());
    } else {
        law_history_order(diffs, traces, events.drop_last());
        let run = history_run(diffs, traces, events.drop_last())->0;
        let before = run.given + outcomes(run.queue, traces);
        match events.last() {
            HistoryEvent::Diff => {
                let (path, values) = diffs[run.taken as int];
                let taken = diffs.take(run.taken as int + 1);
                assert(taken.drop_last() =~= diffs.take(run.taken as int));
                assert(taken.last() == diffs[run.taken as int]);
                assert(after.given + outcomes(after.queue, traces) =~= before + outcomes(
                    queued_for(path, values),
                    traces,
                ));
            },
            HistoryEvent::Traced(index) => {
                assert(outcomes(after.queue, traces) =~= outcomes(run.queue, traces));
            },
            HistoryEvent::Emit => {
                assert(after.given + outcomes(after.queue, traces) =~= before);
            },
        }
    }
}

/// A stream that has taken all differences and has given its whole queue has
/// given the entries for all differences, in order.
pub proof fn law_history_complete(
    diffs: Seq<(PathView, DiffResult)>,
    traces: Traces,
    events: Seq<HistoryEvent>,
)
    requires
        history_run(diffs, traces, events) is Some,
        history_run(diffs, traces, events)->0.taken == diffs.len(),
        history_run(diffs, traces, events)->0.queue.len() == 0,
    ensures
        history_run(diffs, traces, events)->0.given == all_outcomes(diffs, traces),
{
    law_history_order(diffs, traces, events);
    let after = history_run(diffs, traces, events)->0;
    assert(diffs.take(diffs.len() as int) =~= diffs);
    assert(after.given + outcomes(after.queue, traces) =~= after.given);
}

} // verus!
