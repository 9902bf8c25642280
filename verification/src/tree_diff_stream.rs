//! The differences between two merged trees, with several trees read at once.

use crate::backend::BackendError;
use crate::backend::BackendResult;
use crate::matchers::Matcher;
use crate::merge::Diff;
use crate::merge::Merge;
use crate::merged_tree::MergedTree;
use crate::order;
use crate::path_map;
use crate::path_map::PathMap;
use crate::repo_path::PathView;
use crate::repo_path::RepoPathBuf;
use crate::store::Store;
use crate::tree::Tree;
use crate::tree::TreeModel;
use crate::tree_diff;
use crate::tree_diff::DiffResult;
use crate::tree_diff::TreeDiffEntry;
use crate::tree_diff::TreeDiffIterator;
use crate::tree_read;
use crate::tree_read::TreesRequest;
use crate::tree_value;
use crate::tree_value::MergedTreeValue;
use crate::tree_value::MergedValueView;
use crate::value::Value;
use crate::vectors;
use std::sync::Arc;
use vstd::prelude::*;

verus! {

/// The map with `f` applied to its values.
pub open spec fn mapped<V, W>(m: Map<PathView, V>, f: spec_fn(V) -> W) -> Map<PathView, W> {
    Map::new(|p: PathView| m.dom().contains(p), |p: PathView| f(m[p]))
}

/// The trees on both sides of a difference, or why they are not known.
pub type TreePairResult = Result<(Seq<TreeModel>, Seq<TreeModel>), BackendError>;

/// The model of a stream of differences.
#[verifier::ext_equal]
pub ghost struct DiffStreamModel {
    /// The store of the trees.
    pub store: Store,
    /// The differences that have been found and not yet emitted.
    pub items: Map<PathView, DiffResult>,
    /// The differences whose trees have to be read.
    pub pending: Map<PathView, Diff<MergedValueView>>,
    /// The maximum number of trees to request concurrently.
    pub max_concurrent_reads: usize,
    /// The number of items from which on no more trees are requested.
    pub max_queued_items: usize,
}

/// A stream that has not read anything yet.
pub open spec fn stream_start<M: Matcher>(
    matcher: &M,
    store: Store,
    ids1: Seq<Seq<u8>>,
    ids2: Seq<Seq<u8>>,
    max_concurrent_reads: usize,
) -> DiffStreamModel {
    let root = PathView::empty();
    let diff = tree_diff::root_diff(ids1, ids2);
    DiffStreamModel {
        store,
        items: if diff.before != diff.after && matcher.selects(root) {
            Map::empty().insert(root, Ok(diff))
        } else {
            Map::empty()
        },
        pending: Map::empty().insert(root, diff),
        max_concurrent_reads,
        max_queued_items: 10000,
    }
}

/// A stream with more differences: those that have a tree on one side are
/// pending, and those that the matcher selects are to be emitted.
pub open spec fn with_diffs<M: Matcher>(
    matcher: &M,
    model: DiffStreamModel,
    diffs: Seq<(PathView, Diff<MergedValueView>)>,
) -> DiffStreamModel
    decreases diffs.len(),
{
    if diffs.len() == 0 {
        model
    } else {
        let rest = with_diffs(matcher, model, diffs.drop_last());
        let (path, diff) = diffs.last();
        DiffStreamModel {
            pending: if tree_diff::has_tree(diff) {
                rest.pending.insert(path, diff)
            } else {
                rest.pending
            },
            items: if matcher.selects(path) {
                rest.items.insert(path, Ok(diff))
            } else {
                rest.items
            },
            ..rest
        }
    }
}

/// A stream once the trees at `dir` have been read.
pub open spec fn with_trees<M: Matcher>(
    matcher: &M,
    model: DiffStreamModel,
    dir: PathView,
    trees: TreePairResult,
) -> DiffStreamModel {
    let rest = DiffStreamModel { pending: model.pending.remove(dir), ..model };
    match trees {
        Ok((trees1, trees2)) => with_diffs(
            matcher,
            rest,
            tree_diff::dir_diff(matcher, dir, trees1, trees2),
        ),
        Err(err) => DiffStreamModel { items: rest.items.insert(dir, Err(err)), ..rest },
    }
}

/// A directory whose trees were polled, and what came back, if they were ready.
pub type PolledView = (PathView, Option<TreePairResult>);

/// A stream once the trees of some directories have been polled.
pub open spec fn with_polled<M: Matcher>(
    matcher: &M,
    model: DiffStreamModel,
    polled: Seq<PolledView>,
) -> DiffStreamModel
    decreases polled.len(),
{
    if polled.len() == 0 {
        model
    } else {
        let rest = with_polled(matcher, model, polled.drop_last());
        match polled.last() {
            (dir, Some(trees)) => with_trees(matcher, rest, dir, trees),
            (_, None) => rest,
        }
    }
}

/// Trees that have to be read for both sides of a difference.
#[derive(Debug)]
pub struct PendingTrees {
    /// The directory.
    pub dir: RepoPathBuf,
    /// The trees on the "before" side.
    pub before: TreesRequest,
    /// The trees on the "after" side.
    pub after: TreesRequest,
}

/// A directory whose trees were polled, and what came back, if they were ready.
pub type PolledTrees = (RepoPathBuf, Option<BackendResult<(Merge<Tree>, Merge<Tree>)>>);

/// The model of what came back from polling.
pub open spec fn polled_view(polled: Seq<PolledTrees>) -> Seq<PolledView> {
    Seq::new(
        polled.len(),
        |i: int|
            (
                polled[i].0@,
                match polled[i].1 {
                    Some(Ok((trees1, trees2))) => Some(Ok((trees1@, trees2@))),
                    Some(Err(err)) => Some(Err(err)),
                    None => None,
                },
            ),
    )
}

/// Whether some directory was not ready when it was polled.
pub open spec fn some_pending(polled: Seq<PolledView>) -> bool {
    exists|i: int| 0 <= i < polled.len() && (#[trigger] polled[i]).1 is None
}

/// Whether no directory was ready when it was polled.
pub open spec fn all_pending(polled: Seq<PolledView>) -> bool {
    forall|i: int| 0 <= i < polled.len() ==> (#[trigger] polled[i]).1 is None
}

/// What a stream gives next.
#[derive(Debug)]
pub enum TreeDiffPoll {
    /// The next difference.
    Entry(TreeDiffEntry),
    /// Trees have to be read first.
    Pending,
    /// There are no more differences.
    Done,
}

/// Stream of differences between two trees.
pub struct TreeDiffStreamImpl<'matcher, M: Matcher> {
    store: Arc<Store>,
    matcher: &'matcher M,
    /// Pairs of tree values that may or may not be ready to emit, sorted in the
    /// order we want to emit them. If either side is a tree, there will be
    /// a corresponding entry in `pending_trees`. The item is ready to emit
    /// unless there's a smaller or equal path in `pending_trees`.
    items: PathMap<BackendResult<Diff<MergedTreeValue>>>,
    pending_trees: PathMap<Diff<MergedTreeValue>>,
    /// The maximum number of trees to request concurrently. However, we do the
    /// accounting per path, so there will often be twice as many pending
    /// tree reads - for the "before" and "after" sides. For
    /// conflicts, there will be even more.
    max_concurrent_reads: usize,
    /// The maximum number of items in `items`. However, we will always add the
    /// full differences from a particular pair of trees, so it may temporarily
    /// go over the limit (until we emit those items). It may also go over the
    /// limit because we have a file item that's blocked by pending subdirectory
    /// items.
    max_queued_items: usize,
}

impl<'matcher, M: Matcher> View for TreeDiffStreamImpl<'matcher, M> {
    type V = DiffStreamModel;

    closed spec fn view(&self) -> DiffStreamModel {
        DiffStreamModel {
            store: *self.store,
            items: mapped(
                self.items@,
                |v: BackendResult<Diff<MergedTreeValue>>| tree_diff::diff_values_view(v),
            ),
            pending: mapped(self.pending_trees@, |v: Diff<MergedTreeValue>| v.deep_view()),
            max_concurrent_reads: self.max_concurrent_reads,
            max_queued_items: self.max_queued_items,
        }
    }
}

impl<'matcher, M: Matcher> TreeDiffStreamImpl<'matcher, M> {
    /// The matcher of this stream.
    pub closed spec fn selection(self) -> M {
        *self.matcher
    }

    /// Creates a iterator over the differences between two trees. Generally
    /// prefer `MergedTree::diff_stream()` of calling this directly.
    pub fn new(
        tree1: &MergedTree,
        tree2: &MergedTree,
        matcher: &'matcher M,
        max_concurrent_reads: usize,
    ) -> (r: Self)
        requires
            tree1@.store == tree2@.store,
        ensures
            r@ == stream_start(
                matcher,
                tree1@.store,
                tree1@.ids,
                tree2@.ids,
                max_concurrent_reads,
            ),
            r.selection() == *matcher,
    {
        let dir = RepoPathBuf::root();
        let root_diff = Diff::new(tree1.to_merged_tree_value(), tree2.to_merged_tree_value());
        let mut items: PathMap<BackendResult<Diff<MergedTreeValue>>> = PathMap::new();
        if root_diff.is_changed() && matcher.matches(&dir) {
            items.insert(dir.clone(), Ok(root_diff.dup()));
        }
        let mut pending_trees: PathMap<Diff<MergedTreeValue>> = PathMap::new();
        pending_trees.insert(dir, root_diff);
        let r = TreeDiffStreamImpl {
            store: tree1.store().clone(),
            matcher,
            items,
            pending_trees,
            max_concurrent_reads,
            max_queued_items: 10000,
        };
        proof {
            let start = stream_start(
                matcher,
                tree1@.store,
                tree1@.ids,
                tree2@.ids,
                max_concurrent_reads,
            );
            assert(r@.items =~= start.items);
            assert(r@.pending =~= start.pending);
        }
        r
    }

    /// The store of the trees.
    pub fn store(&self) -> (r: &Arc<Store>)
        ensures
            **r == self@.store,
    {
        &self.store
    }

    /// The trees to poll: those of the first pending directories.
    pub fn trees_to_poll(&self) -> (r: Vec<PendingTrees>)
        ensures
            self@.pending.dom().finite(),
            r.len() == (if self@.pending.dom().len() <= self@.max_concurrent_reads {
                self@.pending.dom().len()
            } else {
                self@.max_concurrent_reads as nat
            }),
            forall|i: int|
                0 <= i < r.len() ==> {
                    &&& self@.pending.dom().contains((#[trigger] r@[i]).dir@)
                    &&& r@[i].before@ == tree_read::side_request_of(
                        r@[i].dir@,
                        self@.pending[r@[i].dir@].before,
                    )
                    &&& r@[i].after@ == tree_read::side_request_of(
                        r@[i].dir@,
                        self@.pending[r@[i].dir@].after,
                    )
                },
            forall|i: int, j: int|
                0 <= i < j < r.len() ==> order::path_less(
                    (#[trigger] r@[i]).dir@,
                    (#[trigger] r@[j]).dir@,
                ),
            forall|i: int, p: PathView|
                0 <= i < r.len() && #[trigger] self@.pending.dom().contains(p) && !(exists|j: int|
                    0 <= j < r.len() && (#[trigger] r@[j]).dir@ == p) ==> order::path_less(
                    (#[trigger] r@[i]).dir@,
                    p,
                ),
    {
        let total = self.pending_trees.len();
        let n = if total <= self.max_concurrent_reads {
            total
        } else {
            self.max_concurrent_reads
        };
        let ghost listed = self.pending_trees.listing();
        let ghost less = order::path_order();
        let mut r: Vec<PendingTrees> = Vec::new();
        proof {
            assert(self@.pending.dom() =~= self.pending_trees@.dom());
            order::lemma_path_order();
        }
        for i in 0..n
            invariant
                n <= total,
                total == listed.len(),
                listed == self.pending_trees.listing(),
                crate::listing::sorted_by(order::path_order(), listed),
                order::strict_total_order(order::path_order()),
                r.len() == i,
                forall|j: int|
                    0 <= j < i ==> {
                        &&& (#[trigger] r@[j]).dir@ == listed[j].0
                        &&& self@.pending.dom().contains(r@[j].dir@)
                        &&& r@[j].before@ == tree_read::side_request_of(
                            r@[j].dir@,
                            self@.pending[r@[j].dir@].before,
                        )
                        &&& r@[j].after@ == tree_read::side_request_of(
                            r@[j].dir@,
                            self@.pending[r@[j].dir@].after,
                        )
                    },
        {
            let (dir, diff) = self.pending_trees.get_index(i);
            proof {
                crate::listing::lemma_lookup_at(order::path_order(), listed, i as int);
                assert(self.pending_trees@.dom().contains(dir@));
                assert(self.pending_trees@[dir@] == *diff);
            }
            r.push(
                PendingTrees {
                    dir: dir.clone(),
                    before: TreesRequest::for_side(dir, &diff.before),
                    after: TreesRequest::for_side(dir, &diff.after),
                },
            );
        }
        proof {
            assert forall|i: int, j: int| 0 <= i < j < r.len() implies order::path_less(
                (#[trigger] r@[i]).dir@,
                (#[trigger] r@[j]).dir@,
            ) by {
                assert(less(listed[i].0, listed[j].0));
            }
            assert forall|i: int, p: PathView|
                0 <= i < r.len() && #[trigger] self@.pending.dom().contains(p) && !(exists|j: int|
                    0 <= j < r.len() && (#[trigger] r@[j]).dir@ == p) implies order::path_less(
                (#[trigger] r@[i]).dir@,
                p,
            ) by {
                let k = crate::listing::lemma_lookup_some(listed, p);
                if k < n {
                    assert(r@[k].dir@ == p);
                }
                assert(less(listed[i].0, listed[k].0));
            }
        }
        r
    }

    fn add_dir_diff_items(&mut self, dir: &RepoPathBuf, trees1: &Merge<Tree>, trees2: &Merge<Tree>)
        ensures
            final(self).selection() == old(self).selection(),
            final(self)@ == with_diffs(
                &old(self).selection(),
                old(self)@,
                tree_diff::dir_diff(&old(self).selection(), dir@, trees1@, trees2@),
            ),
    {
        let entries = tree_diff::diff_entries(dir, trees1, trees2, self.matcher);
        let n = entries.len();
        let ghost diffs = entries.deep_view();
        let ghost matcher = self.selection();
        let ghost start = self@;
        assert(diffs.take(0) =~= Seq::empty());
        for i in 0..n
            invariant
                n == entries.len(),
                diffs == entries.deep_view(),
                self.selection() == matcher,
                self@ == with_diffs(&matcher, start, diffs.take(i as int)),
        {
            let (path, diff) = &entries[i];
            let ghost before = self@;
            proof {
                assert(diffs[i as int] == (path@, diff.deep_view()));
                assert(diffs.take(i + 1).drop_last() =~= diffs.take(i as int));
                assert(diffs.take(i + 1).last() == diffs[i as int]);
            }
            // If the path was a tree on either side of the diff, read those trees.
            if diff.before.is_tree() || diff.after.is_tree() {
                self.pending_trees.insert(path.clone(), diff.dup());
                assert(self@.pending =~= before.pending.insert(path@, diff.deep_view()));
            }
            let ghost between = self@;
            if self.matcher.matches(path) {
                self.items.insert(path.clone(), Ok(diff.dup()));
                assert(self@.items =~= between.items.insert(path@, Ok(diff.deep_view())));
            }
            assert(self@ =~= with_diffs(&matcher, start, diffs.take(i + 1)));
        }
        assert(diffs.take(n as int) =~= diffs);
    }

    fn add_trees(&mut self, dir: RepoPathBuf, trees: BackendResult<(Merge<Tree>, Merge<Tree>)>)
        ensures
            final(self).selection() == old(self).selection(),
            final(self)@ == with_trees(
                &old(self).selection(),
                old(self)@,
                dir@,
                match trees {
                    Ok((trees1, trees2)) => Ok((trees1@, trees2@)),
                    Err(err) => Err(err),
                },
            ),
    {
        let ghost before = self@;
        let removed = self.pending_trees.remove(&dir);
        assert(self@.pending =~= before.pending.remove(dir@));
        let ghost rest = self@;
        match trees {
            Ok((trees1, trees2)) => {
                self.add_dir_diff_items(&dir, &trees1, &trees2);
            },
            Err(err) => {
                let ghost at = dir@;
                self.items.insert(dir, Err(err));
                assert(self@.items =~= rest.items.insert(at, Err(err)));
            },
        }
    }

    /// Takes in what came back when the trees of the first pending directories
    /// were polled. Returns whether to poll again, which must be done unless some
    /// directory was not ready.
    pub fn poll_tree_futures(&mut self, polled: Vec<PolledTrees>) -> (again: bool)
        ensures
            final(self).selection() == old(self).selection(),
            final(self)@ == with_polled(&old(self).selection(), old(self)@, polled_view(polled@)),
            again == !(all_pending(polled_view(polled@)) || (some_pending(polled_view(polled@))
                && final(self)@.items.dom().len() >= final(self)@.max_queued_items)),
    {
        let n = polled.len();
        let ghost given = polled@;
        let ghost all = polled_view(polled@);
        let ghost matcher = self.selection();
        let ghost start = self@;
        let mut rest = vectors::reversed(polled);
        let mut some_pending = false;
        let mut all_pending = true;
        assert(given.skip(0) =~= given);
        assert(all.take(0) =~= Seq::empty());
        for i in 0..n
            invariant
                n == given.len(),
                all == polled_view(given),
                rest@ == given.skip(i as int).reverse(),
                self.selection() == matcher,
                self@ == with_polled(&matcher, start, all.take(i as int)),
                some_pending == self::some_pending(all.take(i as int)),
                all_pending == self::all_pending(all.take(i as int)),
        {
            let ghost before = rest@;
            assert(before.len() > 0);
            let next = rest.pop();
            proof {
                assert(next == Some(given[i as int]));
                assert(rest@ =~= given.skip(i + 1).reverse());
                assert(all.take(i + 1).drop_last() =~= all.take(i as int));
                assert(all.take(i + 1).last() == all[i as int]);
                let seen = all.take(i + 1);
                assert forall|j: int| 0 <= j < i implies seen[j] == #[trigger] all.take(
                    i as int,
                )[j] by {}
                assert(seen[i as int] == all[i as int]);
                if self::some_pending(all.take(i as int)) {
                    let j = choose|j: int|
                        0 <= j < i && (#[trigger] all.take(i as int)[j]).1 is None;
                    assert(seen[j].1 is None);
                }
                if self::some_pending(seen) && all[i as int].1 is Some {
                    let j = choose|j: int| 0 <= j < i + 1 && (#[trigger] seen[j]).1 is None;
                    assert(all.take(i as int)[j].1 is None);
                }
                if self::all_pending(seen) {
                    assert forall|j: int| 0 <= j < i implies (#[trigger] all.take(
                        i as int,
                    )[j]).1 is None by {
                        assert(seen[j].1 is None);
                    }
                }
            }
            match next {
                Some((dir, Some(trees))) => {
                    all_pending = false;
                    self.add_trees(dir, trees);
                },
                Some((_, None)) => {
                    some_pending = true;
                },
                None => {},
            }
        }
        proof {
            assert(all.take(n as int) =~= all);
            assert(self@.items.dom() =~= self.items@.dom());
        }
        let queued = self.items.len();
        // If none of the trees have been polled and were not ready, we must
        // not stop. If we did, nothing would wake us up so we might never get
        // polled again.
        !(all_pending || (some_pending && queued >= self.max_queued_items))
    }

    /// Emits the first item, unless trees have to be read first that may hold
    /// something before it.
    pub fn poll_next(&mut self) -> (r: TreeDiffPoll)
        ensures
            final(self).selection() == old(self).selection(),
            match r {
                TreeDiffPoll::Entry(entry) => {
                    let (path, values) = entry@;
                    &&& path_map::is_first_path(old(self)@.items.dom(), path)
                    &&& values == old(self)@.items[path]
                    &&& forall|dir: PathView| #[trigger]
                        old(self)@.pending.dom().contains(dir) ==> order::path_less(path, dir)
                    &&& final(self)@ == (DiffStreamModel {
                        items: old(self)@.items.remove(path),
                        ..old(self)@
                    })
                },
                TreeDiffPoll::Pending => {
                    &&& final(self)@ == old(self)@
                    &&& exists|dir: PathView|
                        {
                            &&& #[trigger] old(self)@.pending.dom().contains(dir)
                            &&& forall|path: PathView| #[trigger]
                                old(self)@.items.dom().contains(path) ==> !order::path_less(
                                    path,
                                    dir,
                                )
                        }
                },
                TreeDiffPoll::Done => {
                    &&& final(self)@ == old(self)@
                    &&& old(self)@.items == Map::<PathView, DiffResult>::empty()
                    &&& old(self)@.pending == Map::<PathView, Diff<MergedValueView>>::empty()
                },
            },
    {
        proof {
            assert(self@.items.dom() =~= self.items@.dom());
            assert(self@.pending.dom() =~= self.pending_trees@.dom());
            if self.items@ == Map::<PathView, BackendResult<Diff<MergedTreeValue>>>::empty() {
                assert(self@.items =~= Map::empty());
            }
            if self.pending_trees@ == Map::<PathView, Diff<MergedTreeValue>>::empty() {
                assert(self@.pending =~= Map::empty());
            }
        }
        if let Some((path, _)) = self.items.first_key_value() {
            // Check if there are any pending trees before this item that we need to finish
            // polling before we can emit this item.
            if let Some((dir, _)) = self.pending_trees.first_key_value() {
                if !path.is_before(dir) {
                    proof {
                        let (p, d) = (path@, dir@);
                        assert(self@.pending.dom().contains(d));
                        assert forall|other: PathView| #[trigger]
                            self@.items.dom().contains(other) implies !order::path_less(
                            other,
                            d,
                        ) by {
                            assert(self.items@.dom().contains(other));
                            order::lemma_paths(p, other, d);
                        }
                    }
                    return TreeDiffPoll::Pending;
                }
                proof {
                    let (p, d) = (path@, dir@);
                    assert forall|other: PathView| #[trigger]
                        self@.pending.dom().contains(other) implies order::path_less(p, other) by {
                        assert(self.pending_trees@.dom().contains(other));
                        order::lemma_paths(p, d, other);
                    }
                }
            }
            let ghost first = path@;
            let ghost before = self.items@;
            let popped = self.items.pop_first();
            match popped {
                Some((path, values)) => {
                    proof {
                        assert(path_map::is_first_path(before.dom(), first));
                        order::lemma_paths(first, path@, first);
                        assert(before.dom().contains(path@));
                        assert(first == path@);
                        assert(self@.items =~= old(self)@.items.remove(path@));
                    }
                    TreeDiffPoll::Entry(TreeDiffEntry { path, values })
                },
                None => {
                    assert(false);
                    TreeDiffPoll::Done
                },
            }
        } else if self.pending_trees.is_empty() {
            TreeDiffPoll::Done
        } else {
            proof {
                if forall|d: PathView| !self.pending_trees@.dom().contains(d) {
                    assert(self.pending_trees@ =~= Map::empty());
                }
                let d = choose|d: PathView| self.pending_trees@.dom().contains(d);
                assert(self@.pending.dom().contains(d));
            }
            TreeDiffPoll::Pending
        }
    }
}

/// Gives the differences between two trees, with one tree read at a time or with
/// several.
pub enum TreeDiffSource<'matcher, M: Matcher> {
    /// Reads one tree at a time.
    Iterator(TreeDiffIterator<'matcher, M>),
    /// Reads several trees at once.
    Stream(TreeDiffStreamImpl<'matcher, M>),
}

impl MergedTree {
    /// The differences between this tree and another tree. Trees with diffs
    /// themselves are also included.
    pub fn diff_stream_with_trees<'matcher, M: Matcher>(
        &self,
        other: &Self,
        matcher: &'matcher M,
    ) -> (r: TreeDiffSource<'matcher, M>)
        requires
            self@.store == other@.store,
        ensures
            match r {
                TreeDiffSource::Iterator(iterator) => {
                    &&& self@.store.parallel_reads() <= 1
                    &&& iterator@ == tree_diff::diff_start(
                        matcher,
                        self@.store,
                        self@.ids,
                        other@.ids,
                    )
                    &&& iterator.selection() == *matcher
                },
                TreeDiffSource::Stream(stream) => {
                    &&& self@.store.parallel_reads() > 1
                    &&& stream@ == stream_start(
                        matcher,
                        self@.store,
                        self@.ids,
                        other@.ids,
                        self@.store.parallel_reads(),
                    )
                    &&& stream.selection() == *matcher
                },
            },
    {
        let concurrency = self.store().concurrency();
        if concurrency <= 1 {
            TreeDiffSource::Iterator(TreeDiffIterator::new(self, other, matcher))
        } else {
            TreeDiffSource::Stream(TreeDiffStreamImpl::new(self, other, matcher, concurrency))
        }
    }
}

} // verus!
