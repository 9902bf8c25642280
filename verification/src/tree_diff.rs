//! The differences between two merged trees.

use crate::backend::BackendError;
use crate::backend::BackendResult;
use crate::listing;
use crate::matchers::Matcher;
use crate::merge;
use crate::merge::Diff;
use crate::merge::Merge;
use crate::merged_tree;
use crate::merged_tree::MergedTree;
use crate::order;
use crate::repo_path::NameView;
use crate::repo_path::PathView;
use crate::repo_path::RepoPathBuf;
use crate::store::Store;
use crate::tree::Tree;
use crate::tree::TreeModel;
use crate::tree_entries;
use crate::tree_read;
use crate::tree_read::TreesRequest;
use crate::tree_value;
use crate::tree_value::MergedTreeValue;
use crate::tree_value::MergedValueView;
use crate::tree_value::TreeValueView;
use crate::tree_walk;
use crate::vectors;
use std::sync::Arc;
use vstd::prelude::*;

verus! {

/// The values of a difference, or why they are not known.
pub type DiffResult = Result<Diff<MergedValueView>, BackendError>;

/// The model of the values of a `TreeDiffEntry`.
pub open spec fn diff_values_view(values: BackendResult<Diff<MergedTreeValue>>) -> DiffResult {
    match values {
        Ok(diff) => Ok(diff.deep_view()),
        Err(err) => Err(err),
    }
}

/// A single entry in a tree diff.
#[derive(Debug)]
pub struct TreeDiffEntry {
    /// The path.
    pub path: RepoPathBuf,
    /// The resolved tree values if available.
    pub values: BackendResult<Diff<MergedTreeValue>>,
}

impl View for TreeDiffEntry {
    type V = (PathView, DiffResult);

    open spec fn view(&self) -> (PathView, DiffResult) {
        (self.path@, diff_values_view(self.values))
    }
}

/// Whether one side of a difference is a tree.
pub open spec fn has_tree(diff: Diff<MergedValueView>) -> bool {
    tree_value::is_tree(diff.before) || tree_value::is_tree(diff.after)
}

/// Whether neither side of a difference is present.
pub open spec fn both_absent(diff: Diff<MergedValueView>) -> bool {
    merge::is_absent(diff.before) && merge::is_absent(diff.after)
}

/// A value at a path, or nothing if it is a tree that the matcher does not visit
/// or something else that it does not select.
pub open spec fn filtered_side<M: Matcher>(
    matcher: &M,
    path: PathView,
    value: MergedValueView,
) -> MergedValueView {
    if if tree_value::is_tree(value) {
        matcher.visits(path)
    } else {
        matcher.selects(path)
    } {
        value
    } else {
        merge::absent_terms()
    }
}

/// A difference at a path, without the sides that the matcher leaves out.
pub open spec fn filtered_sides<M: Matcher>(
    matcher: &M,
    path: PathView,
    diff: Diff<MergedValueView>,
) -> Diff<MergedValueView> {
    Diff {
        before: filtered_side(matcher, path, diff.before),
        after: filtered_side(matcher, path, diff.after),
    }
}

/// The differences in a directory that the matcher leaves something of.
pub open spec fn filtered_diff<M: Matcher>(matcher: &M, dir: PathView) -> spec_fn(
    NameView,
    Diff<MergedValueView>,
) -> Option<Diff<MergedValueView>> {
    |name: NameView, diff: Diff<MergedValueView>|
        {
            let filtered = filtered_sides(matcher, dir.push(name), diff);
            if both_absent(filtered) {
                None
            } else {
                Some(filtered)
            }
        }
}

/// The differences between trees in a directory, in order, as far as the matcher
/// selects them.
pub open spec fn dir_diff<M: Matcher>(
    matcher: &M,
    dir: PathView,
    trees1: Seq<TreeModel>,
    trees2: Seq<TreeModel>,
) -> Seq<(PathView, Diff<MergedValueView>)> {
    tree_walk::in_dir(
        dir,
        listing::filter_mapped(
            listing::table(order::name_order(), tree_entries::entry_diff(trees1, trees2)),
            filtered_diff(matcher, dir),
        ),
    )
}

/// Replaces a value that the matcher leaves out by an absent one.
fn filter_side<M: Matcher>(
    matcher: &M,
    path: &RepoPathBuf,
    value: &tree_value::MergedTreeVal<'_>,
) -> (r: MergedTreeValue)
    ensures
        r@ == filtered_side(matcher, path@, value@),
{
    let matches = if value.is_tree() {
        !matcher.visit(path).is_nothing()
    } else {
        matcher.matches(path)
    };
    if matches {
        value.cloned()
    } else {
        let r = Merge::absent();
        assert(r@ =~= merge::absent_terms::<TreeValueView>());
        r
    }
}

/// The differences between trees in a directory, as far as the matcher selects
/// them.
pub(crate) fn diff_entries<M: Matcher>(
    dir: &RepoPathBuf,
    trees1: &Merge<Tree>,
    trees2: &Merge<Tree>,
    matcher: &M,
) -> (r: Vec<(RepoPathBuf, Diff<MergedTreeValue>)>)
    ensures
        r.deep_view() == dir_diff(matcher, dir@, trees1@, trees2@),
        forall|i: int| 0 <= i < r.len() ==> !both_absent((#[trigger] r@[i]).1.deep_view()),
{
    let entries = tree_entries::merged_tree_entry_diff(trees1, trees2);
    let n = entries.len();
    let ghost listed = entries.deep_view();
    let ghost keep = filtered_diff(matcher, dir@);
    let mut out: Vec<(RepoPathBuf, Diff<MergedTreeValue>)> = Vec::new();
    proof {
        order::lemma_name_order();
        listing::lemma_table(
            order::name_order(),
            listed,
            tree_entries::entry_diff(trees1@, trees2@),
        );
        assert(out.deep_view() =~= tree_walk::in_dir(
            dir@,
            listing::filter_mapped(listed.take(0), keep),
        ));
    }
    for i in 0..n
        invariant
            n == entries.len(),
            listed == entries.deep_view(),
            keep == filtered_diff(matcher, dir@),
            out.deep_view() == tree_walk::in_dir(
                dir@,
                listing::filter_mapped(listed.take(i as int), keep),
            ),
            forall|j: int|
                0 <= j < out.len() ==> !both_absent((#[trigger] out@[j]).1.deep_view()),
    {
        let (name, diff) = &entries[i];
        let path = dir.join(name);
        proof {
            assert(listed[i as int] == (name@, diff.deep_view()));
            listing::lemma_filter_mapped_next(listed, keep, i as int);
        }
        // Replace trees or files that don't match by `Merge::absent()`
        let before = filter_side(matcher, &path, &diff.before);
        let after = filter_side(matcher, &path, &diff.after);
        let ghost start = out.deep_view();
        if before.is_present() || after.is_present() {
            let filtered = Diff::new(before, after);
            assert(filtered.deep_view() == filtered_sides(matcher, path@, diff.deep_view()));
            assert(!both_absent(filtered.deep_view()));
            out.push((path, filtered));
            assert(out.deep_view() =~= start.push((dir@.push(name@), filtered.deep_view())));
        } else {
            assert(both_absent(filtered_sides(matcher, path@, diff.deep_view())));
        }
        assert(out.deep_view() =~= tree_walk::in_dir(
            dir@,
            listing::filter_mapped(listed.take(i + 1), keep),
        ));
    }
    assert(listed.take(n as int) =~= listed);
    out
}

/// The model of a walk over differences.
#[verifier::ext_equal]
pub ghost struct DiffWalkModel {
    /// The store of the trees.
    pub store: Store,
    /// What is still to be visited, in order.
    pub todo: Seq<(PathView, Diff<MergedValueView>)>,
    /// The difference whose trees are being read, if any.
    pub reading: Option<(PathView, Diff<MergedValueView>)>,
}

/// What a walk over differences gives or needs next.
#[derive(Debug)]
pub enum TreeDiffStep {
    /// The next difference.
    Entry(TreeDiffEntry),
    /// The trees on both sides have to be read to go on.
    Read(TreesRequest, TreesRequest),
    /// There are no more differences.
    Done,
}

/// Iterator over the differences between two trees.
pub struct TreeDiffIterator<'matcher, M: Matcher> {
    store: Arc<Store>,
    // The next one is at the end.
    stack: Vec<(RepoPathBuf, Diff<MergedTreeValue>)>,
    reading: Option<(RepoPathBuf, Diff<MergedTreeValue>)>,
    matcher: &'matcher M,
}

impl<'matcher, M: Matcher> View for TreeDiffIterator<'matcher, M> {
    type V = DiffWalkModel;

    closed spec fn view(&self) -> DiffWalkModel {
        DiffWalkModel {
            store: *self.store,
            todo: self.stack.deep_view().reverse(),
            reading: self.reading.deep_view(),
        }
    }
}

/// The difference between the root directories of two trees.
pub open spec fn root_diff(ids1: Seq<Seq<u8>>, ids2: Seq<Seq<u8>>) -> Diff<MergedValueView> {
    Diff { before: merged_tree::root_value(ids1), after: merged_tree::root_value(ids2) }
}

/// Where a walk over differences begins: at the root directory, if that differs
/// and the matcher visits it.
pub open spec fn diff_start<M: Matcher>(
    matcher: &M,
    store: Store,
    ids1: Seq<Seq<u8>>,
    ids2: Seq<Seq<u8>>,
) -> DiffWalkModel {
    let diff = root_diff(ids1, ids2);
    DiffWalkModel {
        store,
        todo: if diff.before != diff.after && matcher.visits(PathView::empty()) {
            seq![(PathView::empty(), diff)]
        } else {
            Seq::empty()
        },
        reading: None,
    }
}

/// Whether a difference is shown at its path, and not only visited.
pub open spec fn visible<M: Matcher>(
    matcher: &M,
    path: PathView,
    diff: Diff<MergedValueView>,
) -> bool {
    tree_value::is_file_like(diff.before) || tree_value::is_file_like(diff.after)
        || matcher.selects(path)
}

impl<'matcher, M: Matcher> TreeDiffIterator<'matcher, M> {
    #[verifier::type_invariant]
    spec fn type_inv(self) -> bool {
        forall|i: int|
            0 <= i < self.stack@.len() ==> !both_absent((#[trigger] self.stack@[i]).1.deep_view())
    }

    /// The matcher of this walk.
    pub closed spec fn selection(self) -> M {
        *self.matcher
    }

    /// Creates a iterator over the differences between two trees.
    pub fn new(tree1: &MergedTree, tree2: &MergedTree, matcher: &'matcher M) -> (r: Self)
        requires
            tree1@.store == tree2@.store,
        ensures
            r@ == diff_start(matcher, tree1@.store, tree1@.ids, tree2@.ids),
            r.selection() == *matcher,
    {
        let root_dir = RepoPathBuf::root();
        let mut stack: Vec<(RepoPathBuf, Diff<MergedTreeValue>)> = Vec::new();
        let root_diff = Diff::new(tree1.to_merged_tree_value(), tree2.to_merged_tree_value());
        if root_diff.is_changed() && !matcher.visit(&root_dir).is_nothing() {
            stack.push((root_dir, root_diff));
        }
        let r = TreeDiffIterator { store: tree1.store().clone(), stack, reading: None, matcher };
        assert(r@.todo =~= diff_start(matcher, tree1@.store, tree1@.ids, tree2@.ids).todo);
        r
    }

    /// The store of the trees.
    pub fn store(&self) -> (r: &Arc<Store>)
        ensures
            **r == self@.store,
    {
        &self.store
    }

    /// The next difference, or the trees that have to be read to get to it.
    pub fn next(&mut self) -> (r: TreeDiffStep)
        requires
            old(self)@.reading is None,
        ensures
            final(self).selection() == old(self).selection(),
            match r {
                TreeDiffStep::Entry(entry) => {
                    &&& old(self)@.todo.len() > 0
                    &&& !has_tree(old(self)@.todo[0].1)
                    &&& entry@ == (
                        old(self)@.todo[0].0,
                        Ok::<Diff<MergedValueView>, BackendError>(old(self)@.todo[0].1),
                    )
                    &&& final(self)@ == (DiffWalkModel {
                        todo: old(self)@.todo.drop_first(),
                        ..old(self)@
                    })
                },
                TreeDiffStep::Read(before, after) => {
                    &&& old(self)@.todo.len() > 0
                    &&& has_tree(old(self)@.todo[0].1)
                    &&& before@ == tree_read::side_request_of(
                        old(self)@.todo[0].0,
                        old(self)@.todo[0].1.before,
                    )
                    &&& after@ == tree_read::side_request_of(
                        old(self)@.todo[0].0,
                        old(self)@.todo[0].1.after,
                    )
                    &&& final(self)@ == (DiffWalkModel {
                        todo: old(self)@.todo.drop_first(),
                        reading: Some(old(self)@.todo[0]),
                        ..old(self)@
                    })
                },
                TreeDiffStep::Done => {
                    &&& old(self)@.todo.len() == 0
                    &&& final(self)@ == old(self)@
                },
            },
    {
        proof {
            use_type_invariant(&*self);
        }
        let mut stack: Vec<(RepoPathBuf, Diff<MergedTreeValue>)> = Vec::new();
        std::mem::swap(&mut stack, &mut self.stack);
        let ghost before = stack@;
        let top = stack.pop();
        self.stack = stack;
        match top {
            None => {
                assert(self@.todo =~= old(self)@.todo);
                TreeDiffStep::Done
            },
            Some((path, diff)) => {
                proof {
                    assert(before.last().0@ == path@ && before.last().1.deep_view()
                        == diff.deep_view());
                    assert(self@.todo =~= old(self)@.todo.drop_first());
                    assert(!both_absent(diff.deep_view()));
                }
                if diff.before.is_tree() || diff.after.is_tree() {
                    let before = TreesRequest::for_side(&path, &diff.before);
                    let after = TreesRequest::for_side(&path, &diff.after);
                    self.reading = Some((path, diff));
                    assert(self@.todo =~= old(self)@.todo.drop_first());
                    TreeDiffStep::Read(before, after)
                } else {
                    TreeDiffStep::Entry(TreeDiffEntry { path, values: Ok(diff) })
                }
            },
        }
    }

    /// Goes on with the trees that were asked for. Returns the difference at
    /// their directory if it is shown, or the error if they could not be read.
    pub fn resume(
        &mut self,
        before: BackendResult<Merge<Tree>>,
        after: BackendResult<Merge<Tree>>,
    ) -> (r: Option<TreeDiffEntry>)
        requires
            old(self)@.reading is Some,
        ensures
            final(self).selection() == old(self).selection(),
            ({
                let (path, diff) = old(self)@.reading->0;
                match (before, after) {
                    (Ok(trees1), Ok(trees2)) => {
                        &&& final(self)@ == (DiffWalkModel {
                            todo: dir_diff(&old(self).selection(), path, trees1@, trees2@)
                                + old(self)@.todo,
                            reading: None,
                            ..old(self)@
                        })
                        &&& match r {
                            Some(entry) => {
                                &&& visible(&old(self).selection(), path, diff)
                                &&& entry@ == (
                                    path,
                                    Ok::<Diff<MergedValueView>, BackendError>(diff),
                                )
                            },
                            None => !visible(&old(self).selection(), path, diff),
                        }
                    },
                    (Err(err), _) => {
                        &&& r matches Some(entry) && entry@ == (
                            path,
                            Err::<Diff<MergedValueView>, BackendError>(err),
                        )
                        &&& final(self)@ == (DiffWalkModel { reading: None, ..old(self)@ })
                    },
                    (_, Err(err)) => {
                        &&& r matches Some(entry) && entry@ == (
                            path,
                            Err::<Diff<MergedValueView>, BackendError>(err),
                        )
                        &&& final(self)@ == (DiffWalkModel { reading: None, ..old(self)@ })
                    },
                }
            }),
    {
        proof {
            use_type_invariant(&*self);
        }
        let mut reading = None;
        std::mem::swap(&mut reading, &mut self.reading);
        let (path, diff) = match reading {
            Some(reading) => reading,
            None => {
                assert(false);
                return None;
            },
        };
        match (before, after) {
            (Ok(trees1), Ok(trees2)) => {
                let entries = diff_entries(&path, &trees1, &trees2, self.matcher);
                let mut added = vectors::reversed(entries);
                assert(added.deep_view() =~= entries.deep_view().reverse());
                let mut stack: Vec<(RepoPathBuf, Diff<MergedTreeValue>)> = Vec::new();
                std::mem::swap(&mut stack, &mut self.stack);
                let ghost below = stack.deep_view();
                let ghost above = added.deep_view();
                let ghost below_items = stack@;
                let ghost above_items = added@;
                stack.append(&mut added);
                proof {
                    assert(stack.deep_view() =~= below + above);
                    assert forall|i: int| 0 <= i < stack@.len() implies !both_absent(
                        (#[trigger] stack@[i]).1.deep_view(),
                    ) by {
                        if i < below_items.len() {
                            assert(stack@[i] == below_items[i]);
                        } else {
                            let j = i - below_items.len();
                            assert(stack@[i] == above_items[j]);
                            assert(above_items[j] == entries@[entries@.len() - 1 - j]);
                        }
                    }
                }
                self.stack = stack;
                assert(self@.todo =~= entries.deep_view() + below.reverse());
                if diff.before.is_file_like() || diff.after.is_file_like() || self.matcher.matches(
                    &path,
                ) {
                    Some(TreeDiffEntry { path, values: Ok(diff) })
                } else {
                    None
                }
            },
            (Err(err), _) => Some(TreeDiffEntry { path, values: Err(err) }),
            (_, Err(err)) => Some(TreeDiffEntry { path, values: Err(err) }),
        }
    }
}

} // verus!
