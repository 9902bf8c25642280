//! Walking the entries and the conflicts of a merged tree.

use crate::backend::BackendError;
use crate::backend::BackendResult;
use crate::listing;
use crate::matchers::EverythingMatcher;
use crate::matchers::Matcher;
use crate::merge::Merge;
use crate::merged_tree;
use crate::merged_tree::MergedTree;
use crate::order;
use crate::repo_path::NameView;
use crate::repo_path::PathView;
use crate::repo_path::RepoPathBuf;
use crate::store::Store;
use crate::tree;
use crate::tree::Tree;
use crate::tree::TreeModel;
use crate::tree_entries;
use crate::tree_read;
use crate::tree_read::TreesRequest;
use crate::tree_value;
use crate::tree_value::MergedTreeValue;
use crate::tree_value::MergedValueView;
use crate::vectors;
use std::sync::Arc;
use vstd::prelude::*;

verus! {

/// The entries that a walk goes on to: the merged values that the trees have,
/// where the matcher visits the directory or selects the file. A walk over the
/// conflicts leaves out what is resolved.
pub open spec fn kept_value<M: Matcher>(
    matcher: &M,
    conflicts_only: bool,
    dir: PathView,
) -> spec_fn(NameView, MergedValueView) -> Option<MergedValueView> {
    |name: NameView, value: MergedValueView|
        if (conflicts_only ==> value.len() != 1) && (if tree_value::is_tree(value) {
            matcher.visits(dir.push(name))
        } else {
            matcher.selects(dir.push(name))
        }) {
            Some(value)
        } else {
            None
        }
}

/// The entries of a listing, as paths in the directory.
pub open spec fn in_dir<V>(dir: PathView, entries: Seq<(NameView, V)>) -> Seq<(PathView, V)> {
    Seq::new(entries.len(), |i: int| (dir.push(entries[i].0), entries[i].1))
}

/// What a walk goes on to in a directory whose trees were read, in order.
pub open spec fn children<M: Matcher>(
    matcher: &M,
    conflicts_only: bool,
    trees: Seq<TreeModel>,
) -> Seq<(PathView, MergedValueView)> {
    let dir = trees[0].dir;
    in_dir(
        dir,
        listing::filter_mapped(
            listing::table(order::name_order(), tree::listed_entries(trees)),
            kept_value(matcher, conflicts_only, dir),
        ),
    )
}

/// The model of a walk.
#[verifier::ext_equal]
pub ghost struct WalkModel {
    /// The store of the tree.
    pub store: Store,
    /// What is still to be visited, in order.
    pub todo: Seq<(PathView, MergedValueView)>,
    /// The directory whose trees are being read, if any.
    pub reading: Option<PathView>,
    /// Whether only conflicts are visited.
    pub conflicts_only: bool,
}

/// What a walk gives or needs next.
#[derive(Debug)]
pub enum TreeEntriesStep {
    /// The next entry.
    Entry(RepoPathBuf, MergedTreeValue),
    /// These trees have to be read to go on.
    Read(TreesRequest),
    /// There are no more entries.
    Done,
}

/// Recursive iterator over the entries in a tree.
pub struct TreeEntriesIterator<'matcher, M: Matcher> {
    store: Arc<Store>,
    // The next one is at the end.
    stack: Vec<(RepoPathBuf, MergedTreeValue)>,
    reading: Option<RepoPathBuf>,
    matcher: &'matcher M,
    conflicts_only: bool,
}

impl<'matcher, M: Matcher> View for TreeEntriesIterator<'matcher, M> {
    type V = WalkModel;

    closed spec fn view(&self) -> WalkModel {
        WalkModel {
            store: *self.store,
            todo: self.stack.deep_view().reverse(),
            reading: self.reading.deep_view(),
            conflicts_only: self.conflicts_only,
        }
    }
}

/// The model of a walk that begins at the root directory.
pub open spec fn walk_start(store: Store, ids: Seq<Seq<u8>>, conflicts_only: bool) -> WalkModel {
    WalkModel {
        store,
        todo: seq![(PathView::empty(), merged_tree::root_value(ids))],
        reading: None,
        conflicts_only,
    }
}

/// The entries of a directory that a walk goes on to, the last one first.
fn dir_entries<M: Matcher>(trees: &Merge<Tree>, matcher: &M, conflicts_only: bool) -> (r: Vec<
    (RepoPathBuf, MergedTreeValue),
>)
    ensures
        r.deep_view() == children(matcher, conflicts_only, trees@).reverse(),
{
    let dir = trees.first().dir();
    assert(trees@[0] == trees.terms()[0]@);
    let entries = tree_entries::all_tree_entries(trees);
    let n = entries.len();
    let ghost listed = entries.deep_view();
    let ghost keep = kept_value(matcher, conflicts_only, dir@);
    let mut out: Vec<(RepoPathBuf, MergedTreeValue)> = Vec::new();
    proof {
        order::lemma_name_order();
        listing::lemma_table(order::name_order(), listed, tree::listed_entries(trees@));
        assert(out.deep_view() =~= in_dir(dir@, listing::filter_mapped(listed.take(0), keep)));
    }
    for i in 0..n
        invariant
            n == entries.len(),
            listed == entries.deep_view(),
            keep == kept_value(matcher, conflicts_only, dir@),
            out.deep_view() == in_dir(dir@, listing::filter_mapped(listed.take(i as int), keep)),
    {
        let (name, value) = &entries[i];
        proof {
            assert(listed[i as int] == (name@, value@));
            listing::lemma_filter_mapped_next(listed, keep, i as int);
        }
        let ghost before = out.deep_view();
        if !(conflicts_only && value.is_resolved()) {
            let path = dir.join(name);
            let kept = if value.is_tree() {
                !matcher.visit(&path).is_nothing()
            } else {
                matcher.matches(&path)
            };
            if kept {
                let value = value.cloned();
                out.push((path, value));
                assert(out.deep_view() =~= before.push((dir@.push(name@), value@)));
            }
        }
        assert(out.deep_view() =~= in_dir(dir@, listing::filter_mapped(listed.take(i + 1), keep)));
    }
    assert(listed.take(n as int) =~= listed);
    let r = vectors::reversed(out);
    assert(r.deep_view() =~= out.deep_view().reverse());
    r
}

impl<'matcher, M: Matcher> TreeEntriesIterator<'matcher, M> {
    fn new(tree: &MergedTree, matcher: &'matcher M, conflicts_only: bool) -> (r: Self)
        ensures
            r@ == walk_start(tree@.store, tree@.ids, conflicts_only),
            r.selection() == *matcher,
    {
        let mut stack: Vec<(RepoPathBuf, MergedTreeValue)> = Vec::new();
        stack.push((RepoPathBuf::root(), tree.to_merged_tree_value()));
        let r = TreeEntriesIterator {
            store: tree.store().clone(),
            stack,
            reading: None,
            matcher,
            conflicts_only,
        };
        assert(r@.todo =~= walk_start(tree@.store, tree@.ids, conflicts_only).todo);
        r
    }

    /// The matcher of this walk.
    pub closed spec fn selection(self) -> M {
        *self.matcher
    }

    /// The store of the tree.
    pub fn store(&self) -> (r: &Arc<Store>)
        ensures
            **r == self@.store,
    {
        &self.store
    }

    /// The next entry, or the trees that have to be read to get to it.
    pub fn next(&mut self) -> (r: TreeEntriesStep)
        requires
            old(self)@.reading is None,
        ensures
            final(self).selection() == old(self).selection(),
            match r {
                TreeEntriesStep::Entry(path, value) => {
                    &&& old(self)@.todo.len() > 0
                    &&& (path@, value@) == old(self)@.todo[0]
                    &&& !tree_value::only_trees(value@)
                    &&& final(self)@ == (WalkModel {
                        todo: old(self)@.todo.drop_first(),
                        ..old(self)@
                    })
                },
                TreeEntriesStep::Read(request) => {
                    &&& old(self)@.todo.len() > 0
                    &&& tree_value::only_trees(old(self)@.todo[0].1)
                    &&& request@ == tree_read::request_of(
                        old(self)@.todo[0].0,
                        old(self)@.todo[0].1,
                    )
                    &&& final(self)@ == (WalkModel {
                        todo: old(self)@.todo.drop_first(),
                        reading: Some(old(self)@.todo[0].0),
                        ..old(self)@
                    })
                },
                TreeEntriesStep::Done => {
                    &&& old(self)@.todo.len() == 0
                    &&& final(self)@ == old(self)@
                },
            },
    {
        let ghost before = self.stack@;
        match self.stack.pop() {
            None => {
                assert(self@.todo =~= old(self)@.todo);
                TreeEntriesStep::Done
            },
            Some((path, value)) => {
                proof {
                    assert(before.last().0@ == path@ && before.last().1@ == value@);
                    assert(self@.todo =~= old(self)@.todo.drop_first());
                }
                match TreesRequest::for_value(&path, &value) {
                    Some(request) => {
                        self.reading = Some(path);
                        assert(self@.todo =~= old(self)@.todo.drop_first());
                        TreeEntriesStep::Read(request)
                    },
                    None => TreeEntriesStep::Entry(path, value),
                }
            },
        }
    }

    /// Goes on with the trees that were asked for. If they could not be read, the
    /// error is the next entry, at the path that is returned.
    pub fn resume(&mut self, trees: BackendResult<Merge<Tree>>) -> (r: Option<
        (RepoPathBuf, BackendError),
    >)
        requires
            old(self)@.reading is Some,
        ensures
            final(self).selection() == old(self).selection(),
            match trees {
                Ok(trees) => {
                    &&& r is None
                    &&& final(self)@ == (WalkModel {
                        todo: children(
                            &old(self).selection(),
                            old(self)@.conflicts_only,
                            trees@,
                        ) + old(self)@.todo,
                        reading: None,
                        ..old(self)@
                    })
                },
                Err(err) => {
                    &&& r matches Some((path, e)) && path@ == old(self)@.reading->0 && e == err
                    &&& final(self)@ == (WalkModel { reading: None, ..old(self)@ })
                },
            },
    {
        let reading = self.reading.take();
        match trees {
            Ok(trees) => {
                let mut entries = dir_entries(&trees, self.matcher, self.conflicts_only);
                let ghost added = entries.deep_view();
                let ghost before = self.stack.deep_view();
                self.stack.append(&mut entries);
                assert(self.stack.deep_view() =~= before + added);
                assert(self@.todo =~= added.reverse() + before.reverse());
                assert(added.reverse() =~= children(
                    &old(self).selection(),
                    old(self)@.conflicts_only,
                    trees@,
                ));
                None
            },
            Err(err) => match reading {
                Some(path) => Some((path, err)),
                None => None,
            },
        }
    }
}

impl MergedTree {
    /// An iterator over the conflicts in this tree, including subtrees.
    /// Recurses into subtrees and yields conflicts in those, but only if
    /// all sides are trees, so tree/file conflicts will be reported as a single
    /// conflict, not one for each path in the tree.
    pub fn conflicts(&self) -> (r: TreeEntriesIterator<'static, EverythingMatcher>)
        ensures
            r@ == walk_start(self@.store, self@.ids, true),
    {
        self.conflicts_matching(&EverythingMatcher)
    }

    /// Like `conflicts()` but restricted by a matcher.
    pub fn conflicts_matching<'matcher, M: Matcher>(&self, matcher: &'matcher M) -> (r:
        TreeEntriesIterator<'matcher, M>)
        ensures
            r@ == walk_start(self@.store, self@.ids, true),
            r.selection() == *matcher,
    {
        TreeEntriesIterator::new(self, matcher, true)
    }

    /// Iterator over the entries matching the given matcher. Subtrees are
    /// visited recursively. Subtrees that differ between the current
    /// `MergedTree`'s terms are merged on the fly. Missing terms are treated as
    /// empty directories. Subtrees that conflict with non-trees are not
    /// visited. For example, if current tree is a merge of 3 trees, and the
    /// entry for 'foo' is a conflict between a change subtree and a symlink
    /// (i.e. the subdirectory was replaced by symlink in one side of the
    /// conflict), then the entry for `foo` itself will be emitted, but no
    /// entries from inside `foo/` from either of the trees will be.
    pub fn entries(&self) -> (r: TreeEntriesIterator<'static, EverythingMatcher>)
        ensures
            r@ == walk_start(self@.store, self@.ids, false),
    {
        self.entries_matching(&EverythingMatcher)
    }

    /// Like `entries()` but restricted by a matcher.
    pub fn entries_matching<'matcher, M: Matcher>(&self, matcher: &'matcher M) -> (r:
        TreeEntriesIterator<'matcher, M>)
        ensures
            r@ == walk_start(self@.store, self@.ids, false),
            r.selection() == *matcher,
    {
        TreeEntriesIterator::new(self, matcher, false)
    }
}

} // verus!
