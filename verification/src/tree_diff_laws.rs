//! What the differences between two merged trees are.

use crate::backend;
use crate::backend::BackendError;
use crate::diff_adapters;
use crate::listing;
use crate::matchers::EverythingMatcher;
use crate::matchers::Matcher;
use crate::merge;
use crate::merge::Diff;
use crate::merged_tree;
use crate::order;
use crate::path_lookup;
use crate::repo_path;
use crate::repo_path::NameView;
use crate::repo_path::PathView;
use crate::store::Store;
use crate::tree;
use crate::tree::TreeModel;
use crate::tree_diff;
use crate::tree_diff::DiffResult;
use crate::tree_diff_stream::TreePairResult;
use crate::tree_entries;
use crate::tree_read;
use crate::tree_read::Reads;
use crate::tree_value;
use crate::tree_value::MergedValueView;
use crate::tree_value::TreeValueView;
use crate::tree_walk_laws;
use vstd::prelude::*;

verus! {

/// The trees on both sides of a difference, as the backend answers.
pub open spec fn read_pair(
    reads: Reads,
    store: Store,
    dir: PathView,
    diff: Diff<MergedValueView>,
) -> TreePairResult {
    match tree_read::read_trees(reads, store, dir, tree_read::tree_ids_or_absent(diff.before)) {
        Err(err) => Err(err),
        Ok(trees1) => match tree_read::read_trees(
            reads,
            store,
            dir,
            tree_read::tree_ids_or_absent(diff.after),
        ) {
            Err(err) => Err(err),
            Ok(trees2) => Ok((trees1, trees2)),
        },
    }
}

/// All that a walk over differences gives from the given state on, if it ends
/// within `steps` steps.
pub open spec fn diff_run<M: Matcher>(
    reads: Reads,
    store: Store,
    matcher: &M,
    todo: Seq<(PathView, Diff<MergedValueView>)>,
    steps: nat,
) -> Option<Seq<(PathView, DiffResult)>>
    decreases steps,
{
    if todo.len() == 0 {
        Some(Seq::empty())
    } else if steps == 0 {
        None
    } else {
        let (path, diff) = todo[0];
        let rest = todo.drop_first();
        let fewer = (steps - 1) as nat;
        if !tree_diff::has_tree(diff) {
            tree_walk_laws::prepend(
                (path, Ok(diff)),
                diff_run(reads, store, matcher, rest, fewer),
            )
        } else {
            match read_pair(reads, store, path, diff) {
                Err(err) => tree_walk_laws::prepend(
                    (path, Err(err)),
                    diff_run(reads, store, matcher, rest, fewer),
                ),
                Ok((trees1, trees2)) => {
                    let below = diff_run(
                        reads,
                        store,
                        matcher,
                        tree_diff::dir_diff(matcher, path, trees1, trees2) + rest,
                        fewer,
                    );
                    if tree_diff::visible(matcher, path, diff) {
                        tree_walk_laws::prepend((path, Ok(diff)), below)
                    } else {
                        below
                    }
                },
            }
        }
    }
}

/// Two root directories to compare, in the same store.
#[verifier::ext_equal]
pub ghost struct TreePair {
    /// What the backend answers.
    pub reads: Reads,
    /// The store of the trees.
    pub store: Store,
    /// The value of the root directory before.
    pub before: MergedValueView,
    /// The value of the root directory after.
    pub after: MergedValueView,
}

impl TreePair {
    /// Whether the roots are directories and the backend answers with sorted
    /// trees.
    pub open spec fn valid(self) -> bool {
        &&& tree_read::valid_reads(self.reads)
        &&& tree_value::is_tree(self.before)
        &&& tree_value::is_tree(self.after)
        &&& self.before.len() % 2 == 1
        &&& self.after.len() % 2 == 1
    }

    /// The value at a path before.
    pub open spec fn before_at(self, path: PathView) -> Result<MergedValueView, BackendError> {
        path_lookup::value_at(self.reads, self.store, self.before, path)
    }

    /// The value at a path after.
    pub open spec fn after_at(self, path: PathView) -> Result<MergedValueView, BackendError> {
        path_lookup::value_at(self.reads, self.store, self.after, path)
    }

    /// The values at a path, as far as the matcher selects them. The root
    /// directories are taken as they are.
    pub open spec fn diff_at<M: Matcher>(self, matcher: &M, path: PathView) -> Diff<
        MergedValueView,
    > {
        let diff = Diff { before: self.before_at(path)->Ok_0, after: self.after_at(path)->Ok_0 };
        if path.len() == 0 {
            diff
        } else {
            tree_diff::filtered_sides(matcher, path, diff)
        }
    }

    /// Whether the values at a path are known and differ, or it is the root, and
    /// the matcher visits the directories on the way.
    pub open spec fn differs_at<M: Matcher>(self, matcher: &M, path: PathView) -> bool {
        &&& tree_walk_laws::reachable(matcher, path)
        &&& self.before_at(path) is Ok
        &&& self.after_at(path) is Ok
        &&& path.len() == 0 || self.before_at(path) != self.after_at(path)
        &&& !tree_diff::both_absent(self.diff_at(matcher, path))
    }

    /// What is shown at a path: the values before and after, if they differ and
    /// the matcher selects them, or an error if there are trees that cannot be
    /// read.
    pub open spec fn shown_diff<M: Matcher>(self, matcher: &M) -> spec_fn(PathView) -> Option<
        DiffResult,
    > {
        |path: PathView|
            if !self.differs_at(matcher, path) {
                None
            } else {
                let diff = self.diff_at(matcher, path);
                if tree_diff::has_tree(diff) && read_pair(
                    self.reads,
                    self.store,
                    path,
                    diff,
                ) is Err {
                    Some(Err(read_pair(self.reads, self.store, path, diff)->Err_0))
                } else if matcher.selects(path) && diff.before != diff.after {
                    Some(Ok(diff))
                } else {
                    None
                }
            }
    }
}

/// Below values that are the same on both sides, all values are.
proof fn lemma_same_below(pair: TreePair, base: PathView, path: PathView)
    requires
        repo_path::path_starts_with(path, base),
        pair.before_at(base) == pair.after_at(base),
    ensures
        pair.before_at(path) == pair.after_at(path),
    decreases path.len(),
{
    if path.len() == base.len() {
        assert(path =~= path.take(base.len() as int));
    } else {
        let dir = path.drop_last();
        assert(dir.take(base.len() as int) =~= path.take(base.len() as int));
        lemma_same_below(pair, base, dir);
    }
}

/// Nothing is shown below values that are the same on both sides.
pub proof fn lemma_nothing_below_same<M: Matcher>(
    pair: TreePair,
    matcher: &M,
    base: PathView,
    path: PathView,
)
    requires
        repo_path::path_starts_with(path, base),
        path.len() > 0,
        pair.before_at(base) == pair.after_at(base),
    ensures
        pair.shown_diff(matcher)(path) is None,
{
    lemma_same_below(pair, base, path);
}

/// Nothing is shown below what is not a directory on either side.
proof fn lemma_nothing_below_files<M: Matcher>(
    pair: TreePair,
    matcher: &M,
    base: PathView,
    path: PathView,
)
    requires
        repo_path::path_starts_with(path, base),
        path.len() > base.len(),
        pair.before_at(base) is Ok,
        pair.after_at(base) is Ok,
        !tree_value::is_tree(pair.before_at(base)->Ok_0),
        !tree_value::is_tree(pair.after_at(base)->Ok_0),
    ensures
        pair.shown_diff(matcher)(path) is None,
{
    path_lookup::lemma_below_file(pair.reads, pair.store, pair.before, base, path);
    path_lookup::lemma_below_file(pair.reads, pair.store, pair.after, base, path);
}

/// Below a directory that differs, a tree is shown only where the matcher visits
/// it, and then both sides are what they are.
proof fn lemma_kept_trees<M: Matcher>(pair: TreePair, matcher: &M, dir: PathView)
    requires
        pair.valid(),
        pair.differs_at(matcher, dir),
        tree_diff::has_tree(pair.diff_at(matcher, dir)),
    ensures
        dir.len() > 0 ==> matcher.visits(dir),
        tree_value::is_tree(pair.before_at(dir)->Ok_0) == tree_value::is_tree(
            pair.diff_at(matcher, dir).before,
        ),
        tree_value::is_tree(pair.after_at(dir)->Ok_0) == tree_value::is_tree(
            pair.diff_at(matcher, dir).after,
        ),
        tree_value::is_tree(pair.before_at(dir)->Ok_0) ==> pair.diff_at(matcher, dir).before
            == pair.before_at(dir)->Ok_0,
        tree_value::is_tree(pair.after_at(dir)->Ok_0) ==> pair.diff_at(matcher, dir).after
            == pair.after_at(dir)->Ok_0,
{
    assert(merge::is_absent(merge::absent_terms::<TreeValueView>()));
}

/// What is found in one side of a directory whose trees were read.
proof fn lemma_side_values(
    reads: Reads,
    store: Store,
    root: MergedValueView,
    dir: PathView,
    side: MergedValueView,
    name: NameView,
)
    requires
        tree_read::valid_reads(reads),
        root.len() % 2 == 1,
        path_lookup::value_at(reads, store, root, dir) is Ok,
        tree_value::is_tree(path_lookup::value_at(reads, store, root, dir)->Ok_0) ==> side
            == path_lookup::value_at(reads, store, root, dir)->Ok_0,
        tree_value::is_tree(side) ==> tree_value::is_tree(
            path_lookup::value_at(reads, store, root, dir)->Ok_0,
        ),
        tree_read::read_trees(reads, store, dir, tree_read::tree_ids_or_absent(side)) is Ok,
    ensures
        ({
            let trees = tree_read::read_trees(
                reads,
                store,
                dir,
                tree_read::tree_ids_or_absent(side),
            )->Ok_0;
            &&& trees.len() % 2 == 1
            &&& tree_entries::sorted_trees(trees)
            &&& path_lookup::value_at(reads, store, root, dir.push(name)) == Ok::<
                MergedValueView,
                BackendError,
            >(tree::tree_value(trees, name))
        }),
{
    let value = path_lookup::value_at(reads, store, root, dir)->Ok_0;
    let ids = tree_read::tree_ids_or_absent(side);
    let trees = tree_read::read_trees(reads, store, dir, ids)->Ok_0;
    let child = dir.push(name);
    assert(child.drop_last() =~= dir);
    assert(child.last() == name);
    tree_read::lemma_read_trees(reads, store, dir, ids);
    tree_walk_laws::lemma_odd_values(reads, store, root, dir);
    if !tree_value::is_tree(value) {
        assert(!tree_value::is_tree(side));
        if tree_value::only_trees(side) {
            assert(merge::is_absent(side));
            assert(ids =~= seq![None]);
        }
        tree_read::lemma_read_absent(reads, store, dir);
        assert(!tree::has_name(trees, name)) by {
            if tree::has_name(trees, name) {
                let t = choose|t: int|
                    0 <= t < trees.len() && (#[trigger] listing::lookup(
                        trees[t].entries,
                        name,
                    )) is Some;
                let i = listing::lemma_lookup_some(trees[t].entries, name);
            }
        }
        tree::lemma_missing_value(trees, name);
    }
}

/// The differences in a directory can be listed.
proof fn lemma_diff_listed(trees1: Seq<TreeModel>, trees2: Seq<TreeModel>)
    requires
        trees1.len() % 2 == 1,
        trees2.len() % 2 == 1,
    ensures
        listing::tabulates(
            order::name_order(),
            listing::table(order::name_order(), tree_entries::entry_diff(trees1, trees2)),
            tree_entries::entry_diff(trees1, trees2),
        ),
{
    order::lemma_name_order();
    let a = tree_walk_laws::all_names(trees1);
    let b = tree_walk_laws::all_names(trees2);
    let f = tree_entries::entry_diff(trees1, trees2);
    assert forall|name: NameView| (#[trigger] f(name)) is Some implies (a + b).contains(name) by {
        if tree::has_name(trees1, name) {
            let t = choose|t: int|
                0 <= t < trees1.len() && (#[trigger] listing::lookup(
                    trees1[t].entries,
                    name,
                )) is Some;
            tree_walk_laws::lemma_all_names(trees1, t, name);
            let i = choose|i: int| 0 <= i < a.len() && a[i] == name;
            assert((a + b)[i] == name);
        } else if tree::has_name(trees2, name) {
            let t = choose|t: int|
                0 <= t < trees2.len() && (#[trigger] listing::lookup(
                    trees2[t].entries,
                    name,
                )) is Some;
            tree_walk_laws::lemma_all_names(trees2, t, name);
            let i = choose|i: int| 0 <= i < b.len() && b[i] == name;
            assert((a + b)[a.len() + i] == name);
        } else {
            tree::lemma_missing_value(trees1, name);
            tree::lemma_missing_value(trees2, name);
        }
    }
    listing::lemma_table_exists(order::name_order(), a + b, f);
}

/// The differences in a directory whose trees were read: they are apart, lie in
/// the directory and differ, and they cover all that is shown there.
pub proof fn lemma_dir_diff<M: Matcher>(pair: TreePair, matcher: &M, dir: PathView)
    requires
        pair.valid(),
        pair.differs_at(matcher, dir),
        tree_diff::has_tree(pair.diff_at(matcher, dir)),
        read_pair(pair.reads, pair.store, dir, pair.diff_at(matcher, dir)) is Ok,
    ensures
        ({
            let (trees1, trees2) = read_pair(
                pair.reads,
                pair.store,
                dir,
                pair.diff_at(matcher, dir),
            )->Ok_0;
            let c = tree_diff::dir_diff(matcher, dir, trees1, trees2);
            &&& tree_walk_laws::apart(c)
            &&& forall|i: int|
                0 <= i < c.len() ==> {
                    &&& repo_path::path_starts_with((#[trigger] c[i]).0, dir)
                    &&& c[i].0.len() == dir.len() + 1
                    &&& pair.differs_at(matcher, c[i].0)
                    &&& c[i].1 == pair.diff_at(matcher, c[i].0)
                }
            &&& forall|p: PathView| #[trigger]
                repo_path::path_starts_with(p, dir) && p != dir && pair.shown_diff(matcher)(
                    p,
                ) is Some ==> tree_walk_laws::covered(c, p)
        }),
{
    let diff = pair.diff_at(matcher, dir);
    let (trees1, trees2) = read_pair(pair.reads, pair.store, dir, diff)->Ok_0;
    let c = tree_diff::dir_diff(matcher, dir, trees1, trees2);
    let less = order::name_order();
    order::lemma_name_order();
    lemma_kept_trees(pair, matcher, dir);
    let f = tree_entries::entry_diff(trees1, trees2);
    let keep = tree_diff::filtered_diff(matcher, dir);
    let any = NameView::empty();
    lemma_side_values(pair.reads, pair.store, pair.before, dir, diff.before, any);
    lemma_side_values(pair.reads, pair.store, pair.after, dir, diff.after, any);
    lemma_diff_listed(trees1, trees2);
    let t = listing::table(less, f);
    listing::lemma_filter_mapped(less, t, keep);
    let s = listing::filter_mapped(t, keep);
    tree_walk_laws::lemma_in_dir_apart(dir, s);
    assert forall|i: int| 0 <= i < c.len() implies {
        &&& repo_path::path_starts_with((#[trigger] c[i]).0, dir)
        &&& c[i].0.len() == dir.len() + 1
        &&& pair.differs_at(matcher, c[i].0)
        &&& c[i].1 == pair.diff_at(matcher, c[i].0)
    } by {
        let name = s[i].0;
        let child = dir.push(name);
        assert(c[i].0 == child);
        assert(child.take(dir.len() as int) =~= dir);
        listing::lemma_lookup_at(less, s, i);
        assert(listing::lookup(t, name) == f(name));
        lemma_side_values(pair.reads, pair.store, pair.before, dir, diff.before, name);
        lemma_side_values(pair.reads, pair.store, pair.after, dir, diff.after, name);
        lemma_child_reachable(matcher, dir, name);
    }
    assert forall|p: PathView| #[trigger]
        repo_path::path_starts_with(p, dir) && p != dir && pair.shown_diff(matcher)(
            p,
        ) is Some implies tree_walk_laws::covered(c, p) by {
        if p.len() == dir.len() {
            assert(p =~= p.take(dir.len() as int));
        }
        let name = p[dir.len() as int];
        let child = dir.push(name);
        assert(child =~= p.take(dir.len() as int + 1)) by {
            assert(p.take(dir.len() as int) == dir);
            assert forall|i: int| 0 <= i < child.len() implies child[i] == p.take(
                dir.len() as int + 1,
            )[i] by {
                if i < dir.len() {
                    assert(p.take(dir.len() as int)[i] == dir[i]);
                }
            }
        }
        lemma_side_values(pair.reads, pair.store, pair.before, dir, diff.before, name);
        lemma_side_values(pair.reads, pair.store, pair.after, dir, diff.after, name);
        if pair.before_at(child) == pair.after_at(child) {
            lemma_nothing_below_same(pair, matcher, child, p);
        } else {
            let found = tree_diff::filtered_sides(
                matcher,
                child,
                Diff {
                    before: tree::tree_value(trees1, name),
                    after: tree::tree_value(trees2, name),
                },
            );
            if tree_diff::both_absent(found) {
                if p.len() == child.len() {
                    assert(p =~= child);
                } else if tree_value::is_tree(pair.before_at(child)->Ok_0) || tree_value::is_tree(
                    pair.after_at(child)->Ok_0,
                ) {
                    assert(!matcher.visits(p.take(dir.len() as int + 1)));
                } else {
                    lemma_nothing_below_files(pair, matcher, child, p);
                }
            }
            assert(listing::lookup(t, name) == f(name));
            assert(listing::lookup(s, name) is Some);
            let i = listing::lemma_lookup_some(s, name);
            assert(c[i].0 == child);
        }
    }
}

/// What lies in a directory that is visited can be reached.
proof fn lemma_child_reachable<M: Matcher>(matcher: &M, dir: PathView, name: NameView)
    requires
        tree_walk_laws::reachable(matcher, dir),
        dir.len() > 0 ==> matcher.visits(dir),
    ensures
        tree_walk_laws::reachable(matcher, dir.push(name)),
{
    let child = dir.push(name);
    assert forall|k: int| 0 < k < child.len() implies matcher.visits(#[trigger] child.take(k)) by {
        assert(child.take(k) =~= dir.take(k));
        if k == dir.len() {
            assert(dir.take(k) =~= dir);
        }
    }
}

/// Nothing is shown below a directory whose trees cannot be read.
pub proof fn lemma_nothing_below_unreadable<M: Matcher>(
    pair: TreePair,
    matcher: &M,
    dir: PathView,
    path: PathView,
)
    requires
        pair.valid(),
        pair.differs_at(matcher, dir),
        tree_diff::has_tree(pair.diff_at(matcher, dir)),
        read_pair(pair.reads, pair.store, dir, pair.diff_at(matcher, dir)) is Err,
        repo_path::path_starts_with(path, dir),
        path != dir,
    ensures
        pair.shown_diff(matcher)(path) is None,
{
    let diff = pair.diff_at(matcher, dir);
    lemma_kept_trees(pair, matcher, dir);
    if path.len() == dir.len() {
        assert(path =~= path.take(dir.len() as int));
    }
    let child = path.take(dir.len() as int + 1);
    assert(child.drop_last() =~= path.take(dir.len() as int));
    assert(path.take(child.len() as int) =~= child);
    lemma_unreadable_side(pair.reads, pair.store, dir, diff.before);
    lemma_unreadable_side(pair.reads, pair.store, dir, diff.after);
    if pair.before_at(child) is Err {
        path_lookup::lemma_below_error(pair.reads, pair.store, pair.before, child, path);
    } else {
        assert(pair.after_at(child) is Err);
        path_lookup::lemma_below_error(pair.reads, pair.store, pair.after, child, path);
    }
}

/// Only the trees of a directory can fail to be read.
proof fn lemma_unreadable_side(
    reads: Reads,
    store: Store,
    dir: PathView,
    side: MergedValueView,
)
    ensures
        !tree_value::is_tree(side) ==> tree_read::read_trees(
            reads,
            store,
            dir,
            tree_read::tree_ids_or_absent(side),
        ) is Ok,
        tree_value::is_tree(side) ==> tree_read::tree_ids_or_absent(side)
            == tree_read::tree_ids_of(side),
{
    if !tree_value::is_tree(side) {
        if tree_value::only_trees(side) {
            assert(tree_read::tree_ids_of(side) =~= seq![None]);
        }
        tree_read::lemma_read_absent(reads, store, dir);
    }
}

/// Values that differ are shown as different ones.
pub proof fn lemma_shown_differ<M: Matcher>(pair: TreePair, matcher: &M, path: PathView)
    requires
        pair.differs_at(matcher, path),
        path.len() > 0,
    ensures
        pair.diff_at(matcher, path).before != pair.diff_at(matcher, path).after,
        !tree_diff::has_tree(pair.diff_at(matcher, path)) ==> matcher.selects(path),
        tree_diff::visible(matcher, path, pair.diff_at(matcher, path)) == matcher.selects(path),
        tree_value::is_file_like(pair.diff_at(matcher, path).after) ==> pair.after_at(path)
            == Ok::<MergedValueView, BackendError>(pair.diff_at(matcher, path).after),
{
    let a = pair.before_at(path)->Ok_0;
    let b = pair.after_at(path)->Ok_0;
    let absent = merge::absent_terms::<TreeValueView>();
    assert(merge::is_absent(absent));
    if merge::is_absent(a) {
        assert(a =~= absent);
    }
    if merge::is_absent(b) {
        assert(b =~= absent);
    }
}

/// Whether a walk over differences can be in this state.
spec fn valid_todo<M: Matcher>(
    pair: TreePair,
    matcher: &M,
    todo: Seq<(PathView, Diff<MergedValueView>)>,
) -> bool {
    &&& tree_walk_laws::apart(todo)
    &&& forall|i: int|
        0 <= i < todo.len() ==> {
            &&& pair.differs_at(matcher, (#[trigger] todo[i]).0)
            &&& todo[i].1 == pair.diff_at(matcher, todo[i].0)
            &&& todo[i].1.before != todo[i].1.after
        }
}

proof fn lemma_rest_valid<M: Matcher>(
    pair: TreePair,
    matcher: &M,
    todo: Seq<(PathView, Diff<MergedValueView>)>,
)
    requires
        valid_todo(pair, matcher, todo),
        todo.len() > 0,
    ensures
        valid_todo(pair, matcher, todo.drop_first()),
        forall|j: int|
            0 <= j < todo.drop_first().len() ==> order::path_less(
                todo[0].0,
                (#[trigger] todo.drop_first()[j]).0,
            ) && !repo_path::path_starts_with(todo.drop_first()[j].0, todo[0].0),
{
    let rest = todo.drop_first();
    let less = order::path_order();
    assert forall|i: int, j: int| 0 <= i < j < rest.len() implies less(
        (#[trigger] rest[i]).0,
        (#[trigger] rest[j]).0,
    ) && !repo_path::path_starts_with(rest[j].0, rest[i].0) by {
        assert(rest[i] == todo[i + 1] && rest[j] == todo[j + 1]);
        assert(less(todo[i + 1].0, todo[j + 1].0));
    }
    assert forall|i: int| 0 <= i < rest.len() implies {
        &&& pair.differs_at(matcher, (#[trigger] rest[i]).0)
        &&& rest[i].1 == pair.diff_at(matcher, rest[i].0)
        &&& rest[i].1.before != rest[i].1.after
    } by {
        assert(rest[i] == todo[i + 1]);
    }
    assert forall|j: int| 0 <= j < rest.len() implies order::path_less(
        todo[0].0,
        (#[trigger] rest[j]).0,
    ) && !repo_path::path_starts_with(rest[j].0, todo[0].0) by {
        assert(rest[j] == todo[j + 1]);
        assert(less(todo[0].0, todo[j + 1].0));
    }
}

proof fn lemma_diff_run<M: Matcher>(
    pair: TreePair,
    matcher: &M,
    todo: Seq<(PathView, Diff<MergedValueView>)>,
    steps: nat,
)
    requires
        pair.valid(),
        valid_todo(pair, matcher, todo),
        diff_run(pair.reads, pair.store, matcher, todo, steps) is Some,
    ensures
        listing::tabulates(
            order::path_order(),
            diff_run(pair.reads, pair.store, matcher, todo, steps)->0,
            |p: PathView|
                if tree_walk_laws::covered(todo, p) {
                    pair.shown_diff(matcher)(p)
                } else {
                    None
                },
        ),
    decreases steps,
{
    let f = pair.shown_diff(matcher);
    let h = |p: PathView|
        if tree_walk_laws::covered(todo, p) {
            f(p)
        } else {
            None
        };
    let out = diff_run(pair.reads, pair.store, matcher, todo, steps)->0;
    if todo.len() == 0 {
        assert forall|p: PathView| #[trigger] listing::lookup(out, p) == h(p) by {}
    } else {
        let (q, diff) = todo[0];
        let rest = todo.drop_first();
        let fewer = (steps - 1) as nat;
        lemma_rest_valid(pair, matcher, todo);
        if q.len() > 0 {
            lemma_shown_differ(pair, matcher, q);
        }
        if !tree_diff::has_tree(diff) {
            lemma_diff_run(pair, matcher, rest, fewer);
            assert forall|p: PathView| #[trigger]
                repo_path::path_starts_with(p, q) && p != q implies f(p) is None by {
                lemma_nothing_below_files_item(pair, matcher, q, p);
            }
            tree_walk_laws::lemma_listed_first(
                todo,
                diff_run(pair.reads, pair.store, matcher, rest, fewer)->0,
                Ok(diff),
                f,
            );
        } else {
            match read_pair(pair.reads, pair.store, q, diff) {
                Err(err) => {
                    lemma_diff_run(pair, matcher, rest, fewer);
                    assert forall|p: PathView| #[trigger]
                        repo_path::path_starts_with(p, q) && p != q implies f(p) is None by {
                        lemma_nothing_below_unreadable(pair, matcher, q, p);
                    }
                    tree_walk_laws::lemma_listed_first(
                        todo,
                        diff_run(pair.reads, pair.store, matcher, rest, fewer)->0,
                        Err(err),
                        f,
                    );
                },
                Ok((trees1, trees2)) => {
                    let c = tree_diff::dir_diff(matcher, q, trees1, trees2);
                    let next = c + rest;
                    lemma_dir_diff(pair, matcher, q);
                    tree_walk_laws::lemma_apart_concat(q, c, rest);
                    assert forall|i: int| 0 <= i < next.len() implies {
                        &&& pair.differs_at(matcher, (#[trigger] next[i]).0)
                        &&& next[i].1 == pair.diff_at(matcher, next[i].0)
                        &&& next[i].1.before != next[i].1.after
                    } by {
                        if i < c.len() {
                            assert(next[i] == c[i]);
                            lemma_shown_differ(pair, matcher, c[i].0);
                        } else {
                            assert(next[i] == rest[i - c.len()]);
                        }
                    }
                    lemma_diff_run(pair, matcher, next, fewer);
                    let below = diff_run(pair.reads, pair.store, matcher, next, fewer)->0;
                    lemma_entered_run(pair, matcher, todo, c, below, f);
                    assert(tree_diff::visible(matcher, q, diff) == matcher.selects(q));
                    if tree_diff::visible(matcher, q, diff) {
                        assert(out =~= seq![(q, Ok::<Diff<MergedValueView>, BackendError>(diff))]
                            + below);
                    }
                },
            }
        }
    }
}

/// Nothing is shown below a difference that has no tree on either side.
pub proof fn lemma_nothing_below_files_item<M: Matcher>(
    pair: TreePair,
    matcher: &M,
    q: PathView,
    p: PathView,
)
    requires
        pair.valid(),
        pair.differs_at(matcher, q),
        !tree_diff::has_tree(pair.diff_at(matcher, q)),
        repo_path::path_starts_with(p, q),
        p != q,
    ensures
        pair.shown_diff(matcher)(p) is None,
{
    if p.len() == q.len() {
        assert(p =~= p.take(q.len() as int));
    }
    if tree_value::is_tree(pair.before_at(q)->Ok_0) || tree_value::is_tree(
        pair.after_at(q)->Ok_0,
    ) {
        assert(p.take(q.len() as int) == q);
        assert(!matcher.visits(p.take(q.len() as int)));
    } else {
        lemma_nothing_below_files(pair, matcher, q, p);
    }
}

/// What is listed once a directory has been entered: what it shows itself, if it
/// shows anything, comes first.
proof fn lemma_entered_run<M: Matcher>(
    pair: TreePair,
    matcher: &M,
    todo: Seq<(PathView, Diff<MergedValueView>)>,
    c: Seq<(PathView, Diff<MergedValueView>)>,
    below: Seq<(PathView, DiffResult)>,
    f: spec_fn(PathView) -> Option<DiffResult>,
)
    requires
        tree_walk_laws::apart(todo),
        todo.len() > 0,
        tree_walk_laws::apart(c + todo.drop_first()),
        forall|i: int|
            0 <= i < c.len() ==> repo_path::path_starts_with((#[trigger] c[i]).0, todo[0].0)
                && c[i].0.len() > todo[0].0.len(),
        forall|p: PathView| #[trigger]
            repo_path::path_starts_with(p, todo[0].0) && p != todo[0].0 && f(p) is Some
                ==> tree_walk_laws::covered(c, p),
        listing::tabulates(
            order::path_order(),
            below,
            |p: PathView|
                if tree_walk_laws::covered(c + todo.drop_first(), p) {
                    f(p)
                } else {
                    None
                },
        ),
    ensures
        listing::tabulates(
            order::path_order(),
            match f(todo[0].0) {
                Some(value) => seq![(todo[0].0, value)] + below,
                None => below,
            },
            |p: PathView|
                if tree_walk_laws::covered(todo, p) {
                    f(p)
                } else {
                    None
                },
        ),
{
    let q = todo[0].0;
    let rest = todo.drop_first();
    let next = c + rest;
    let less = order::path_order();
    order::lemma_path_order();
    let g = |p: PathView|
        if tree_walk_laws::covered(next, p) {
            f(p)
        } else {
            None
        };
    let h = |p: PathView|
        if tree_walk_laws::covered(todo, p) {
            f(p)
        } else {
            None
        };
    assert(!tree_walk_laws::covered(c, q)) by {
        if tree_walk_laws::covered(c, q) {
            let i = choose|i: int|
                0 <= i < c.len() && repo_path::path_starts_with(q, (#[trigger] c[i]).0);
            assert(c[i].0.len() > q.len());
        }
    }
    tree_walk_laws::lemma_covered_first(todo, q);
    tree_walk_laws::lemma_covered_once(todo, q);
    tree_walk_laws::lemma_covered_concat(c, rest, q);
    assert(g(q) is None);
    assert forall|p: PathView| p != q implies g(p) == #[trigger] h(p) by {
        tree_walk_laws::lemma_covered_first(todo, p);
        tree_walk_laws::lemma_covered_concat(c, rest, p);
        if tree_walk_laws::covered(c, p) {
            let i = choose|i: int|
                0 <= i < c.len() && repo_path::path_starts_with(p, (#[trigger] c[i]).0);
            repo_path::lemma_starts_with_trans(p, c[i].0, q);
        }
    }
    match f(q) {
        Some(value) => {
            assert forall|i: int| 0 <= i < below.len() implies less(
                q,
                (#[trigger] below[i]).0,
            ) by {
                listing::lemma_lookup_at(less, below, i);
                let p = below[i].0;
                assert(listing::lookup(below, p) == g(p));
                assert(p != q);
                assert(h(p) is Some);
                tree_walk_laws::lemma_covered_first(todo, p);
                if repo_path::path_starts_with(p, q) {
                    repo_path::lemma_prefix_before(q, p);
                } else {
                    let j = choose|j: int|
                        0 <= j < rest.len() && repo_path::path_starts_with(
                            p,
                            (#[trigger] rest[j]).0,
                        );
                    assert(rest[j] == todo[j + 1]);
                    assert(less(todo[0].0, todo[j + 1].0));
                    repo_path::lemma_prefix_before(rest[j].0, p);
                    order::lemma_paths(q, rest[j].0, p);
                }
            }
            assert(below.insert(0, (q, value)) =~= seq![(q, value)] + below);
            listing::lemma_lookup_insert(less, below, 0, q, value);
            let all = seq![(q, value)] + below;
            assert forall|p: PathView| #[trigger] listing::lookup(all, p) == h(p) by {
                assert(listing::lookup(below, p) == g(p));
            }
        },
        None => {
            assert forall|p: PathView| #[trigger] listing::lookup(below, p) == h(p) by {
                assert(listing::lookup(below, p) == g(p));
            }
        },
    }
}

/// The trees with the given IDs.
pub open spec fn pair_of(
    reads: Reads,
    store: Store,
    ids1: Seq<Seq<u8>>,
    ids2: Seq<Seq<u8>>,
) -> TreePair {
    TreePair {
        reads,
        store,
        before: merged_tree::root_value(ids1),
        after: merged_tree::root_value(ids2),
    }
}

/// The iterator over the differences between two trees gives what is shown at
/// each path, sorted by path, if the root directories differ and the matcher
/// visits them. Otherwise it gives nothing.
pub proof fn law_diff_iterator<M: Matcher>(
    reads: Reads,
    store: Store,
    ids1: Seq<Seq<u8>>,
    ids2: Seq<Seq<u8>>,
    matcher: &M,
    steps: nat,
)
    requires
        tree_read::valid_reads(reads),
        ids1.len() % 2 == 1,
        ids2.len() % 2 == 1,
        diff_run(
            reads,
            store,
            matcher,
            tree_diff::diff_start(matcher, store, ids1, ids2).todo,
            steps,
        ) is Some,
    ensures
        ({
            let pair = pair_of(reads, store, ids1, ids2);
            let out = diff_run(
                reads,
                store,
                matcher,
                tree_diff::diff_start(matcher, store, ids1, ids2).todo,
                steps,
            )->0;
            if pair.before != pair.after && matcher.visits(PathView::empty()) {
                listing::tabulates(order::path_order(), out, pair.shown_diff(matcher))
            } else {
                out == Seq::<(PathView, DiffResult)>::empty()
            }
        }),
{
    let pair = pair_of(reads, store, ids1, ids2);
    let todo = tree_diff::diff_start(matcher, store, ids1, ids2).todo;
    let root = PathView::empty();
    assert(pair.before[0] is Some && pair.after[0] is Some);
    assert(pair.valid());
    if pair.before != pair.after && matcher.visits(root) {
        lemma_diff_run(pair, matcher, todo, steps);
        let out = diff_run(reads, store, matcher, todo, steps)->0;
        let f = pair.shown_diff(matcher);
        assert forall|p: PathView| #[trigger] listing::lookup(out, p) == f(p) by {
            assert(p.take(0) =~= root);
            assert(repo_path::path_starts_with(p, todo[0].0));
            assert(tree_walk_laws::covered(todo, p));
        }
    }
}

/// Whether the backend answers every request with a tree.
pub open spec fn all_readable(reads: Reads) -> bool {
    forall|dir: PathView, id: Seq<u8>| (#[trigger] reads(dir, id)) is Ok
}

/// If every tree can be read, every merge of trees can.
proof fn lemma_readable(
    reads: Reads,
    store: Store,
    dir: PathView,
    ids: Seq<Option<Seq<u8>>>,
)
    requires
        all_readable(reads),
    ensures
        tree_read::read_trees(reads, store, dir, ids) is Ok,
{
    let all = tree_read::answers(reads, dir, ids);
    assert forall|n: int| 0 <= n <= all.len() implies tree_read::first_error(
        #[trigger] all.take(n),
    ) is None by {
        lemma_no_error_before(reads, dir, ids, n);
    }
    assert(all.take(all.len() as int) =~= all);
}

proof fn lemma_no_error_before(
    reads: Reads,
    dir: PathView,
    ids: Seq<Option<Seq<u8>>>,
    n: int,
)
    requires
        all_readable(reads),
        0 <= n <= ids.len(),
    ensures
        tree_read::first_error(tree_read::answers(reads, dir, ids).take(n)) is None,
    decreases n,
{
    let all = tree_read::answers(reads, dir, ids);
    if n > 0 {
        lemma_no_error_before(reads, dir, ids, n - 1);
        assert(all.take(n).drop_last() =~= all.take(n - 1));
        assert(all.take(n).last() == all[n - 1]);
        if let Some(id) = ids[n - 1] {
            assert(reads(dir, id) is Ok);
        }
    }
}

/// If every tree can be read, the trees of a value can.
pub proof fn lemma_readable_value(
    reads: Reads,
    store: Store,
    dir: PathView,
    value: MergedValueView,
)
    requires
        all_readable(reads),
    ensures
        tree_read::read_trees(reads, store, dir, tree_read::tree_ids_of(value)) is Ok,
{
    lemma_readable(reads, store, dir, tree_read::tree_ids_of(value));
}

/// If every tree can be read, the trees on both sides of a difference can.
pub proof fn lemma_readable_pair(pair: TreePair, dir: PathView, diff: Diff<MergedValueView>)
    requires
        all_readable(pair.reads),
    ensures
        read_pair(pair.reads, pair.store, dir, diff) is Ok,
{
    lemma_readable(
        pair.reads,
        pair.store,
        dir,
        tree_read::tree_ids_or_absent(diff.before),
    );
    lemma_readable(pair.reads, pair.store, dir, tree_read::tree_ids_or_absent(diff.after));
}

/// If every tree can be read, every path has a value.
pub proof fn lemma_all_values(reads: Reads, store: Store, root: MergedValueView, path: PathView)
    requires
        all_readable(reads),
    ensures
        path_lookup::value_at(reads, store, root, path) is Ok,
    decreases path.len(),
{
    if path.len() > 0 {
        let dir = path.drop_last();
        lemma_all_values(reads, store, root, dir);
        let value = path_lookup::value_at(reads, store, root, dir)->Ok_0;
        lemma_readable(reads, store, dir, tree_read::tree_ids_of(value));
    }
}

/// Without a matcher to select paths, a difference is shown at exactly the paths
/// at which the values differ, and it shows the values on both sides, if all
/// trees can be read.
pub proof fn law_all_differences(pair: TreePair, path: PathView)
    requires
        pair.valid(),
        all_readable(pair.reads),
    ensures
        pair.before_at(path) is Ok,
        pair.after_at(path) is Ok,
        pair.shown_diff(&EverythingMatcher)(path) == (if pair.before_at(path) != pair.after_at(
            path,
        ) {
            Some(
                Ok::<Diff<MergedValueView>, BackendError>(
                    Diff { before: pair.before_at(path)->Ok_0, after: pair.after_at(path)->Ok_0 },
                ),
            )
        } else {
            None
        }),
{
    let matcher = &EverythingMatcher;
    lemma_all_values(pair.reads, pair.store, pair.before, path);
    lemma_all_values(pair.reads, pair.store, pair.after, path);
    let diff = pair.diff_at(matcher, path);
    lemma_readable(
        pair.reads,
        pair.store,
        path,
        tree_read::tree_ids_or_absent(diff.before),
    );
    lemma_readable(pair.reads, pair.store, path, tree_read::tree_ids_or_absent(diff.after));
    let a = pair.before_at(path)->Ok_0;
    let b = pair.after_at(path)->Ok_0;
    if merge::is_absent(a) && merge::is_absent(b) {
        assert(a =~= b);
    }
}

/// The same trees in the opposite direction.
pub open spec fn reversed_pair(pair: TreePair) -> TreePair {
    TreePair { before: pair.after, after: pair.before, ..pair }
}

/// The differences in the opposite direction are the same differences the other
/// way round.
pub proof fn law_reversed_differences<M: Matcher>(pair: TreePair, matcher: &M, path: PathView)
    ensures
        match pair.shown_diff(matcher)(path) {
            Some(Ok(diff)) => reversed_pair(pair).shown_diff(matcher)(path) == Some(
                Ok::<Diff<MergedValueView>, BackendError>(
                    Diff { before: diff.after, after: diff.before },
                ),
            ),
            Some(Err(_)) => reversed_pair(pair).shown_diff(matcher)(path) matches Some(Err(_)),
            None => reversed_pair(pair).shown_diff(matcher)(path) is None,
        },
{
    let back = reversed_pair(pair);
    let diff = pair.diff_at(matcher, path);
    let other = back.diff_at(matcher, path);
    assert(other.before == diff.after && other.after == diff.before);
}

/// Nothing differs between a tree and itself, if it can be read.
pub proof fn law_no_differences<M: Matcher>(pair: TreePair, matcher: &M, path: PathView)
    requires
        pair.before == pair.after,
        read_pair(
            pair.reads,
            pair.store,
            PathView::empty(),
            Diff { before: pair.before, after: pair.after },
        ) is Ok,
    ensures
        pair.shown_diff(matcher)(path) is None,
{
    if path.len() > 0 {
        assert(path.take(0) =~= PathView::empty());
        lemma_nothing_below_same(pair, matcher, PathView::empty(), path);
    } else {
        assert(path =~= PathView::empty());
    }
}

/// The differences between two trees can be adapted for a file system: there is
/// no file that takes the place of a directory inside a directory that a file
/// takes the place of.
pub proof fn law_differences_for_file_system<M: Matcher>(
    pair: TreePair,
    matcher: &M,
    entries: Seq<(PathView, DiffResult)>,
)
    requires
        pair.valid(),
        listing::tabulates(order::path_order(), entries, pair.shown_diff(matcher)),
    ensures
        diff_adapters::replaced_apart(None, entries),
{
    order::lemma_path_order();
    let f = pair.shown_diff(matcher);
    let less = order::path_order();
    assert forall|i: int, j: int|
        0 <= i < j < entries.len() && repo_path::path_starts_with(
            (#[trigger] entries[j]).0,
            (#[trigger] entries[i]).0,
        ) && diff_adapters::is_replaced(entries[i].1) implies !diff_adapters::is_replaced(
        entries[j].1,
    ) by {
        let p = entries[i].0;
        let q = entries[j].0;
        listing::lemma_lookup_at(less, entries, i);
        listing::lemma_lookup_at(less, entries, j);
        assert(listing::lookup(entries, p) == f(p));
        assert(listing::lookup(entries, q) == f(q));
        assert(less(p, q));
        order::lemma_paths(p, q, p);
        if p.len() > 0 {
            lemma_shown_differ(pair, matcher, p);
            if q.len() == p.len() {
                assert(q =~= q.take(p.len() as int));
            }
            path_lookup::lemma_below_file(pair.reads, pair.store, pair.after, p, q);
            let absent = merge::absent_terms::<TreeValueView>();
            assert(merge::is_absent(absent));
        } else {
            assert(p =~= PathView::empty());
        }
    }
}

} // verus!
