//! What walking a merged tree gives: the values at its paths, in order.

use crate::backend;
use crate::backend::BackendError;
use crate::listing;
use crate::matchers::Matcher;
use crate::merge;
use crate::merged_tree;
use crate::order;
use crate::path_lookup;
use crate::repo_path;
use crate::repo_path::NameView;
use crate::repo_path::PathView;
use crate::store::Store;
use crate::tree;
use crate::tree::TreeModel;
use crate::tree_read;
use crate::tree_read::Reads;
use crate::tree_value;
use crate::tree_value::MergedValueView;
use crate::tree_value::TreeValueView;
use crate::tree_walk;
use vstd::prelude::*;

verus! {

/// An entry that a walk gives: a value, or an error at a directory whose trees
/// could not be read.
pub type WalkEntry = (PathView, Result<MergedValueView, BackendError>);

/// All that a walk gives from the given state on, if it ends within `steps`
/// steps: the next entry is given, unless all its terms are trees or absent.
/// Then its trees are read, and the walk goes on with what they hold.
pub open spec fn walk_run<M: Matcher>(
    reads: Reads,
    store: Store,
    matcher: &M,
    conflicts_only: bool,
    todo: Seq<(PathView, MergedValueView)>,
    steps: nat,
) -> Option<Seq<WalkEntry>>
    decreases steps,
{
    if todo.len() == 0 {
        Some(Seq::empty())
    } else if steps == 0 {
        None
    } else {
        let (path, value) = todo[0];
        let rest = todo.drop_first();
        if !tree_value::only_trees(value) {
            prepend(
                (path, Ok(value)),
                walk_run(reads, store, matcher, conflicts_only, rest, (steps - 1) as nat),
            )
        } else {
            match tree_read::read_trees(reads, store, path, tree_read::tree_ids_of(value)) {
                Err(err) => prepend(
                    (path, Err(err)),
                    walk_run(reads, store, matcher, conflicts_only, rest, (steps - 1) as nat),
                ),
                Ok(trees) => walk_run(
                    reads,
                    store,
                    matcher,
                    conflicts_only,
                    tree_walk::children(matcher, conflicts_only, trees) + rest,
                    (steps - 1) as nat,
                ),
            }
        }
    }
}

/// The entries with one more in front.
pub open spec fn prepend<A>(entry: A, entries: Option<Seq<A>>) -> Option<Seq<A>> {
    match entries {
        Some(entries) => Some(seq![entry] + entries),
        None => None,
    }
}

/// Whether the matcher visits all directories on the way to `path`.
pub open spec fn reachable<M: Matcher>(matcher: &M, path: PathView) -> bool {
    forall|k: int| 0 < k < path.len() ==> matcher.visits(#[trigger] path.take(k))
}

/// Whether a walk goes on to a value at a path.
pub open spec fn kept<M: Matcher>(
    matcher: &M,
    conflicts_only: bool,
    path: PathView,
    value: MergedValueView,
) -> bool {
    path.len() == 0 || ((conflicts_only ==> value.len() != 1) && (if tree_value::is_tree(value) {
        matcher.visits(path)
    } else {
        matcher.selects(path)
    }))
}

/// What a walk gives at a path: the value there, if it has a term that is
/// neither a tree nor absent, and nothing in directories, unless their trees
/// cannot be read.
pub open spec fn walk_value<M: Matcher>(
    reads: Reads,
    store: Store,
    root: MergedValueView,
    matcher: &M,
    conflicts_only: bool,
) -> spec_fn(PathView) -> Option<Result<MergedValueView, BackendError>> {
    |path: PathView|
        match path_lookup::value_at(reads, store, root, path) {
            Ok(value) => if !reachable(matcher, path) || !kept(
                matcher,
                conflicts_only,
                path,
                value,
            ) {
                None
            } else if !tree_value::only_trees(value) {
                Some(Ok(value))
            } else {
                match tree_read::read_trees(reads, store, path, tree_read::tree_ids_of(value)) {
                    Err(err) => Some(Err(err)),
                    Ok(_) => None,
                }
            },
            Err(_) => None,
        }
}

/// Whether `path` is one of the paths to visit or lies below one.
pub open spec fn covered<V>(todo: Seq<(PathView, V)>, path: PathView) -> bool {
    exists|i: int|
        0 <= i < todo.len() && repo_path::path_starts_with(path, (#[trigger] todo[i]).0)
}

/// Whether the paths are in order and none lies below another.
pub open spec fn apart<V>(todo: Seq<(PathView, V)>) -> bool {
    &&& listing::sorted_by(order::path_order(), todo)
    &&& forall|i: int, j: int|
        0 <= i < j < todo.len() ==> !repo_path::path_starts_with(
            (#[trigger] todo[j]).0,
            (#[trigger] todo[i]).0,
        )
}

/// Whether a walk can be in this state: the paths are apart, and the walk has
/// come to them and found the values there.
spec fn valid_todo<M: Matcher>(
    reads: Reads,
    store: Store,
    root: MergedValueView,
    matcher: &M,
    conflicts_only: bool,
    todo: Seq<(PathView, MergedValueView)>,
) -> bool {
    &&& apart(todo)
    &&& forall|i: int|
        0 <= i < todo.len() ==> {
            &&& path_lookup::value_at(reads, store, root, (#[trigger] todo[i]).0) == Ok::<
                MergedValueView,
                BackendError,
            >(todo[i].1)
            &&& reachable(matcher, todo[i].0)
            &&& kept(matcher, conflicts_only, todo[i].0, todo[i].1)
        }
}

/// A value that is not there has no trees to read.
proof fn lemma_absent_value(value: MergedValueView, reads: Reads, store: Store, dir: PathView)
    requires
        merge::is_absent(value),
    ensures
        value == merge::absent_terms::<TreeValueView>(),
        tree_value::only_trees(value),
        !tree_value::is_tree(value),
        tree_read::read_trees(reads, store, dir, tree_read::tree_ids_of(value)) == Ok::<
            Seq<TreeModel>,
            BackendError,
        >(seq![tree::empty_tree(store, dir)]),
{
    assert(value =~= merge::absent_terms::<TreeValueView>());
    assert(tree_read::tree_ids_of(value) =~= seq![None]);
    tree_read::lemma_read_absent(reads, store, dir);
}

/// A walk gives nothing below what is not a directory.
proof fn lemma_nothing_below_file<M: Matcher>(
    reads: Reads,
    store: Store,
    root: MergedValueView,
    matcher: &M,
    conflicts_only: bool,
    base: PathView,
    path: PathView,
)
    requires
        repo_path::path_starts_with(path, base),
        path.len() > base.len(),
        path_lookup::value_at(reads, store, root, base) is Ok,
        !tree_value::is_tree(path_lookup::value_at(reads, store, root, base)->Ok_0),
    ensures
        walk_value(reads, store, root, matcher, conflicts_only)(path) is None,
{
    path_lookup::lemma_below_file(reads, store, root, base, path);
    lemma_absent_value(merge::absent_terms(), reads, store, path);
}

/// Below a directory that is resolved there is nothing that is not.
proof fn lemma_resolved_below(
    reads: Reads,
    store: Store,
    root: MergedValueView,
    base: PathView,
    path: PathView,
)
    requires
        tree_read::valid_reads(reads),
        repo_path::path_starts_with(path, base),
        path_lookup::value_at(reads, store, root, base) is Ok,
        path_lookup::value_at(reads, store, root, base)->Ok_0.len() == 1,
    ensures
        path_lookup::value_at(reads, store, root, path) is Ok ==> path_lookup::value_at(
            reads,
            store,
            root,
            path,
        )->Ok_0.len() == 1,
    decreases path.len(),
{
    if path.len() == base.len() {
        assert(path =~= path.take(base.len() as int));
    } else {
        let dir = path.drop_last();
        assert(dir.take(base.len() as int) =~= path.take(base.len() as int));
        lemma_resolved_below(reads, store, root, base, dir);
        if path_lookup::value_at(reads, store, root, path) is Ok {
            let value = path_lookup::value_at(reads, store, root, dir)->Ok_0;
            if tree_value::is_tree(value) {
                let ids = tree_read::tree_ids_of(value);
                tree_read::lemma_read_trees(reads, store, dir, ids);
                let trees = tree_read::read_trees(reads, store, dir, ids)->Ok_0;
                tree::lemma_single_tree_value(trees, path.last());
            }
        }
    }
}

/// The entries that a walk goes on to in a directory, by name.
proof fn lemma_children<M: Matcher>(
    matcher: &M,
    conflicts_only: bool,
    trees: Seq<TreeModel>,
)
    requires
        trees.len() > 0,
        forall|i: int|
            0 <= i < trees.len() ==> backend::sorted_entries((#[trigger] trees[i]).entries),
    ensures
        ({
            let dir = trees[0].dir;
            let c = tree_walk::children(matcher, conflicts_only, trees);
            &&& apart(c)
            &&& forall|i: int|
                0 <= i < c.len() ==> {
                    &&& (#[trigger] c[i]).0.len() == dir.len() + 1
                    &&& c[i].0.drop_last() == dir
                    &&& tree::has_name(trees, c[i].0.last())
                    &&& c[i].1 == tree::tree_value(trees, c[i].0.last())
                    &&& kept(matcher, conflicts_only, c[i].0, c[i].1)
                }
            &&& forall|name: NameView|
                tree::has_name(trees, name) && kept(
                    matcher,
                    conflicts_only,
                    dir.push(name),
                    tree::tree_value(trees, name),
                ) ==> exists|i: int| 0 <= i < c.len() && (#[trigger] c[i]).0 == #[trigger] dir.push(name)
        }),
{
    let dir = trees[0].dir;
    let less = order::name_order();
    order::lemma_name_order();
    let f = tree::listed_entries(trees);
    lemma_entries_listed(trees);
    let t = listing::table(less, f);
    let keep = tree_walk::kept_value(matcher, conflicts_only, dir);
    listing::lemma_filter_mapped(less, t, keep);
    let s = listing::filter_mapped(t, keep);
    let c = tree_walk::children(matcher, conflicts_only, trees);
    assert forall|i: int| 0 <= i < c.len() implies {
        &&& (#[trigger] c[i]).0.len() == dir.len() + 1
        &&& c[i].0.drop_last() == dir
        &&& tree::has_name(trees, c[i].0.last())
        &&& c[i].1 == tree::tree_value(trees, c[i].0.last())
        &&& kept(matcher, conflicts_only, c[i].0, c[i].1)
    } by {
        let name = s[i].0;
        assert(c[i].0 == dir.push(name));
        assert(c[i].0.drop_last() =~= dir);
        listing::lemma_lookup_at(less, s, i);
        assert(listing::lookup(t, name) == f(name));
    }
    lemma_in_dir_apart(dir, s);
    assert forall|name: NameView|
        tree::has_name(trees, name) && kept(
            matcher,
            conflicts_only,
            dir.push(name),
            tree::tree_value(trees, name),
        ) implies exists|i: int| 0 <= i < c.len() && (#[trigger] c[i]).0 == #[trigger] dir.push(name) by {
        assert(listing::lookup(t, name) == f(name));
        assert(listing::lookup(s, name) is Some);
        let i = listing::lemma_lookup_some(s, name);
        assert(c[i].0 == dir.push(name));
    }
}

/// Sorted names in a directory give paths that are apart.
pub proof fn lemma_in_dir_apart<V>(dir: PathView, s: Seq<(NameView, V)>)
    requires
        listing::sorted_by(order::name_order(), s),
    ensures
        apart(tree_walk::in_dir(dir, s)),
{
    let c = tree_walk::in_dir(dir, s);
    let less = order::path_order();
    let names = order::name_order();
    order::lemma_name_order();
    assert forall|i: int, j: int| 0 <= i < j < c.len() implies less(
        (#[trigger] c[i]).0,
        (#[trigger] c[j]).0,
    ) && !repo_path::path_starts_with(c[j].0, c[i].0) by {
        assert(names(s[i].0, s[j].0));
        repo_path::lemma_siblings_order(dir, s[i].0, s[j].0);
        if repo_path::path_starts_with(c[j].0, c[i].0) {
            assert(c[j].0.take(c[i].0.len() as int) =~= c[j].0);
            assert(dir.push(s[i].0).last() == dir.push(s[j].0).last());
            assert(!names(s[i].0, s[i].0));
        }
    }
}

/// The entries of trees can be listed.
pub proof fn lemma_entries_listed(trees: Seq<TreeModel>)
    ensures
        listing::tabulates(
            order::name_order(),
            listing::table(order::name_order(), tree::listed_entries(trees)),
            tree::listed_entries(trees),
        ),
{
    order::lemma_name_order();
    let keys = all_names(trees);
    let f = tree::listed_entries(trees);
    assert forall|name: NameView| (#[trigger] f(name)) is Some implies keys.contains(name) by {
        let t = choose|t: int|
            0 <= t < trees.len() && (#[trigger] listing::lookup(trees[t].entries, name)) is Some;
        lemma_all_names(trees, t, name);
    }
    listing::lemma_table_exists(order::name_order(), keys, f);
}

/// The names of all the entries of the trees.
pub open spec fn all_names(trees: Seq<TreeModel>) -> Seq<NameView>
    decreases trees.len(),
{
    if trees.len() == 0 {
        Seq::empty()
    } else {
        let entries = trees.last().entries;
        all_names(trees.drop_last()) + Seq::new(entries.len(), |i: int| entries[i].0)
    }
}

/// A name that one of the trees has is among all their names.
pub proof fn lemma_all_names(trees: Seq<TreeModel>, t: int, name: NameView)
    requires
        0 <= t < trees.len(),
        listing::lookup(trees[t].entries, name) is Some,
    ensures
        all_names(trees).contains(name),
    decreases trees.len(),
{
    let entries = trees.last().entries;
    let own = Seq::new(entries.len(), |i: int| entries[i].0);
    let rest = all_names(trees.drop_last());
    if t == trees.len() - 1 {
        let i = listing::lemma_lookup_some(entries, name);
        assert((rest + own)[rest.len() + i] == name);
    } else {
        lemma_all_names(trees.drop_last(), t, name);
        let i = choose|i: int| 0 <= i < rest.len() && rest[i] == name;
        assert((rest + own)[i] == name);
    }
}

/// What is to be visited when a directory is entered: its entries, which lie
/// below it, and then the rest.
pub proof fn lemma_apart_concat<V>(
    dir: PathView,
    c: Seq<(PathView, V)>,
    rest: Seq<(PathView, V)>,
)
    requires
        apart(c),
        apart(rest),
        forall|i: int|
            0 <= i < c.len() ==> (#[trigger] c[i]).0.len() > dir.len()
                && repo_path::path_starts_with(c[i].0, dir),
        forall|j: int|
            0 <= j < rest.len() ==> order::path_less(dir, (#[trigger] rest[j]).0)
                && !repo_path::path_starts_with(rest[j].0, dir),
    ensures
        apart(c + rest),
{
    let all = c + rest;
    let less = order::path_order();
    assert forall|i: int, j: int| 0 <= i < j < all.len() implies less(
        (#[trigger] all[i]).0,
        (#[trigger] all[j]).0,
    ) && !repo_path::path_starts_with(all[j].0, all[i].0) by {
        let n = c.len();
        if j < n {
            assert(all[i] == c[i] && all[j] == c[j]);
            assert(less(c[i].0, c[j].0));
        } else if i >= n {
            assert(all[i] == rest[i - n] && all[j] == rest[j - n]);
            assert(less(rest[i - n].0, rest[j - n].0));
        } else {
            assert(all[i] == c[i] && all[j] == rest[j - n]);
            repo_path::lemma_below_before(dir, c[i].0, rest[j - n].0);
            if repo_path::path_starts_with(rest[j - n].0, c[i].0) {
                repo_path::lemma_starts_with_trans(rest[j - n].0, c[i].0, dir);
            }
        }
    }
}

/// What lies below the first path to visit lies below no other.
pub proof fn lemma_covered_once<V>(todo: Seq<(PathView, V)>, path: PathView)
    requires
        apart(todo),
        todo.len() > 0,
        repo_path::path_starts_with(path, todo[0].0),
    ensures
        !covered(todo.drop_first(), path),
{
    let rest = todo.drop_first();
    if covered(rest, path) {
        let i = choose|i: int|
            0 <= i < rest.len() && repo_path::path_starts_with(path, (#[trigger] rest[i]).0);
        assert(rest[i] == todo[i + 1]);
        let less = order::path_order();
        assert(less(todo[0].0, todo[i + 1].0));
        repo_path::lemma_bases_nested(path, todo[0].0, todo[i + 1].0);
        assert(repo_path::path_starts_with(todo[0].0, todo[i + 1].0));
        repo_path::lemma_prefix_before(todo[i + 1].0, todo[0].0);
        order::lemma_paths(todo[0].0, todo[i + 1].0, todo[0].0);
    }
}

/// A listing of what lies below the paths to visit, with an entry for the first
/// path in front.
pub proof fn lemma_listed_first<V, W>(
    todo: Seq<(PathView, V)>,
    out: Seq<(PathView, W)>,
    value: W,
    f: spec_fn(PathView) -> Option<W>,
)
    requires
        apart(todo),
        todo.len() > 0,
        listing::tabulates(
            order::path_order(),
            out,
            |p: PathView|
                if covered(todo.drop_first(), p) {
                    f(p)
                } else {
                    None
                },
        ),
        f(todo[0].0) == Some(value),
        forall|p: PathView|
            #[trigger] repo_path::path_starts_with(p, todo[0].0) && p != todo[0].0 ==> f(p) is None,
    ensures
        listing::tabulates(
            order::path_order(),
            seq![(todo[0].0, value)] + out,
            |p: PathView|
                if covered(todo, p) {
                    f(p)
                } else {
                    None
                },
        ),
{
    let less = order::path_order();
    order::lemma_path_order();
    let q = todo[0].0;
    let rest = todo.drop_first();
    let g = |p: PathView|
        if covered(rest, p) {
            f(p)
        } else {
            None
        };
    let h = |p: PathView|
        if covered(todo, p) {
            f(p)
        } else {
            None
        };
    assert forall|i: int| 0 <= i < out.len() implies less(q, (#[trigger] out[i]).0) by {
        listing::lemma_lookup_at(less, out, i);
        assert(listing::lookup(out, out[i].0) == g(out[i].0));
        assert(covered(rest, out[i].0));
        let j = choose|j: int|
            0 <= j < rest.len() && repo_path::path_starts_with(out[i].0, (#[trigger] rest[j]).0);
        assert(rest[j] == todo[j + 1]);
        assert(less(todo[0].0, todo[j + 1].0));
        repo_path::lemma_prefix_before(rest[j].0, out[i].0);
        order::lemma_paths(q, rest[j].0, out[i].0);
    }
    assert(out.insert(0, (q, value)) =~= seq![(q, value)] + out);
    listing::lemma_lookup_insert(less, out, 0, q, value);
    let all = seq![(q, value)] + out;
    assert forall|p: PathView| #[trigger] listing::lookup(all, p) == h(p) by {
        assert(listing::lookup(out, p) == g(p));
        lemma_covered_first(todo, p);
        if repo_path::path_starts_with(p, q) {
            lemma_covered_once(todo, p);
        }
        if p == q {
            repo_path::lemma_starts_with_trans(q, q, q);
        }
    }
}

/// A path is covered by the first path to visit or by the others.
pub proof fn lemma_covered_first<V>(todo: Seq<(PathView, V)>, path: PathView)
    requires
        todo.len() > 0,
    ensures
        covered(todo, path) == (repo_path::path_starts_with(path, todo[0].0) || covered(
            todo.drop_first(),
            path,
        )),
        repo_path::path_starts_with(todo[0].0, todo[0].0),
{
    let rest = todo.drop_first();
    assert(todo[0].0.take(todo[0].0.len() as int) =~= todo[0].0);
    if covered(todo, path) {
        let i = choose|i: int|
            0 <= i < todo.len() && repo_path::path_starts_with(path, (#[trigger] todo[i]).0);
        if i > 0 {
            assert(rest[i - 1] == todo[i]);
        }
    }
    if covered(rest, path) {
        let i = choose|i: int|
            0 <= i < rest.len() && repo_path::path_starts_with(path, (#[trigger] rest[i]).0);
        assert(rest[i] == todo[i + 1]);
    }
}

/// What is found in a directory whose trees were read: its entries that the
/// walk goes on to cover all that the walk gives there.
proof fn lemma_directory<M: Matcher>(
    reads: Reads,
    store: Store,
    root: MergedValueView,
    matcher: &M,
    conflicts_only: bool,
    dir: PathView,
    path: PathView,
)
    requires
        tree_read::valid_reads(reads),
        root.len() % 2 == 1,
        path_lookup::value_at(reads, store, root, dir) is Ok,
        tree_value::only_trees(path_lookup::value_at(reads, store, root, dir)->Ok_0),
        tree_read::read_trees(
            reads,
            store,
            dir,
            tree_read::tree_ids_of(path_lookup::value_at(reads, store, root, dir)->Ok_0),
        ) is Ok,
        path_lookup::value_at(reads, store, root, dir)->Ok_0.len() % 2 == 1,
        repo_path::path_starts_with(path, dir),
        walk_value(reads, store, root, matcher, conflicts_only)(path) is Some,
    ensures
        covered(
            tree_walk::children(
                matcher,
                conflicts_only,
                tree_read::read_trees(
                    reads,
                    store,
                    dir,
                    tree_read::tree_ids_of(path_lookup::value_at(reads, store, root, dir)->Ok_0),
                )->Ok_0,
            ),
            path,
        ),
{
    let value = path_lookup::value_at(reads, store, root, dir)->Ok_0;
    let ids = tree_read::tree_ids_of(value);
    let trees = tree_read::read_trees(reads, store, dir, ids)->Ok_0;
    let c = tree_walk::children(matcher, conflicts_only, trees);
    tree_read::lemma_read_trees(reads, store, dir, ids);
    assert(path.take(dir.len() as int) == dir);
    if path.len() == dir.len() {
        assert(path =~= dir);
    } else if !tree_value::is_tree(value) {
        lemma_nothing_below_file(reads, store, root, matcher, conflicts_only, dir, path);
    } else {
        let name = path[dir.len() as int];
        let child = dir.push(name);
        assert(child =~= path.take(dir.len() as int + 1));
        assert(child.drop_last() =~= dir);
        let found = tree::tree_value(trees, name);
        assert(path_lookup::value_at(reads, store, root, child) == Ok::<
            MergedValueView,
            BackendError,
        >(found));
        if !tree::has_name(trees, name) {
            tree::lemma_missing_value(trees, name);
            lemma_absent_value(found, reads, store, child);
            if path.len() == child.len() {
                assert(path =~= child);
            } else {
                lemma_nothing_below_file(reads, store, root, matcher, conflicts_only, child, path);
            }
        } else if !kept(matcher, conflicts_only, child, found) {
            if path.len() == child.len() {
                assert(path =~= child);
            } else if !tree_value::is_tree(found) {
                lemma_nothing_below_file(reads, store, root, matcher, conflicts_only, child, path);
            } else if !matcher.visits(child) {
                assert(!matcher.visits(path.take(dir.len() as int + 1)));
            } else {
                lemma_resolved_below(reads, store, root, child, path);
            }
        }
        lemma_children(matcher, conflicts_only, trees);
        assert(tree::has_name(trees, name) && kept(matcher, conflicts_only, dir.push(name), found));
        let i = choose|i: int| 0 <= i < c.len() && (#[trigger] c[i]).0 == dir.push(name);
        assert(repo_path::path_starts_with(path, c[i].0));
    }
}

/// The values at all paths have an odd number of terms.
pub proof fn lemma_odd_values(
    reads: Reads,
    store: Store,
    root: MergedValueView,
    path: PathView,
)
    requires
        tree_read::valid_reads(reads),
        root.len() % 2 == 1,
        path_lookup::value_at(reads, store, root, path) is Ok,
    ensures
        path_lookup::value_at(reads, store, root, path)->Ok_0.len() % 2 == 1,
    decreases path.len(),
{
    if path.len() > 0 {
        let dir = path.drop_last();
        lemma_odd_values(reads, store, root, dir);
        let value = path_lookup::value_at(reads, store, root, dir)->Ok_0;
        if tree_value::is_tree(value) {
            tree_read::lemma_read_trees(reads, store, dir, tree_read::tree_ids_of(value));
        }
    }
}

/// The state of a walk that enters a directory is valid.
proof fn lemma_entered<M: Matcher>(
    reads: Reads,
    store: Store,
    root: MergedValueView,
    matcher: &M,
    conflicts_only: bool,
    todo: Seq<(PathView, MergedValueView)>,
)
    requires
        tree_read::valid_reads(reads),
        root.len() % 2 == 1,
        valid_todo(reads, store, root, matcher, conflicts_only, todo),
        todo.len() > 0,
        tree_value::only_trees(todo[0].1),
        tree_read::read_trees(reads, store, todo[0].0, tree_read::tree_ids_of(todo[0].1)) is Ok,
    ensures
        ({
            let trees = tree_read::read_trees(
                reads,
                store,
                todo[0].0,
                tree_read::tree_ids_of(todo[0].1),
            )->Ok_0;
            let c = tree_walk::children(matcher, conflicts_only, trees);
            &&& valid_todo(
                reads,
                store,
                root,
                matcher,
                conflicts_only,
                c + todo.drop_first(),
            )
            &&& forall|i: int|
                0 <= i < c.len() ==> repo_path::path_starts_with(
                    (#[trigger] c[i]).0,
                    todo[0].0,
                )
        }),
{
    let dir = todo[0].0;
    let value = todo[0].1;
    let ids = tree_read::tree_ids_of(value);
    let trees = tree_read::read_trees(reads, store, dir, ids)->Ok_0;
    let c = tree_walk::children(matcher, conflicts_only, trees);
    let rest = todo.drop_first();
    let next = c + rest;
    let less = order::path_order();
    lemma_odd_values(reads, store, root, dir);
    tree_read::lemma_read_trees(reads, store, dir, ids);
    assert(trees[0].dir == dir);
    lemma_children(matcher, conflicts_only, trees);
    assert forall|i: int| 0 <= i < c.len() implies repo_path::path_starts_with(
        (#[trigger] c[i]).0,
        dir,
    ) && c[i].0.len() > dir.len() by {
        assert(c[i].0.take(dir.len() as int) =~= c[i].0.drop_last());
    }
    assert forall|i: int, j: int| 0 <= i < j < rest.len() implies less(
        (#[trigger] rest[i]).0,
        (#[trigger] rest[j]).0,
    ) && !repo_path::path_starts_with(rest[j].0, rest[i].0) by {
        assert(rest[i] == todo[i + 1] && rest[j] == todo[j + 1]);
        assert(less(todo[i + 1].0, todo[j + 1].0));
    }
    assert forall|j: int| 0 <= j < rest.len() implies order::path_less(
        dir,
        (#[trigger] rest[j]).0,
    ) && !repo_path::path_starts_with(rest[j].0, dir) by {
        assert(rest[j] == todo[j + 1]);
        assert(less(todo[0].0, todo[j + 1].0));
    }
    lemma_apart_concat(dir, c, rest);
    assert forall|i: int| 0 <= i < next.len() implies {
        &&& path_lookup::value_at(reads, store, root, (#[trigger] next[i]).0) == Ok::<
            MergedValueView,
            BackendError,
        >(next[i].1)
        &&& reachable(matcher, next[i].0)
        &&& kept(matcher, conflicts_only, next[i].0, next[i].1)
    } by {
        if i < c.len() {
            assert(next[i] == c[i]);
            if !tree_value::is_tree(value) {
                lemma_absent_value(value, reads, store, dir);
                let name = c[i].0.last();
                let t = choose|t: int|
                    0 <= t < trees.len() && (#[trigger] listing::lookup(
                        trees[t].entries,
                        name,
                    )) is Some;
                let k = listing::lemma_lookup_some(trees[t].entries, name);
                assert(false);
            }
            assert forall|k: int| 0 < k < c[i].0.len() implies matcher.visits(
                #[trigger] c[i].0.take(k),
            ) by {
                assert(c[i].0.take(k) =~= dir.take(k));
                if k == dir.len() {
                    assert(dir.take(k) =~= dir);
                    assert(kept(matcher, conflicts_only, dir, value));
                }
            }
        } else {
            assert(next[i] == rest[i - c.len()]);
            assert(rest[i - c.len()] == todo[i - c.len() + 1]);
        }
    }
}

proof fn lemma_walk<M: Matcher>(
    reads: Reads,
    store: Store,
    root: MergedValueView,
    matcher: &M,
    conflicts_only: bool,
    todo: Seq<(PathView, MergedValueView)>,
    steps: nat,
)
    requires
        tree_read::valid_reads(reads),
        root.len() % 2 == 1,
        valid_todo(reads, store, root, matcher, conflicts_only, todo),
        walk_run(reads, store, matcher, conflicts_only, todo, steps) is Some,
    ensures
        listing::tabulates(
            order::path_order(),
            walk_run(reads, store, matcher, conflicts_only, todo, steps)->0,
            |p: PathView|
                if covered(todo, p) {
                    walk_value(reads, store, root, matcher, conflicts_only)(p)
                } else {
                    None
                },
        ),
    decreases steps,
{
    let f = walk_value(reads, store, root, matcher, conflicts_only);
    let h = |p: PathView|
        if covered(todo, p) {
            f(p)
        } else {
            None
        };
    let out = walk_run(reads, store, matcher, conflicts_only, todo, steps)->0;
    if todo.len() == 0 {
        assert forall|p: PathView| #[trigger] listing::lookup(out, p) == h(p) by {}
    } else {
        let (q, value) = todo[0];
        let rest = todo.drop_first();
        let fewer = (steps - 1) as nat;
        let less = order::path_order();
        assert forall|i: int, j: int| 0 <= i < j < rest.len() implies less(
            (#[trigger] rest[i]).0,
            (#[trigger] rest[j]).0,
        ) && !repo_path::path_starts_with(rest[j].0, rest[i].0) by {
            assert(rest[i] == todo[i + 1] && rest[j] == todo[j + 1]);
            assert(less(todo[i + 1].0, todo[j + 1].0));
        }
        assert(valid_todo(reads, store, root, matcher, conflicts_only, rest)) by {
            assert forall|i: int| 0 <= i < rest.len() implies {
                &&& path_lookup::value_at(reads, store, root, (#[trigger] rest[i]).0) == Ok::<
                    MergedValueView,
                    BackendError,
                >(rest[i].1)
                &&& reachable(matcher, rest[i].0)
                &&& kept(matcher, conflicts_only, rest[i].0, rest[i].1)
            } by {
                assert(rest[i] == todo[i + 1]);
            }
        }
        let ids = tree_read::tree_ids_of(value);
        if !tree_value::only_trees(value) {
            lemma_walk(reads, store, root, matcher, conflicts_only, rest, fewer);
            assert forall|p: PathView| #[trigger]
                repo_path::path_starts_with(p, q) && p != q implies f(p) is None by {
                if p.len() == q.len() {
                    assert(p =~= p.take(q.len() as int));
                }
                lemma_nothing_below_file(reads, store, root, matcher, conflicts_only, q, p);
            }
            lemma_listed_first(
                todo,
                walk_run(reads, store, matcher, conflicts_only, rest, fewer)->0,
                Ok(value),
                f,
            );
        } else {
            match tree_read::read_trees(reads, store, q, ids) {
                Err(err) => {
                    lemma_walk(reads, store, root, matcher, conflicts_only, rest, fewer);
                    if merge::is_absent(value) {
                        lemma_absent_value(value, reads, store, q);
                    }
                    assert forall|p: PathView| #[trigger]
                        repo_path::path_starts_with(p, q) && p != q implies f(p) is None by {
                        if p.len() == q.len() {
                            assert(p =~= p.take(q.len() as int));
                        }
                        let child = p.take(q.len() as int + 1);
                        assert(child.drop_last() =~= p.take(q.len() as int));
                        assert(p.take(child.len() as int) =~= child);
                        path_lookup::lemma_below_error(reads, store, root, child, p);
                    }
                    lemma_listed_first(
                        todo,
                        walk_run(reads, store, matcher, conflicts_only, rest, fewer)->0,
                        Err(err),
                        f,
                    );
                },
                Ok(trees) => {
                    let c = tree_walk::children(matcher, conflicts_only, trees);
                    let next = c + rest;
                    lemma_entered(reads, store, root, matcher, conflicts_only, todo);
                    lemma_walk(reads, store, root, matcher, conflicts_only, next, fewer);
                    lemma_odd_values(reads, store, root, q);
                    let g = |p: PathView|
                        if covered(next, p) {
                            f(p)
                        } else {
                            None
                        };
                    assert forall|p: PathView| #[trigger] listing::lookup(out, p) == h(p) by {
                        assert(listing::lookup(out, p) == g(p));
                        lemma_covered_first(todo, p);
                        lemma_covered_concat(c, rest, p);
                        if covered(c, p) {
                            let i = choose|i: int|
                                0 <= i < c.len() && repo_path::path_starts_with(
                                    p,
                                    (#[trigger] c[i]).0,
                                );
                            repo_path::lemma_starts_with_trans(p, c[i].0, q);
                        } else if repo_path::path_starts_with(p, q) && f(p) is Some {
                            lemma_directory(reads, store, root, matcher, conflicts_only, q, p);
                        }
                    }
                },
            }
        }
    }
}

/// What two lists of paths cover together.
pub proof fn lemma_covered_concat<V>(
    a: Seq<(PathView, V)>,
    b: Seq<(PathView, V)>,
    path: PathView,
)
    ensures
        covered(a + b, path) == (covered(a, path) || covered(b, path)),
{
    let all = a + b;
    if covered(all, path) {
        let i = choose|i: int|
            0 <= i < all.len() && repo_path::path_starts_with(path, (#[trigger] all[i]).0);
        if i < a.len() {
            assert(all[i] == a[i]);
        } else {
            assert(all[i] == b[i - a.len()]);
        }
    }
    if covered(a, path) {
        let i = choose|i: int|
            0 <= i < a.len() && repo_path::path_starts_with(path, (#[trigger] a[i]).0);
        assert(all[i] == a[i]);
    }
    if covered(b, path) {
        let i = choose|i: int|
            0 <= i < b.len() && repo_path::path_starts_with(path, (#[trigger] b[i]).0);
        assert(all[a.len() + i] == b[i]);
    }
}

/// A walk over the entries of a merged tree, or over its conflicts, gives the
/// values that are found at the paths of the tree, sorted by path: each value
/// that has a term which is neither a tree nor absent, if the matcher visits the
/// directories on the way to it and selects it. A walk over the conflicts gives
/// those that are not resolved. A directory whose trees cannot be read is
/// reported at its path, and what lies below it is left out.
pub proof fn law_walk<M: Matcher>(
    reads: Reads,
    store: Store,
    ids: Seq<Seq<u8>>,
    matcher: &M,
    conflicts_only: bool,
    steps: nat,
)
    requires
        tree_read::valid_reads(reads),
        ids.len() % 2 == 1,
        walk_run(
            reads,
            store,
            matcher,
            conflicts_only,
            tree_walk::walk_start(store, ids, conflicts_only).todo,
            steps,
        ) is Some,
    ensures
        listing::tabulates(
            order::path_order(),
            walk_run(
                reads,
                store,
                matcher,
                conflicts_only,
                tree_walk::walk_start(store, ids, conflicts_only).todo,
                steps,
            )->0,
            walk_value(reads, store, merged_tree::root_value(ids), matcher, conflicts_only),
        ),
{
    let root = merged_tree::root_value(ids);
    let todo = tree_walk::walk_start(store, ids, conflicts_only).todo;
    lemma_walk(reads, store, root, matcher, conflicts_only, todo, steps);
    let out = walk_run(reads, store, matcher, conflicts_only, todo, steps)->0;
    let f = walk_value(reads, store, root, matcher, conflicts_only);
    assert forall|p: PathView| #[trigger] listing::lookup(out, p) == f(p) by {
        assert(p.take(0) =~= PathView::empty());
        assert(repo_path::path_starts_with(p, todo[0].0));
        assert(covered(todo, p));
    }
}

} // verus!
