//! What differences and walks show of the files in trees.

use crate::backend::BackendError;
use crate::diff_adapters;
use crate::diff_adapters::DiffEntryView;
use crate::listing;
use crate::matchers::EverythingMatcher;
use crate::matchers::Matcher;
use crate::merge;
use crate::merge::Diff;
use crate::order;
use crate::path_lookup;
use crate::repo_path;
use crate::repo_path::PathView;
use crate::store::Store;
use crate::tree_diff;
use crate::tree_diff::DiffResult;
use crate::tree_diff_laws;
use crate::tree_diff_laws::TreePair;
use crate::tree_read::Reads;
use crate::tree_value;
use crate::tree_value::MergedValueView;
use crate::tree_value::TreeValueView;
use crate::tree_walk_laws;
use crate::value_laws;
use vstd::prelude::*;

verus! {

/// Whether a value has a term that is a file, a symlink or a submodule.
pub open spec fn has_file(value: MergedValueView) -> bool {
    exists|i: int|
        0 <= i < value.len() && match #[trigger] value[i] {
            Some(TreeValueView::Tree(_)) => false,
            Some(_) => true,
            None => false,
        }
}

/// The file-level part of a difference leaves it out if and only if neither side has a
/// file. It keeps a side that has one as it is, whatever is on the other side, and shows
/// nothing for a side that has none. What cannot be read is kept.
pub proof fn law_file_level_values(values: DiffResult)
    requires
        values is Ok ==> values->Ok_0.before.len() > 0 && values->Ok_0.after.len() > 0,
    ensures
        match values {
            Err(err) => diff_adapters::values_without_trees(values) == Some(
                Err::<Diff<MergedValueView>, BackendError>(err),
            ),
            Ok(diff) => match diff_adapters::values_without_trees(values) {
                None => !has_file(diff.before) && !has_file(diff.after),
                Some(Err(_)) => false,
                Some(Ok(rest)) => {
                    &&& has_file(diff.before) || has_file(diff.after)
                    &&& has_file(diff.before) ==> rest.before == diff.before
                    &&& !has_file(diff.before) ==> rest.before == seq![None::<TreeValueView>]
                    &&& has_file(diff.after) ==> rest.after == diff.after
                    &&& !has_file(diff.after) ==> rest.after == seq![None::<TreeValueView>]
                },
            },
        },
{
    if let Ok(diff) = values {
        value_laws::law_kinds_of_values(diff.before);
        value_laws::law_kinds_of_values(diff.after);
    }
}

/// What the differences between two trees show at a path, trees left out.
pub open spec fn file_level_diff(pair: TreePair, path: PathView) -> Option<DiffResult> {
    match pair.shown_diff(&EverythingMatcher)(path) {
        Some(values) => diff_adapters::values_without_trees(values),
        None => None,
    }
}

/// The file-level differences between two trees that can be read are at exactly the
/// paths where the values differ and one of them has a file. They show each side that has
/// a file with its value.
pub proof fn law_file_level_differences(pair: TreePair, path: PathView)
    requires
        pair.valid(),
        tree_diff_laws::all_readable(pair.reads),
    ensures
        pair.before_at(path) is Ok,
        pair.after_at(path) is Ok,
        ({
            let before = pair.before_at(path)->Ok_0;
            let after = pair.after_at(path)->Ok_0;
            match file_level_diff(pair, path) {
                None => before == after || (!has_file(before) && !has_file(after)),
                Some(Err(_)) => false,
                Some(Ok(diff)) => {
                    &&& before != after
                    &&& has_file(before) || has_file(after)
                    &&& has_file(before) ==> diff.before == before
                    &&& !has_file(before) ==> diff.before == seq![None::<TreeValueView>]
                    &&& has_file(after) ==> diff.after == after
                    &&& !has_file(after) ==> diff.after == seq![None::<TreeValueView>]
                },
            }
        }),
{
    tree_diff_laws::law_all_differences(pair, path);
    value_laws::law_arity_of_values(pair.reads, pair.store, pair.before, path);
    value_laws::law_arity_of_values(pair.reads, pair.store, pair.after, path);
    if let Some(values) = pair.shown_diff(&EverythingMatcher)(path) {
        law_file_level_values(values);
    }
}

/// A side of a difference that the matcher leaves something of: a directory that it
/// visits, or something else that it selects.
pub open spec fn seen_by<M: Matcher>(matcher: &M, path: PathView, value: MergedValueView) -> bool {
    if has_file(value) {
        matcher.selects(path)
    } else {
        value == seq![None::<TreeValueView>] || matcher.visits(path)
    }
}

/// What a matcher leaves of the differences between two trees that can be read: below
/// the root, a difference is shown if the matcher selects its path and visits all
/// directories on the way, with nothing for a side that the matcher does not see, if
/// that leaves a difference.
pub proof fn law_selected_differences<M: Matcher>(pair: TreePair, matcher: &M, path: PathView)
    requires
        pair.valid(),
        tree_diff_laws::all_readable(pair.reads),
        path.len() > 0,
    ensures
        ({
            let nothing = seq![None::<TreeValueView>];
            let before = pair.before_at(path)->Ok_0;
            let after = pair.after_at(path)->Ok_0;
            let seen_before = if seen_by(matcher, path, before) {
                before
            } else {
                nothing
            };
            let seen_after = if seen_by(matcher, path, after) {
                after
            } else {
                nothing
            };
            let on_the_way = forall|k: int|
                0 < k < path.len() ==> matcher.visits(#[trigger] path.take(k));
            pair.shown_diff(matcher)(path) == if on_the_way && matcher.selects(path) && before
                != after && seen_before != seen_after {
                Some(
                    Ok::<Diff<MergedValueView>, BackendError>(
                        Diff { before: seen_before, after: seen_after },
                    ),
                )
            } else {
                None
            }
        }),
{
    tree_diff_laws::lemma_all_values(pair.reads, pair.store, pair.before, path);
    tree_diff_laws::lemma_all_values(pair.reads, pair.store, pair.after, path);
    value_laws::law_arity_of_values(pair.reads, pair.store, pair.before, path);
    value_laws::law_arity_of_values(pair.reads, pair.store, pair.after, path);
    let before = pair.before_at(path)->Ok_0;
    let after = pair.after_at(path)->Ok_0;
    let nothing = seq![None::<TreeValueView>];
    value_laws::law_kinds_of_values(before);
    value_laws::law_kinds_of_values(after);
    let diff = pair.diff_at(matcher, path);
    assert(merge::absent_terms::<TreeValueView>() =~= nothing);
    assert(diff.before == if seen_by(matcher, path, before) {
        before
    } else {
        nothing
    });
    assert(diff.after == if seen_by(matcher, path, after) {
        after
    } else {
        nothing
    });
    assert(merge::is_absent(nothing));
    tree_diff_laws::lemma_readable_pair(pair, path, diff);
    if tree_diff::both_absent(diff) {
        assert(diff.before =~= nothing);
        assert(diff.after =~= nothing);
    }
    assert((forall|k: int| 0 < k < path.len() ==> matcher.visits(#[trigger] path.take(k)))
        == tree_walk_laws::reachable(matcher, path));
}

/// The adapter for file systems shows at each path the file-level part of the
/// difference there.
pub proof fn law_file_system_shows_files(values: DiffResult)
    requires
        values is Ok ==> values->Ok_0.before.len() > 0 && values->Ok_0.after.len() > 0,
    ensures
        diff_adapters::shown_values(Some(values)) == diff_adapters::values_without_trees(values),
        diff_adapters::is_replaced(values) == (values is Ok && !has_file(values->Ok_0.before)
            && values->Ok_0.before != seq![None::<TreeValueView>] && has_file(
            values->Ok_0.after,
        )),
{
    if let Ok(diff) = values {
        value_laws::law_kinds_of_values(diff.before);
        value_laws::law_kinds_of_values(diff.after);
        let nothing = seq![None::<TreeValueView>];
        let shown = diff_adapters::shown_values(Some(values));
        let rest = diff_adapters::values_without_trees(values);
        if shown is Some {
            let a = shown->0->Ok_0;
            let b = rest->0->Ok_0;
            assert(a.before == b.before);
            assert(a.after == b.after);
        }
    }
}

/// What the adapter for file systems gives for differences in the order of their paths:
/// the file-level part of each, and of two of them that which has the lower path first.
/// But if one lies in a directory that the other replaces by a file, the file comes last.
pub proof fn law_file_system_sequence(entries: Seq<DiffEntryView>, k: int, l: int)
    requires
        listing::sorted_by(order::path_order(), entries),
        diff_adapters::replaced_apart(None, entries),
        forall|i: int|
            0 <= i < entries.len() && (#[trigger] entries[i]).1 is Ok ==> entries[i].1->Ok_0.before.len()
                > 0 && entries[i].1->Ok_0.after.len() > 0,
        0 <= k < l < diff_adapters::file_system_run(None, entries).len(),
    ensures
        ({
            let out = diff_adapters::file_system_run(None, entries);
            let first = out[k].0;
            let second = out[l].0;
            let inside = second.len() < first.len() && first.take(second.len() as int) == second;
            let around = first.len() < second.len() && second.take(first.len() as int) == first;
            let replaces = |path: PathView|
                listing::lookup(entries, path) is Some && listing::lookup(entries, path)->0 is Ok
                    && tree_value::is_tree(listing::lookup(entries, path)->0->Ok_0.before)
                    && has_file(listing::lookup(entries, path)->0->Ok_0.after);
            &&& first != second
            &&& inside ==> replaces(second)
            &&& around ==> !replaces(first)
            &&& !inside && !around ==> order::path_less(first, second)
        }),
{
    diff_adapters::law_file_system_order(entries);
    let out = diff_adapters::file_system_run(None, entries);
    let first = out[k].0;
    let second = out[l].0;
    let replaced = diff_adapters::replaced_at(None, entries);
    assert(diff_adapters::emitted_before(replaced, out[k].0, out[l].0));
    assert forall|path: PathView| listing::lookup(entries, path) is Some implies #[trigger] replaced(
        path,
    ) == (listing::lookup(entries, path)->0 is Ok && tree_value::is_tree(
        listing::lookup(entries, path)->0->Ok_0.before,
    ) && has_file(listing::lookup(entries, path)->0->Ok_0.after)) by {
        let i = listing::lemma_lookup_some(entries, path);
        assert(entries[i].1 == listing::lookup(entries, path)->0);
        if let Ok(diff) = entries[i].1 {
            value_laws::law_kinds_of_values(diff.after);
        }
    }
    if first == second {
        assert(first.take(first.len() as int) =~= first);
        assert(repo_path::path_starts_with(first, second));
    }
    if repo_path::path_starts_with(first, second) && first.len() == second.len() {
        assert(first.take(second.len() as int) =~= first);
    }
    if repo_path::path_starts_with(second, first) && first.len() == second.len() {
        assert(second.take(first.len() as int) =~= second);
    }
    assert(replaced(first) || !replaced(first));
    assert(replaced(second) || !replaced(second));
}

/// A walk over the entries of a tree that can be read gives exactly the values that have
/// a file, at the paths where they are found.
pub proof fn law_all_entries(reads: Reads, store: Store, root: MergedValueView, path: PathView)
    requires
        tree_diff_laws::all_readable(reads),
        root.len() % 2 == 1,
    ensures
        ({
            let value = path_lookup::value_at(reads, store, root, path)->Ok_0;
            tree_walk_laws::walk_value(reads, store, root, &EverythingMatcher, false)(path)
                == if has_file(value) {
                Some(Ok::<MergedValueView, BackendError>(value))
            } else {
                None
            }
        }),
{
    tree_diff_laws::lemma_all_values(reads, store, root, path);
    value_laws::law_arity_of_values(reads, store, root, path);
    let value = path_lookup::value_at(reads, store, root, path)->Ok_0;
    value_laws::law_kinds_of_values(value);
    tree_diff_laws::lemma_readable_value(reads, store, path, value);
}

/// A walk over the conflicts of a tree gives, of what a walk over its entries gives,
/// exactly that which is not resolved.
pub proof fn law_conflicts_of_entries<M: Matcher>(
    reads: Reads,
    store: Store,
    root: MergedValueView,
    matcher: &M,
    path: PathView,
)
    requires
        tree_diff_laws::all_readable(reads),
        !has_file(root),
        root.len() > 0,
    ensures
        ({
            let entry = tree_walk_laws::walk_value(reads, store, root, matcher, false)(path);
            let conflict = tree_walk_laws::walk_value(reads, store, root, matcher, true)(path);
            match entry {
                Some(Ok(value)) => conflict == if value.len() != 1 {
                    entry
                } else {
                    None
                },
                Some(Err(_)) => false,
                None => conflict is None,
            }
        }),
{
    tree_diff_laws::lemma_all_values(reads, store, root, path);
    let value = path_lookup::value_at(reads, store, root, path)->Ok_0;
    tree_diff_laws::lemma_readable_value(reads, store, path, value);
    if path.len() == 0 {
        value_laws::law_kinds_of_values(root);
    }
}

/// A walk with a matcher gives, of what a walk over all entries gives, exactly that which
/// the matcher selects in directories that it visits on the way.
pub proof fn law_selected_entries<M: Matcher>(
    reads: Reads,
    store: Store,
    root: MergedValueView,
    matcher: &M,
    path: PathView,
)
    requires
        tree_diff_laws::all_readable(reads),
        path.len() > 0,
    ensures
        ({
            let all = tree_walk_laws::walk_value(reads, store, root, &EverythingMatcher, false)(
                path,
            );
            let on_the_way = forall|k: int|
                0 < k < path.len() ==> matcher.visits(#[trigger] path.take(k));
            tree_walk_laws::walk_value(reads, store, root, matcher, false)(path) == if on_the_way
                && matcher.selects(path) {
                all
            } else {
                None
            }
        }),
{
    tree_diff_laws::lemma_all_values(reads, store, root, path);
    let value = path_lookup::value_at(reads, store, root, path)->Ok_0;
    tree_diff_laws::lemma_readable_value(reads, store, path, value);
    assert((forall|k: int| 0 < k < path.len() ==> matcher.visits(#[trigger] path.take(k)))
        == tree_walk_laws::reachable(matcher, path));
}

} // verus!
