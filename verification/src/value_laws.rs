//! What merged values are, and where they are found.

use crate::backend::BackendError;
use crate::backend::TreeView;
use crate::listing;
use crate::merge;
use crate::merge::SameChange;
use crate::merged_tree;
use crate::order;
use crate::path_lookup;
use crate::repo_path::NameView;
use crate::repo_path::PathView;
use crate::simplify;
use crate::store::Store;
use crate::tree;
use crate::tree::TreeModel;
use crate::tree_entries;
use crate::tree_read;
use crate::tree_read::Reads;
use crate::tree_value;
use crate::tree_value::MergedValueView;
use crate::tree_value::TreeValueView;
use vstd::prelude::*;

verus! {

/// Every merged value is exactly one of absent, a directory and like a file. It is
/// absent if it is resolved to nothing. It is like a file if it has a term that is a
/// file, a symlink or a submodule. A conflict of which all terms are directories or
/// absent is a directory.
pub proof fn law_kinds_of_values(value: MergedValueView)
    requires
        value.len() > 0,
    ensures
        merge::is_absent(value) == (value == seq![None::<TreeValueView>]),
        merge::absent_terms::<TreeValueView>() == seq![None::<TreeValueView>],
        tree_value::is_file_like(value) == exists|i: int|
            0 <= i < value.len() && match #[trigger] value[i] {
                Some(TreeValueView::Tree(_)) => false,
                Some(_) => true,
                None => false,
            },
        tree_value::is_tree(value) == (value != seq![None::<TreeValueView>]
            && !tree_value::is_file_like(value)),
        tree_value::only_trees(value) == !tree_value::is_file_like(value),
        tree_value::only_files(value) == forall|i: int|
            0 <= i < value.len() ==> match #[trigger] value[i] {
                Some(TreeValueView::File { .. }) => true,
                Some(_) => false,
                None => true,
            },
{
    assert(merge::is_absent(value) ==> value =~= seq![None]);
    assert(merge::absent_terms::<TreeValueView>() =~= seq![None]);
    if tree_value::is_file_like(value) {
        let i = choose|i: int|
            0 <= i < value.len() && !((#[trigger] value[i]) is None || value[i]->0 is Tree);
        assert(value[i] is Some);
    }
}

/// What the parts of a merge of files are: those of each term that is a file, in its
/// place.
pub proof fn law_parts_of_files(value: MergedValueView, i: int)
    requires
        0 <= i < value.len(),
    ensures
        tree_value::file_ids(value).len() == value.len(),
        tree_value::executable_bits(value).len() == value.len(),
        tree_value::copy_ids(value).len() == value.len(),
        forall|id: Seq<u8>, executable: bool, copy_id: Seq<u8>|
            value[i] == Some(#[trigger] file_with(id, executable, copy_id)) ==> {
                &&& tree_value::file_ids(value)[i] == Some(id)
                &&& tree_value::executable_bits(value)[i] == Some(executable)
                &&& tree_value::copy_ids(value)[i] == Some(copy_id)
                &&& tree_value::copy_id_of(value[i]->0) == Some(copy_id)
            },
        value[i] is Some && tree_value::copy_id_of(value[i]->0) is Some ==> value[i]->0 is File,
        value[i] is None ==> {
            &&& tree_value::file_ids(value)[i] is None
            &&& tree_value::executable_bits(value)[i] is None
            &&& tree_value::copy_ids(value)[i] is None
        },
{
}

/// A file with the given parts.
pub open spec fn file_with(id: Seq<u8>, executable: bool, copy_id: Seq<u8>) -> TreeValueView {
    TreeValueView::File { id, executable, copy_id }
}

/// New content IDs replace those of files and nothing else of them. Where there was no
/// file, there is a plain one then, without a copy ID. Where there is no ID, there is no
/// file.
pub proof fn law_new_file_ids(value: MergedValueView, ids: Seq<Option<Seq<u8>>>, i: int)
    requires
        0 <= i < value.len(),
        ids.len() == value.len(),
    ensures
        tree_value::updated_terms(value, ids).len() == value.len(),
        forall|old_id: Seq<u8>, id: Seq<u8>, executable: bool, copy_id: Seq<u8>|
            value[i] == Some(#[trigger] file_with(old_id, executable, copy_id)) && ids[i] == Some(
                id,
            ) ==> tree_value::updated_terms(value, ids)[i] == Some(
                #[trigger] file_with(id, executable, copy_id),
            ),
        value[i] is None && ids[i] is Some ==> tree_value::updated_terms(value, ids)[i] == Some(
            file_with(ids[i]->0, false, Seq::empty()),
        ),
        ids[i] is None ==> tree_value::updated_terms(value, ids)[i] is None,
{
}

/// A pair of an added and a removed term that are equal makes no difference to what a
/// merge is resolved to.
pub proof fn law_resolution_ignores_pairs<A>(terms: Seq<A>, extra: A, same_change: SameChange)
    requires
        terms.len() % 2 == 1,
    ensures
        merge::trivial_resolution(terms + seq![extra, extra], same_change)
            == merge::trivial_resolution(terms, same_change),
{
    let more = terms + seq![extra, extra];
    assert forall|v: A| #[trigger] merge::net(more, v) == merge::net(terms, v) by {
        simplify::lemma_net_concat(terms, seq![extra, extra], v);
        lemma_net_pair(extra, v);
    }
    lemma_same_resolution(more, terms, same_change);
}

proof fn lemma_net_pair<A>(x: A, v: A)
    ensures
        merge::net(seq![x, x], v) == 0,
{
    assert(seq![x, x].drop_last() =~= seq![x]);
    assert(seq![x].drop_last() =~= Seq::<A>::empty());
    reveal_with_fuel(merge::net, 3);
}

proof fn lemma_same_cancelling<A>(a: Seq<A>, b: Seq<A>, same_change: SameChange, v: A)
    requires
        forall|w: A| #[trigger] merge::net(a, w) == merge::net(b, w),
        merge::cancels_to(a, same_change, v),
    ensures
        merge::cancels_to(b, same_change, v),
{
    assert(merge::net(a, v) == merge::net(b, v));
    if forall|w: A| w != v ==> #[trigger] merge::net(a, w) == 0 {
        assert forall|w: A| w != v implies #[trigger] merge::net(b, w) == 0 by {
            assert(merge::net(a, w) == merge::net(b, w));
        }
    } else {
        let base = choose|base: A| #[trigger] merge::changed_from(a, v, base);
        assert(merge::net(a, base) == merge::net(b, base));
        assert forall|w: A| w != v && w != base implies #[trigger] merge::net(b, w) == 0 by {
            assert(merge::net(a, w) == merge::net(b, w));
        }
        assert(merge::changed_from(b, v, base));
    }
}

proof fn lemma_same_resolution<A>(a: Seq<A>, b: Seq<A>, same_change: SameChange)
    requires
        forall|v: A| #[trigger] merge::net(a, v) == merge::net(b, v),
    ensures
        merge::trivial_resolution(a, same_change) == merge::trivial_resolution(b, same_change),
{
    if let Some(v) = merge::trivial_resolution(a, same_change) {
        assert(merge::cancels_to(a, same_change, v));
        lemma_same_cancelling(a, b, same_change, v);
        merge::lemma_cancels_to_one(b, same_change, v, v);
    } else if let Some(v) = merge::trivial_resolution(b, same_change) {
        assert(merge::cancels_to(b, same_change, v));
        assert forall|w: A| #[trigger] merge::net(b, w) == merge::net(a, w) by {
            assert(merge::net(a, w) == merge::net(b, w));
        }
        lemma_same_cancelling(b, a, same_change, v);
    }
}

/// Simplifying a merge does not change what it is resolved to.
pub proof fn law_resolution_of_simplified<A>(terms: Seq<A>, same_change: SameChange)
    requires
        terms.len() % 2 == 1,
        terms.len() <= usize::MAX,
    ensures
        merge::trivial_resolution(simplify::simplified(terms), same_change)
            == merge::trivial_resolution(terms, same_change),
{
    simplify::law_simplified(terms);
    lemma_same_resolution(simplify::simplified(terms), terms, same_change);
}

/// A merge with a single term is resolved to it. A merge of more terms, of which none is
/// both added and removed, is resolved only where that is accepted and all sides changed
/// the same base to the same value.
pub proof fn law_resolution_without_pairs<A>(terms: Seq<A>, same_change: SameChange, value: A)
    requires
        terms.len() % 2 == 1,
        forall|i: int, j: int|
            0 <= i < terms.len() && 0 <= j < terms.len() && i % 2 == 0 && j % 2 == 1 ==> (
            #[trigger] terms[i]) != (#[trigger] terms[j]),
    ensures
        (merge::trivial_resolution(terms, same_change) == Some(value)) == {
            &&& terms.len() == 1 || same_change == SameChange::Accept
            &&& forall|i: int|
                0 <= i < terms.len() && i % 2 == 0 ==> #[trigger] terms[i] == value
            &&& forall|j: int|
                0 <= j < terms.len() && j % 2 == 1 ==> #[trigger] terms[j] == terms[1]
        },
{
    assert forall|k: int| 0 <= k < terms.len() implies #[trigger] merge::net(terms, terms[k])
        != 0 && (k % 2 == 0 ==> merge::net(terms, terms[k]) > 0) && (k % 2 == 1 ==> merge::net(
        terms,
        terms[k],
    ) < 0) by {
        lemma_net_sign(terms, terms.len() as int, terms[k], k % 2, k);
        assert(terms.take(terms.len() as int) =~= terms);
    }
    assert forall|w: A| !terms.contains(w) implies #[trigger] merge::net(terms, w) == 0 by {
        lemma_net_missing(terms, w);
    }
    if merge::trivial_resolution(terms, same_change) == Some(value) {
        assert(merge::cancels_to(terms, same_change, value));
        assert forall|i: int| 0 <= i < terms.len() && i % 2 == 0 implies #[trigger] terms[i]
            == value by {
            assert(merge::net(terms, terms[i]) > 0);
        }
        if terms.len() > 1 {
            assert(merge::net(terms, terms[1]) < 0);
            assert(terms[1] != value);
            let base = choose|base: A| #[trigger] merge::changed_from(terms, value, base);
            assert forall|j: int| 0 <= j < terms.len() && j % 2 == 1 implies #[trigger] terms[j]
                == terms[1] by {
                assert(merge::net(terms, terms[j]) < 0);
            }
        }
    }
    if (terms.len() == 1 || same_change == SameChange::Accept) && (forall|i: int|
        0 <= i < terms.len() && i % 2 == 0 ==> #[trigger] terms[i] == value) && (forall|j: int|
        0 <= j < terms.len() && j % 2 == 1 ==> #[trigger] terms[j] == terms[1]) {
        assert(terms[0] == value);
        assert(merge::net(terms, terms[0]) > 0);
        if terms.len() == 1 {
            assert forall|w: A| w != value implies #[trigger] merge::net(terms, w) == 0 by {
                assert(!terms.contains(w));
            }
        } else {
            let base = terms[1];
            assert(merge::net(terms, terms[1]) < 0);
            assert forall|w: A| w != value && w != base implies #[trigger] merge::net(terms, w)
                == 0 by {
                assert(!terms.contains(w));
            }
            assert(merge::changed_from(terms, value, base));
        }
        assert(merge::cancels_to(terms, same_change, value));
        merge::lemma_cancels_to_one(terms, same_change, value, value);
    }
}

proof fn lemma_net_missing<A>(terms: Seq<A>, w: A)
    requires
        !terms.contains(w),
    ensures
        merge::net(terms, w) == 0,
    decreases terms.len(),
{
    if terms.len() > 0 {
        assert(terms[terms.len() - 1] != w);
        assert(!terms.drop_last().contains(w)) by {
            if terms.drop_last().contains(w) {
                let i = choose|i: int|
                    0 <= i < terms.drop_last().len() && terms.drop_last()[i] == w;
                assert(terms[i] == w);
            }
        }
        lemma_net_missing(terms.drop_last(), w);
    }
}

proof fn lemma_net_sign<A>(terms: Seq<A>, n: int, v: A, parity: int, k: int)
    requires
        0 <= n <= terms.len(),
        0 <= k < terms.len(),
        terms[k] == v,
        parity == k % 2,
        forall|i: int| 0 <= i < terms.len() && #[trigger] terms[i] == v ==> i % 2 == parity,
    ensures
        parity == 0 ==> merge::net(terms.take(n), v) >= (if k < n {
            1int
        } else {
            0
        }),
        parity == 1 ==> merge::net(terms.take(n), v) <= (if k < n {
            -1int
        } else {
            0
        }),
    decreases n,
{
    if n > 0 {
        lemma_net_sign(terms, n - 1, v, parity, k);
        assert(terms.take(n).drop_last() =~= terms.take(n - 1));
        assert(terms.take(n).last() == terms[n - 1]);
    }
}

/// Below a root directory, a value that is found has an odd number of terms: one, or as
/// many as the root directory.
pub proof fn law_arity_of_values(reads: Reads, store: Store, root: MergedValueView, path: PathView)
    requires
        root.len() % 2 == 1,
        path_lookup::value_at(reads, store, root, path) is Ok,
    ensures
        path_lookup::value_at(reads, store, root, path)->Ok_0.len() == 1
            || path_lookup::value_at(reads, store, root, path)->Ok_0.len() == root.len(),
    decreases path.len(),
{
    if path.len() > 0 {
        let dir = path.drop_last();
        law_arity_of_values(reads, store, root, dir);
        let value = path_lookup::value_at(reads, store, root, dir)->Ok_0;
        if tree_value::is_tree(value) {
            law_read_trees(reads, store, dir, tree_read::tree_ids_of(value));
        }
    }
}

/// The terms that a name has in the trees of a directory, whatever they are.
pub open spec fn named_terms(
    reads: Reads,
    dir: PathView,
    directory: MergedValueView,
    name: NameView,
) -> MergedValueView {
    Seq::new(
        directory.len(),
        |i: int|
            match directory[i] {
                Some(TreeValueView::Tree(id)) => listing::lookup(reads(dir, id)->Ok_0, name),
                _ => None,
            },
    )
}

/// What is found at the path of a name in a directory: nothing if there is no directory,
/// and else the terms that the trees of the directory have for the name, resolved if
/// they cancel out. In a directory without conflicts, it is the entry of the one tree.
pub proof fn law_value_in_directory(
    reads: Reads,
    store: Store,
    root: MergedValueView,
    dir: PathView,
    name: NameView,
)
    requires
        path_lookup::value_at(reads, store, root, dir) is Ok,
        forall|i: int, id: Seq<u8>|
            0 <= i < path_lookup::value_at(reads, store, root, dir)->Ok_0.len() && (
            #[trigger] path_lookup::value_at(reads, store, root, dir)->Ok_0[i]) == Some(
                TreeValueView::Tree(id),
            ) ==> (#[trigger] reads(dir, id)) is Ok,
    ensures
        path_lookup::value_at(reads, store, root, PathView::empty()) == Ok::<
            MergedValueView,
            BackendError,
        >(root),
        ({
            let directory = path_lookup::value_at(reads, store, root, dir)->Ok_0;
            let found = path_lookup::value_at(reads, store, root, dir.push(name));
            let terms = named_terms(reads, dir, directory, name);
            &&& found is Ok
            &&& !tree_value::is_tree(directory) ==> found->Ok_0 == seq![None::<TreeValueView>]
            &&& tree_value::is_tree(directory) ==> match merge::trivial_resolution(
                terms,
                store.options().same_change,
            ) {
                Some(value) => found->Ok_0 == seq![value],
                None => found->Ok_0 == terms,
            }
            &&& tree_value::is_tree(directory) && directory.len() == 1 ==> found->Ok_0 == terms
        }),
{
    let path = dir.push(name);
    assert(path.drop_last() =~= dir);
    assert(path.last() == name);
    let directory = path_lookup::value_at(reads, store, root, dir)->Ok_0;
    let terms = named_terms(reads, dir, directory, name);
    if tree_value::is_tree(directory) {
        let ids = tree_read::tree_ids_of(directory);
        let all = tree_read::answers(reads, dir, ids);
        lemma_no_error(all, all.len() as int);
        assert(all.take(all.len() as int) =~= all);
        let trees = tree_read::read_trees(reads, store, dir, ids)->Ok_0;
        assert forall|i: int| 0 <= i < terms.len() implies #[trigger] tree::values_at(
            trees,
            name,
        )[i] == terms[i] by {
            if directory[i] is None {
                assert(trees[i].entries == TreeView::empty());
                if listing::lookup(TreeView::empty(), name) is Some {
                    let k = listing::lemma_lookup_some(TreeView::empty(), name);
                }
            }
        }
        assert(tree::values_at(trees, name) =~= terms);
        if directory.len() == 1 {
            tree::lemma_single_tree_value(trees, name);
            assert(terms =~= seq![listing::lookup(trees[0].entries, name)]);
        }
    } else {
        assert(merge::absent_terms::<TreeValueView>() =~= seq![None]);
    }
}

proof fn lemma_no_error(answers: tree_read::Answers, n: int)
    requires
        0 <= n <= answers.len(),
        forall|i: int| 0 <= i < answers.len() ==> !((#[trigger] answers[i]) matches Some(Err(_))),
    ensures
        tree_read::first_error(answers.take(n)) is None,
    decreases n,
{
    if n > 0 {
        lemma_no_error(answers, n - 1);
        assert(answers.take(n).drop_last() =~= answers.take(n - 1));
        assert(answers.take(n).last() == answers[n - 1]);
    }
}

/// Reading the trees of a directory fails with what the first term fails with that
/// cannot be read. If all can be read, there is a tree for each term, in its place, with
/// what was read, or with nothing for a term that is absent.
pub proof fn law_read_trees(reads: Reads, store: Store, dir: PathView, ids: Seq<Option<Seq<u8>>>)
    ensures
        match tree_read::read_trees(reads, store, dir, ids) {
            Err(err) => exists|i: int|
                {
                    &&& 0 <= i < ids.len()
                    &&& (#[trigger] ids[i]) is Some
                    &&& reads(dir, ids[i]->0) == Err::<TreeView, BackendError>(err)
                    &&& forall|k: int|
                        0 <= k < i && (#[trigger] ids[k]) is Some ==> reads(dir, ids[k]->0) is Ok
                },
            Ok(trees) => {
                &&& trees.len() == ids.len()
                &&& forall|i: int|
                    0 <= i < ids.len() ==> {
                        &&& (#[trigger] trees[i]).dir == dir
                        &&& trees[i].store == store
                        &&& match ids[i] {
                            Some(id) => reads(dir, id) == Ok::<TreeView, BackendError>(
                                trees[i].entries,
                            ),
                            None => trees[i].entries.len() == 0,
                        }
                    }
            },
        },
{
    let all = tree_read::answers(reads, dir, ids);
    lemma_first_error(all);
    if let Some(err) = tree_read::first_error(all) {
        let i = choose|i: int|
            {
                &&& 0 <= i < all.len()
                &&& #[trigger] all[i] == Some(Err::<TreeView, BackendError>(err))
                &&& forall|k: int| 0 <= k < i ==> !((#[trigger] all[k]) matches Some(Err(_)))
            };
        assert(ids[i] is Some);
        assert forall|k: int| 0 <= k < i && (#[trigger] ids[k]) is Some implies reads(
            dir,
            ids[k]->0,
        ) is Ok by {
            assert(all[k] == Some(reads(dir, ids[k]->0)));
        }
    } else {
        let trees = tree_read::read_trees(reads, store, dir, ids)->Ok_0;
        assert forall|i: int| 0 <= i < ids.len() implies {
            &&& (#[trigger] trees[i]).dir == dir
            &&& trees[i].store == store
            &&& match ids[i] {
                Some(id) => reads(dir, id) == Ok::<TreeView, BackendError>(trees[i].entries),
                None => trees[i].entries.len() == 0,
            }
        } by {
            assert(!(all[i] matches Some(Err(_))));
        }
    }
}

proof fn lemma_first_error(answers: tree_read::Answers)
    ensures
        match tree_read::first_error(answers) {
            Some(err) => exists|i: int|
                {
                    &&& 0 <= i < answers.len()
                    &&& #[trigger] answers[i] == Some(Err::<TreeView, BackendError>(err))
                    &&& forall|k: int|
                        0 <= k < i ==> !((#[trigger] answers[k]) matches Some(Err(_)))
                },
            None => forall|k: int|
                0 <= k < answers.len() ==> !((#[trigger] answers[k]) matches Some(Err(_))),
        },
    decreases answers.len(),
{
    if answers.len() > 0 {
        let fewer = answers.drop_last();
        lemma_first_error(fewer);
        assert forall|k: int| 0 <= k < fewer.len() implies #[trigger] answers[k]
            == fewer[k] by {}
        if let Some(err) = tree_read::first_error(fewer) {
            let i = choose|i: int|
                {
                    &&& 0 <= i < fewer.len()
                    &&& #[trigger] fewer[i] == Some(Err::<TreeView, BackendError>(err))
                    &&& forall|k: int| 0 <= k < i ==> !((#[trigger] fewer[k]) matches Some(Err(_)))
                };
            assert(answers[i] == fewer[i]);
        } else if tree_read::first_error(answers) is Some {
            let last = answers.len() - 1;
            assert(answers[last] == answers.last());
        }
    }
}

/// The value of a root directory has a tree for each term. It is a directory.
pub proof fn law_root_value(ids: Seq<Seq<u8>>)
    requires
        ids.len() > 0,
    ensures
        tree_value::is_tree(merged_tree::root_value(ids)),
        merged_tree::root_value(ids).len() == ids.len(),
        forall|i: int|
            0 <= i < ids.len() ==> #[trigger] merged_tree::root_value(ids)[i] == Some(
                TreeValueView::Tree(ids[i]),
            ),
{
    let value = merged_tree::root_value(ids);
    assert(value[0] is Some);
}

/// The file that a tree has for a copy ID is the one file that is found at its path,
/// without conflicts, and it has this ID.
pub proof fn law_copy_value(id: Seq<u8>, value: MergedValueView, file: TreeValueView)
    ensures
        (merged_tree::copy_value_in(id, value) == Some(file)) == (value == seq![Some(file)]
            && match file {
            TreeValueView::File { copy_id, .. } => copy_id == id,
            _ => false,
        }),
{
    assert(value.len() == 1 ==> value =~= seq![value[0]]);
}

/// What lies in a directory that cannot be found, or whose trees cannot be read, is not
/// known: the lookup fails as that of the directory does, or as the first term that
/// cannot be read.
pub proof fn law_unreadable_directory(
    reads: Reads,
    store: Store,
    root: MergedValueView,
    dir: PathView,
    name: NameView,
    i: int,
)
    ensures
        path_lookup::value_at(reads, store, root, dir) is Err ==> path_lookup::value_at(
            reads,
            store,
            root,
            dir.push(name),
        ) == path_lookup::value_at(reads, store, root, dir),
        ({
            let directory = path_lookup::value_at(reads, store, root, dir)->Ok_0;
            let fails = |k: int|
                match directory[k] {
                    Some(TreeValueView::Tree(id)) => reads(dir, id) is Err,
                    _ => false,
                };
            path_lookup::value_at(reads, store, root, dir) is Ok && tree_value::is_tree(directory)
                && 0 <= i < directory.len() && fails(i) && (forall|k: int|
                0 <= k < i ==> !#[trigger] fails(k)) ==> path_lookup::value_at(
                reads,
                store,
                root,
                dir.push(name),
            ) == Err::<MergedValueView, BackendError>(
                reads(dir, directory[i]->0->Tree_0)->Err_0,
            )
        }),
{
    let path = dir.push(name);
    assert(path.drop_last() =~= dir);
    let directory = path_lookup::value_at(reads, store, root, dir)->Ok_0;
    let fails = |k: int|
        match directory[k] {
            Some(TreeValueView::Tree(id)) => reads(dir, id) is Err,
            _ => false,
        };
    if path_lookup::value_at(reads, store, root, dir) is Ok && tree_value::is_tree(directory) && 0
        <= i < directory.len() && fails(i) && (forall|k: int| 0 <= k < i ==> !#[trigger] fails(
        k,
    )) {
        let ids = tree_read::tree_ids_of(directory);
        law_read_trees(reads, store, dir, ids);
        match tree_read::read_trees(reads, store, dir, ids) {
            Ok(trees) => {
                assert(trees[i].dir == dir);
                assert(ids[i] == Some(directory[i]->0->Tree_0));
            },
            Err(err) => {
                let k = choose|k: int|
                    {
                        &&& 0 <= k < ids.len()
                        &&& (#[trigger] ids[k]) is Some
                        &&& reads(dir, ids[k]->0) == Err::<TreeView, BackendError>(err)
                        &&& forall|m: int|
                            0 <= m < k && (#[trigger] ids[m]) is Some ==> reads(
                                dir,
                                ids[m]->0,
                            ) is Ok
                    };
                assert(ids[i] == Some(directory[i]->0->Tree_0));
                if k < i {
                    assert(!fails(k));
                } else if i < k {
                    assert(reads(dir, ids[i]->0) is Ok);
                }
            },
        }
    }
}

/// How often a value is among the terms of a merge: each added one counts, and each
/// removed one counts against it.
pub open spec fn balance<A>(terms: Seq<A>, value: A) -> int
    decreases terms.len(),
{
    if terms.len() == 0 {
        0
    } else if terms[0] == value {
        1 - balance(terms.drop_first(), value)
    } else {
        -balance(terms.drop_first(), value)
    }
}

/// The net count of a value is its balance.
pub proof fn lemma_balance<A>(terms: Seq<A>, value: A)
    ensures
        merge::net(terms, value) == balance(terms, value),
    decreases terms.len(),
{
    if terms.len() > 0 {
        let first = seq![terms[0]];
        let rest = terms.drop_first();
        lemma_balance(rest, value);
        assert(terms =~= first + rest);
        simplify::lemma_net_concat(first, rest, value);
        assert(first.drop_last() =~= Seq::<A>::empty());
        reveal_with_fuel(merge::net, 2);
    }
}

/// A merge is resolved to a value if it is added more often than removed, and if all other
/// values cancel out. If the same change on all sides is accepted, there may be one other
/// value that is removed more often than added.
pub proof fn law_resolution_by_balance<A>(terms: Seq<A>, same_change: SameChange, value: A)
    ensures
        (merge::trivial_resolution(terms, same_change) == Some(value)) == {
            &&& balance(terms, value) > 0
            &&& {
                ||| forall|other: A| other != value ==> #[trigger] balance(terms, other) == 0
                ||| same_change == SameChange::Accept && exists|base: A|
                    {
                        &&& #[trigger] balance(terms, base) < 0
                        &&& forall|other: A|
                            other != value && other != base ==> #[trigger] balance(terms, other)
                                == 0
                    }
            }
        },
{
    assert forall|v: A| #[trigger] merge::net(terms, v) == balance(terms, v) by {
        lemma_balance(terms, v);
    }
    assert forall|v: A| #[trigger] balance(terms, v) == merge::net(terms, v) by {
        lemma_balance(terms, v);
    }
    if merge::trivial_resolution(terms, same_change) == Some(value) {
        assert(merge::cancels_to(terms, same_change, value));
        if !(forall|w: A| w != value ==> #[trigger] merge::net(terms, w) == 0) {
            let base = choose|base: A| #[trigger] merge::changed_from(terms, value, base);
            assert(balance(terms, base) < 0);
        }
    }
    if balance(terms, value) > 0 {
        if forall|other: A| other != value ==> #[trigger] balance(terms, other) == 0 {
            assert(merge::cancels_to(terms, same_change, value));
            merge::lemma_cancels_to_one(terms, same_change, value, value);
        } else if same_change == SameChange::Accept && exists|base: A|
            {
                &&& #[trigger] balance(terms, base) < 0
                &&& forall|other: A|
                    other != value && other != base ==> #[trigger] balance(terms, other) == 0
            } {
            let base = choose|base: A|
                {
                    &&& #[trigger] balance(terms, base) < 0
                    &&& forall|other: A|
                        other != value && other != base ==> #[trigger] balance(terms, other) == 0
                };
            assert(merge::changed_from(terms, value, base));
            assert(merge::cancels_to(terms, same_change, value));
            merge::lemma_cancels_to_one(terms, same_change, value, value);
        }
    }
}

/// What is read for a value are its trees, each in its place. For a side of a difference
/// that is no directory, nothing is read.
pub proof fn law_requests(dir: PathView, value: MergedValueView, i: int)
    requires
        value.len() > 0,
    ensures
        tree_read::request_of(dir, value).dir == dir,
        tree_read::side_request_of(dir, value).dir == dir,
        tree_read::request_of(dir, value).ids.len() == value.len(),
        0 <= i < value.len() ==> tree_read::request_of(dir, value).ids[i] == match value[i] {
            Some(TreeValueView::Tree(id)) => Some(id),
            _ => None,
        },
        tree_read::side_request_of(dir, value).ids == if tree_value::is_file_like(value) {
            seq![None::<Seq<u8>>]
        } else {
            tree_read::request_of(dir, value).ids
        },
{
    law_kinds_of_values(value);
}

/// A listing of the entries of merged trees is in the order of the names. It has each name
/// that some tree has, once, with the merged value, or if it is one of unmerged values,
/// with what each tree has for the name.
pub proof fn law_entries_of_trees(
    trees: Seq<TreeModel>,
    merged: Seq<(NameView, MergedValueView)>,
    unmerged: Seq<(NameView, MergedValueView)>,
    name: NameView,
)
    requires
        listing::tabulates(order::name_order(), merged, tree::listed_entries(trees)),
        listing::tabulates(order::name_order(), unmerged, tree::listed_values(trees)),
    ensures
        forall|i: int, j: int|
            0 <= i < j < merged.len() ==> order::name_less(
                (#[trigger] merged[i]).0,
                (#[trigger] merged[j]).0,
            ),
        forall|i: int, j: int|
            0 <= i < j < unmerged.len() ==> order::name_less(
                (#[trigger] unmerged[i]).0,
                (#[trigger] unmerged[j]).0,
            ),
        ({
            let some_has = exists|i: int, k: int|
                0 <= i < trees.len() && 0 <= k < trees[i].entries.len()
                    && #[trigger] trees[i].entries[k].0 == name;
            let terms = Seq::new(
                trees.len(),
                |i: int| listing::lookup(trees[i].entries, name),
            );
            let value = match merge::trivial_resolution(
                terms,
                trees[0].store.options().same_change,
            ) {
                Some(value) => seq![value],
                None => terms,
            };
            &&& listing::lookup(merged, name) == if some_has {
                Some(value)
            } else {
                None
            }
            &&& listing::lookup(unmerged, name) == if some_has {
                Some(terms)
            } else {
                None
            }
        }),
{
    let less = order::name_order();
    assert forall|i: int, j: int| 0 <= i < j < merged.len() implies order::name_less(
        (#[trigger] merged[i]).0,
        (#[trigger] merged[j]).0,
    ) by {
        assert(less(merged[i].0, merged[j].0));
    }
    assert forall|i: int, j: int| 0 <= i < j < unmerged.len() implies order::name_less(
        (#[trigger] unmerged[i]).0,
        (#[trigger] unmerged[j]).0,
    ) by {
        assert(less(unmerged[i].0, unmerged[j].0));
    }
    let some_has = exists|i: int, k: int|
        0 <= i < trees.len() && 0 <= k < trees[i].entries.len()
            && #[trigger] trees[i].entries[k].0 == name;
    let terms = Seq::new(trees.len(), |i: int| listing::lookup(trees[i].entries, name));
    assert(terms =~= tree::values_at(trees, name));
    if tree::has_name(trees, name) {
        let i = choose|i: int|
            0 <= i < trees.len() && (#[trigger] listing::lookup(trees[i].entries, name)) is Some;
        let k = listing::lemma_lookup_some(trees[i].entries, name);
        assert(trees[i].entries[k].0 == name);
    }
    if some_has {
        let (i, k) = choose|i: int, k: int|
            0 <= i < trees.len() && 0 <= k < trees[i].entries.len()
                && #[trigger] trees[i].entries[k].0 == name;
        assert(trees[i].entries[k].0 == name);
        assert(listing::lookup(trees[i].entries, name) is Some);
    }
    assert(listing::lookup(merged, name) == tree::listed_entries(trees)(name));
    assert(listing::lookup(unmerged, name) == tree::listed_values(trees)(name));
}

/// The difference between merged trees at a name is there if and only if their merged
/// values differ, and it has these.
pub proof fn law_differences_of_trees(
    trees1: Seq<TreeModel>,
    trees2: Seq<TreeModel>,
    name: NameView,
)
    ensures
        ({
            let (before, after) = (tree::tree_value(trees1, name), tree::tree_value(trees2, name));
            match tree_entries::entry_diff(trees1, trees2)(name) {
                Some(diff) => before != after && diff.before == before && diff.after == after,
                None => before == after,
            }
        }),
{
}

} // verus!
