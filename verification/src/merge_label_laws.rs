//! The labels that trees keep when they are merged.

use crate::conflict_labels;
use crate::merge;
use crate::merged_tree;
use crate::merged_tree::MergedTreeModel;
use crate::simplify;
use crate::value_laws;
use vstd::prelude::*;

verus! {

/// The label that the tree at place `m` of an input of a merge comes with: a conflict
/// with labels has its own one for it, a conflict without labels has none, and the tree
/// of a resolved input gets the label that was provided.
pub open spec fn label_of_input(input: (MergedTreeModel, Seq<char>), m: int) -> Seq<char> {
    if input.0.ids.len() == 1 {
        input.1
    } else if input.0.labels.len() == 1 {
        Seq::empty()
    } else {
        input.0.labels[m]
    }
}

/// Whether there is a tree at place `m` of the input `i`.
pub open spec fn is_place(inputs: Seq<(MergedTreeModel, Seq<char>)>, i: int, m: int) -> bool {
    0 <= i < inputs.len() && 0 <= m < inputs[i].0.ids.len()
}

/// Whether the trees and the labels have the same shape, with an odd number of terms for
/// each input.
spec fn same_shape<A, B>(a: Seq<Seq<A>>, b: Seq<Seq<B>>) -> bool {
    &&& a.len() == b.len()
    &&& a.len() % 2 == 1
    &&& forall|i: int| 0 <= i < a.len() ==> (#[trigger] a[i]).len() % 2 == 1
    &&& forall|i: int| 0 <= i < a.len() ==> (#[trigger] a[i]).len() == b[i].len()
}

/// Where a term of a flattened merge comes from.
proof fn lemma_flattened_origin<A, B>(a: Seq<Seq<A>>, b: Seq<Seq<B>>, k: int) -> (r: (int, int))
    requires
        same_shape(a, b),
        0 <= k < simplify::flattened(a).len(),
    ensures
        simplify::flattened(a).len() == simplify::flattened(b).len(),
        simplify::flattened(a).len() % 2 == 1,
        0 <= r.0 < a.len(),
        0 <= r.1 < a[r.0].len(),
        simplify::flattened(a)[k] == a[r.0][r.1],
        simplify::flattened(b)[k] == b[r.0][r.1],
        k % 2 == (r.0 + r.1) % 2,
    decreases a.len(),
{
    let n = a.len() as int;
    lemma_flattened_shape(a, b);
    if n == 1 {
        (0, k)
    } else {
        let (rest_a, rest_b) = (a.take(n - 2), b.take(n - 2));
        lemma_shape_of_rest(a, b);
        lemma_flattened_shape(rest_a, rest_b);
        let len = simplify::flattened(rest_a).len() as int;
        let removed = a[n - 2].len() as int;
        if k < len {
            let r = lemma_flattened_origin(rest_a, rest_b, k);
            assert(rest_a[r.0] == a[r.0] && rest_b[r.0] == b[r.0]);
            r
        } else if k < len + removed {
            let j = k - len;
            let m = if j == removed - 1 {
                0
            } else if j % 2 == 0 {
                j + 2
            } else {
                j
            };
            assert(simplify::inverted(a[n - 2])[j] == a[n - 2][m]);
            assert(simplify::inverted(b[n - 2])[j] == b[n - 2][m]);
            (n - 2, m)
        } else {
            (n - 1, k - len - removed)
        }
    }
}

/// Where a term of an input is in the flattened merge.
proof fn lemma_flattened_place<A, B>(a: Seq<Seq<A>>, b: Seq<Seq<B>>, i: int, m: int) -> (k: int)
    requires
        same_shape(a, b),
        0 <= i < a.len(),
        0 <= m < a[i].len(),
    ensures
        simplify::flattened(a).len() == simplify::flattened(b).len(),
        0 <= k < simplify::flattened(a).len(),
        simplify::flattened(a)[k] == a[i][m],
        simplify::flattened(b)[k] == b[i][m],
        k % 2 == (i + m) % 2,
    decreases a.len(),
{
    let n = a.len() as int;
    lemma_flattened_shape(a, b);
    if n == 1 {
        m
    } else {
        let (rest_a, rest_b) = (a.take(n - 2), b.take(n - 2));
        lemma_shape_of_rest(a, b);
        lemma_flattened_shape(rest_a, rest_b);
        let len = simplify::flattened(rest_a).len() as int;
        let removed = a[n - 2].len() as int;
        if i < n - 2 {
            assert(rest_a[i] == a[i] && rest_b[i] == b[i]);
            lemma_flattened_place(rest_a, rest_b, i, m)
        } else if i == n - 2 {
            let j = if m == 0 {
                removed - 1
            } else if m % 2 == 0 {
                m - 2
            } else {
                m
            };
            assert(simplify::inverted(a[n - 2])[j] == a[n - 2][m]);
            assert(simplify::inverted(b[n - 2])[j] == b[n - 2][m]);
            len + j
        } else {
            len + removed + m
        }
    }
}

proof fn lemma_shape_of_rest<A, B>(a: Seq<Seq<A>>, b: Seq<Seq<B>>)
    requires
        same_shape(a, b),
        a.len() > 1,
    ensures
        same_shape(a.take(a.len() - 2), b.take(a.len() - 2)),
{
    let n = a.len() as int;
    let (rest_a, rest_b) = (a.take(n - 2), b.take(n - 2));
    assert forall|i: int| 0 <= i < rest_a.len() implies (#[trigger] rest_a[i]).len() % 2 == 1
        && rest_a[i].len() == rest_b[i].len() by {
        assert(rest_a[i] == a[i]);
        assert(a[i].len() == b[i].len());
    }
}

proof fn lemma_flattened_shape<A, B>(a: Seq<Seq<A>>, b: Seq<Seq<B>>)
    requires
        same_shape(a, b),
    ensures
        simplify::flattened(a).len() == simplify::flattened(b).len(),
        simplify::flattened(a).len() % 2 == 1,
    decreases a.len(),
{
    if a.len() > 1 {
        lemma_shape_of_rest(a, b);
        lemma_flattened_shape(a.take(a.len() - 2), b.take(a.len() - 2));
    }
}

proof fn lemma_inputs(inputs: Seq<(MergedTreeModel, Seq<char>)>)
    requires
        inputs.len() % 2 == 1,
        forall|i: int| 0 <= i < inputs.len() ==> (#[trigger] inputs[i]).0.valid(),
    ensures
        same_shape(merged_tree::merged_ids(inputs), merged_tree::merged_labels(inputs)),
        forall|i: int, m: int| #[trigger]
            is_place(inputs, i, m) ==> {
                &&& merged_tree::merged_ids(inputs)[i][m] == inputs[i].0.ids[m]
                &&& merged_tree::merged_labels(inputs)[i][m] == label_of_input(inputs[i], m)
            },
{
    let ids = merged_tree::merged_ids(inputs);
    let labels = merged_tree::merged_labels(inputs);
    assert forall|i: int| 0 <= i < ids.len() implies (#[trigger] ids[i]).len() % 2 == 1
        && ids[i].len() == labels[i].len() by {
        assert(inputs[i].0.valid());
    }
    assert forall|i: int, m: int| #[trigger] is_place(inputs, i, m) implies {
        &&& ids[i][m] == inputs[i].0.ids[m]
        &&& labels[i][m] == label_of_input(inputs[i], m)
    } by {
        assert(inputs[i].0.valid());
    }
}

/// Every tree that is left in a merge is a tree of one of the inputs, added or removed as
/// it was there, and it has the label that it came with. If the merge has no labels, it is
/// resolved, or the trees that are left came without labels.
pub proof fn law_labels_of_merge(inputs: Seq<(MergedTreeModel, Seq<char>)>, k: int)
    requires
        inputs.len() % 2 == 1,
        forall|i: int| 0 <= i < inputs.len() ==> (#[trigger] inputs[i]).0.valid(),
        simplify::flattened(merged_tree::merged_ids(inputs)).len() <= usize::MAX,
        0 <= k < merged_tree::unresolved_merge(inputs).ids.len(),
    ensures
        ({
            let merged = merged_tree::unresolved_merge(inputs);
            &&& merged.store == inputs[0].0.store
            &&& merged.ids.len() == 1 ==> merged.labels == seq![Seq::<char>::empty()]
            &&& merged.labels.len() == merged.ids.len() || merged.labels == seq![
                Seq::<char>::empty(),
            ]
            &&& exists|i: int, m: int| #[trigger]
                is_place(inputs, i, m) && {
                    &&& (i + m) % 2 == k % 2
                    &&& merged.ids[k] == inputs[i].0.ids[m]
                    &&& merged.ids.len() > 1 ==> label_of_input(inputs[i], m) == if merged.labels
                        == seq![Seq::<char>::empty()] {
                        Seq::empty()
                    } else {
                        merged.labels[k]
                    }
                }
        }),
{
    let merged = merged_tree::unresolved_merge(inputs);
    let ids = merged_tree::merged_ids(inputs);
    let labels = merged_tree::merged_labels(inputs);
    let flat_ids = simplify::flattened(ids);
    let flat_labels = simplify::flattened(labels);
    lemma_inputs(inputs);
    lemma_flattened_shape(ids, labels);
    simplify::law_simplified(flat_ids);
    simplify::law_simplified_places(flat_ids);
    let mapping = simplify::simplified_mapping(flat_ids);
    assert(mapping[k] < flat_ids.len());
    let place = mapping[k] as int;
    let (i, m) = lemma_flattened_origin(ids, labels, place);
    assert(is_place(inputs, i, m));
    let none = seq![Seq::<char>::empty()];
    assert(conflict_labels::unlabeled_terms() =~= none);
    let effective = conflict_labels::effective_labels(flat_labels);
    let left = simplify::terms_at(flat_labels, mapping);
    assert(left[k] == flat_labels[place]);
    if merged.ids.len() > 1 {
        if conflict_labels::all_empty(flat_labels) {
            assert(effective == none);
            assert(flat_labels[place].len() == 0);
            assert(flat_labels[place] =~= Seq::empty());
        } else {
            assert(flat_labels.len() > 1);
            assert(effective == flat_labels);
            if conflict_labels::all_empty(left) {
                assert(left[k].len() == 0);
                assert(left[k] =~= Seq::empty());
            } else {
                assert(merged.labels == left);
                assert(left.len() > 1);
                assert(left.len() != none.len());
            }
        }
    } else if merged.labels != none {
        assert(effective == flat_labels);
        assert(merged.labels == conflict_labels::effective_labels(left));
        assert(left.len() == 1);
    }
}

/// Whether no tree of the inputs is both added and removed.
pub open spec fn nothing_cancels(inputs: Seq<(MergedTreeModel, Seq<char>)>) -> bool {
    forall|i: int, m: int, j: int, n: int| #[trigger]
        is_place(inputs, i, m) && #[trigger] is_place(inputs, j, n) && (i + m) % 2 == 0 && (j + n)
            % 2 == 1 ==> inputs[i].0.ids[m] != inputs[j].0.ids[n]
}

/// In a merge in which nothing cancels out, every tree of the inputs is left, added or
/// removed as it was there, with the label that it came with. If the merge has no labels,
/// none of its trees came with one, unless it is resolved.
pub proof fn law_all_labels_of_merge(
    inputs: Seq<(MergedTreeModel, Seq<char>)>,
    i: int,
    m: int,
)
    requires
        inputs.len() % 2 == 1,
        forall|i: int| 0 <= i < inputs.len() ==> (#[trigger] inputs[i]).0.valid(),
        simplify::flattened(merged_tree::merged_ids(inputs)).len() <= usize::MAX,
        nothing_cancels(inputs),
        is_place(inputs, i, m),
    ensures
        ({
            let merged = merged_tree::unresolved_merge(inputs);
            exists|k: int|
                {
                    &&& 0 <= k < merged.ids.len()
                    &&& k % 2 == (i + m) % 2
                    &&& #[trigger] merged.ids[k] == inputs[i].0.ids[m]
                    &&& merged.ids.len() > 1 ==> label_of_input(inputs[i], m) == if merged.labels
                        == seq![Seq::<char>::empty()] {
                        Seq::empty()
                    } else {
                        merged.labels[k]
                    }
                }
        }),
{
    let merged = merged_tree::unresolved_merge(inputs);
    let ids = merged_tree::merged_ids(inputs);
    let labels = merged_tree::merged_labels(inputs);
    let flat_labels = simplify::flattened(labels);
    lemma_inputs(inputs);
    let k = lemma_flattened_place(ids, labels, i, m);
    lemma_uncancelled(inputs);
    let none = seq![Seq::<char>::empty()];
    assert(conflict_labels::unlabeled_terms() =~= none);
    assert(merged.ids[k] == inputs[i].0.ids[m]);
    if merged.ids.len() > 1 {
        if conflict_labels::all_empty(flat_labels) {
            assert(flat_labels[k].len() == 0);
            assert(flat_labels[k] =~= Seq::empty());
        } else {
            assert(flat_labels.len() != none.len());
        }
    }
}

proof fn lemma_uncancelled(inputs: Seq<(MergedTreeModel, Seq<char>)>)
    requires
        inputs.len() % 2 == 1,
        forall|i: int| 0 <= i < inputs.len() ==> (#[trigger] inputs[i]).0.valid(),
        simplify::flattened(merged_tree::merged_ids(inputs)).len() <= usize::MAX,
        nothing_cancels(inputs),
    ensures
        merged_tree::unresolved_merge(inputs).ids == simplify::flattened(
            merged_tree::merged_ids(inputs),
        ),
        merged_tree::unresolved_merge(inputs).labels == conflict_labels::effective_labels(
            simplify::flattened(merged_tree::merged_labels(inputs)),
        ),
{
    let ids = merged_tree::merged_ids(inputs);
    let labels = merged_tree::merged_labels(inputs);
    let flat_ids = simplify::flattened(ids);
    let flat_labels = simplify::flattened(labels);
    lemma_inputs(inputs);
    lemma_flattened_shape(ids, labels);
    assert(simplify::is_simplified(flat_ids)) by {
        assert forall|a: int, b: int|
            0 <= a < flat_ids.len() && 0 <= b < flat_ids.len() && a % 2 == 0 && b % 2 == 1 implies (
        #[trigger] flat_ids[a]) != (#[trigger] flat_ids[b]) by {
            let (i, m) = lemma_flattened_origin(ids, labels, a);
            let (j, n) = lemma_flattened_origin(ids, labels, b);
            assert(is_place(inputs, i, m) && is_place(inputs, j, n));
        }
    }
    simplify::law_simplified_places(flat_ids);
    let all = Seq::new(flat_ids.len(), |i: int| i as usize);
    assert(simplify::terms_at(flat_labels, all) =~= flat_labels);
}

/// A merge of three inputs in which nothing cancels out has the trees of the first input,
/// then those of the removed one, turned round so that what it removes is added, and then
/// those of the last input, each with the label that it came with.
pub proof fn law_merge_of_three(inputs: Seq<(MergedTreeModel, Seq<char>)>, m: int)
    requires
        inputs.len() == 3,
        forall|i: int| 0 <= i < inputs.len() ==> (#[trigger] inputs[i]).0.valid(),
        simplify::flattened(merged_tree::merged_ids(inputs)).len() <= usize::MAX,
        nothing_cancels(inputs),
    ensures
        ({
            let merged = merged_tree::unresolved_merge(inputs);
            let (a, b, c) = (
                inputs[0].0.ids.len() as int,
                inputs[1].0.ids.len() as int,
                inputs[2].0.ids.len() as int,
            );
            let turned = if m == b - 1 {
                0
            } else if m % 2 == 0 {
                m + 2
            } else {
                m
            };
            let has = |k: int, i: int, n: int|
                merged.ids[k] == inputs[i].0.ids[n] && (merged.labels.len() == 1
                    || merged.labels[k] == label_of_input(inputs[i], n));
            &&& merged.ids.len() == a + b + c
            &&& merged.labels.len() == 1 || merged.labels.len() == a + b + c
            &&& 0 <= m < a ==> has(m, 0, m)
            &&& 0 <= m < b ==> has(a + m, 1, turned)
            &&& 0 <= m < c ==> has(a + b + m, 2, m)
        }),
{
    let ids = merged_tree::merged_ids(inputs);
    let labels = merged_tree::merged_labels(inputs);
    lemma_inputs(inputs);
    lemma_uncancelled(inputs);
    lemma_flattened_shape(ids, labels);
    reveal_with_fuel(simplify::flattened, 3);
    assert(ids.take(1) =~= seq![ids[0]]);
    assert(labels.take(1) =~= seq![labels[0]]);
    let (a, b, c) = (
        inputs[0].0.ids.len() as int,
        inputs[1].0.ids.len() as int,
        inputs[2].0.ids.len() as int,
    );
    assert(simplify::flattened(ids) =~= ids[0] + simplify::inverted(ids[1]) + ids[2]);
    assert(simplify::flattened(labels) =~= labels[0] + simplify::inverted(labels[1]) + labels[2]);
    assert(ids[0].len() == a && ids[1].len() == b && ids[2].len() == c);
    assert(labels[0].len() == a && labels[1].len() == b && labels[2].len() == c);
    let turned = if m == b - 1 {
        0
    } else if m % 2 == 0 {
        m + 2
    } else {
        m
    };
    if 0 <= m < a {
        assert(is_place(inputs, 0, m));
    }
    if 0 <= m < b {
        assert(is_place(inputs, 1, turned));
        assert(simplify::inverted(ids[1])[m] == ids[1][turned]);
        assert(simplify::inverted(labels[1])[m] == labels[1][turned]);
    }
    if 0 <= m < c {
        assert(is_place(inputs, 2, m));
    }
}

/// When a tree is resolved, each tree that is left is one of the merged ones, added or
/// removed as there, with the label of its place. A tree that became resolved has the one
/// tree, and no labels.
pub proof fn law_labels_of_resolved(model: MergedTreeModel, merged: Seq<Seq<u8>>, k: int)
    requires
        model.valid(),
        model.ids.len() <= usize::MAX,
        merged.len() == 1 || merged.len() == model.ids.len(),
        0 <= k < merged_tree::resolved_merge(model, merged).ids.len(),
    ensures
        ({
            let r = merged_tree::resolved_merge(model, merged);
            let none = seq![Seq::<char>::empty()];
            &&& r.store == model.store
            &&& r.ids.len() == 1 ==> r.labels == none
            &&& merged.len() == 1 ==> r.ids == merged
            &&& model.labels.len() == 1 ==> r.labels == none
            &&& exists|m: int|
                {
                    &&& 0 <= m < merged.len()
                    &&& m % 2 == k % 2
                    &&& r.ids[k] == #[trigger] merged[m]
                    &&& r.ids.len() > 1 && model.labels.len() > 1 ==> model.labels[m]
                        == if r.labels == none {
                        Seq::empty()
                    } else {
                        r.labels[k]
                    }
                }
        }),
{
    let r = merged_tree::resolved_merge(model, merged);
    let none = seq![Seq::<char>::empty()];
    assert(conflict_labels::unlabeled_terms() =~= none);
    if merged.len() == 1 {
        assert(r.ids[k] == merged[0]);
    } else {
        simplify::law_simplified(merged);
        simplify::law_simplified_places(merged);
        let mapping = simplify::simplified_mapping(merged);
        assert(mapping[k] < merged.len());
        let m = mapping[k] as int;
        assert(r.ids[k] == merged[m]);
        if model.labels.len() > 1 {
            let left = simplify::terms_at(model.labels, mapping);
            assert(left[k] == model.labels[m]);
            if r.ids.len() > 1 {
                if conflict_labels::all_empty(left) {
                    assert(left[k].len() == 0);
                    assert(left[k] =~= Seq::empty());
                } else {
                    assert(left.len() != none.len());
                }
            }
        }
    }
}

/// The labels of a merge are kept as they are, unless it is resolved or no label says
/// anything. A label that says nothing is none.
pub proof fn law_labels_kept(labels: Seq<Seq<char>>, place: int)
    ensures
        conflict_labels::effective_labels(labels) == if labels.len() != 1 && exists|i: int|
            0 <= i < labels.len() && (#[trigger] labels[i]).len() > 0 {
            labels
        } else {
            seq![Seq::<char>::empty()]
        },
        0 <= place < labels.len() && labels[place].len() > 0 ==> conflict_labels::term_label(
            labels,
            place,
        ) == Some(labels[place]),
        place < 0 || place >= labels.len() || labels[place].len() == 0
            ==> conflict_labels::term_label(labels, place) is None,
{
    assert(conflict_labels::unlabeled_terms() =~= seq![Seq::<char>::empty()]);
}

/// How often a tree is among the inputs of a merge: those that are removed count against
/// it.
pub open spec fn balance_of_inputs(
    inputs: Seq<(MergedTreeModel, Seq<char>)>,
    id: Seq<u8>,
) -> int
    decreases inputs.len(),
{
    if inputs.len() == 0 {
        0
    } else if inputs.len() % 2 == 1 {
        balance_of_inputs(inputs.drop_last(), id) + value_laws::balance(inputs.last().0.ids, id)
    } else {
        balance_of_inputs(inputs.drop_last(), id) - value_laws::balance(inputs.last().0.ids, id)
    }
}

/// Whether no value is at an added and at a removed place.
pub open spec fn all_cancelled<A>(terms: Seq<A>) -> bool {
    forall|i: int, j: int|
        0 <= i < terms.len() && 0 <= j < terms.len() && i % 2 == 0 && j % 2 == 1 ==> (
        #[trigger] terms[i]) != (#[trigger] terms[j])
}

proof fn lemma_balance_of_inputs(inputs: Seq<(MergedTreeModel, Seq<char>)>, id: Seq<u8>)
    ensures
        simplify::net_of_merges(merged_tree::merged_ids(inputs), id) == balance_of_inputs(
            inputs,
            id,
        ),
    decreases inputs.len(),
{
    let ids = merged_tree::merged_ids(inputs);
    if inputs.len() > 0 {
        lemma_balance_of_inputs(inputs.drop_last(), id);
        assert(ids.drop_last() =~= merged_tree::merged_ids(inputs.drop_last()));
        assert(ids.last() == inputs.last().0.ids);
        value_laws::lemma_balance(inputs.last().0.ids, id);
    }
}

/// A merge has each tree as often as its inputs together, and has no tree both added and
/// removed. Resolving it to trees that were merged keeps how often it has each of these,
/// and has none of them both added and removed.
pub proof fn law_trees_of_merge(
    inputs: Seq<(MergedTreeModel, Seq<char>)>,
    model: MergedTreeModel,
    merged: Seq<Seq<u8>>,
    id: Seq<u8>,
)
    requires
        inputs.len() % 2 == 1,
        forall|i: int| 0 <= i < inputs.len() ==> (#[trigger] inputs[i]).0.valid(),
        simplify::flattened(merged_tree::merged_ids(inputs)).len() <= usize::MAX,
        merged.len() % 2 == 1,
        merged.len() <= usize::MAX,
    ensures
        value_laws::balance(merged_tree::unresolved_merge(inputs).ids, id) == balance_of_inputs(
            inputs,
            id,
        ),
        all_cancelled(merged_tree::unresolved_merge(inputs).ids),
        value_laws::balance(merged_tree::resolved_merge(model, merged).ids, id)
            == value_laws::balance(merged, id),
        all_cancelled(merged_tree::resolved_merge(model, merged).ids),
{
    merged_tree::law_unresolved_merge(inputs, id);
    value_laws::lemma_balance(merged_tree::unresolved_merge(inputs).ids, id);
    lemma_balance_of_inputs(inputs, id);
    let r = merged_tree::resolved_merge(model, merged).ids;
    value_laws::lemma_balance(r, id);
    value_laws::lemma_balance(merged, id);
    if merged.len() != 1 {
        simplify::law_simplified(merged);
        assert(merge::net(simplify::simplified(merged), id) == merge::net(merged, id));
    }
}

/// Simplifying a merge keeps how often it has each value, and leaves none that is both
/// added and removed. A merge without such values is not changed.
pub proof fn law_simplified_merge<A>(terms: Seq<A>, value: A)
    requires
        terms.len() % 2 == 1,
        terms.len() <= usize::MAX,
    ensures
        value_laws::balance(simplify::simplified(terms), value) == value_laws::balance(
            terms,
            value,
        ),
        all_cancelled(simplify::simplified(terms)),
        all_cancelled(terms) ==> simplify::simplified(terms) == terms,
{
    simplify::law_simplified(terms);
    simplify::law_simplified_places(terms);
    value_laws::lemma_balance(simplify::simplified(terms), value);
    value_laws::lemma_balance(terms, value);
    assert(merge::net(simplify::simplified(terms), value) == merge::net(terms, value));
}

/// A merge of one merge has its terms. With one more that is removed and one that is added,
/// the terms of the removed one come next, where the first one that it adds comes last, and
/// then the terms of the added one.
pub proof fn law_flattened_in_turn<A>(
    merges: Seq<Seq<A>>,
    removed: Seq<A>,
    added: Seq<A>,
    m: int,
)
    requires
        merges.len() % 2 == 1,
    ensures
        simplify::flattened(seq![added]) == added,
        ({
            let before = simplify::flattened(merges);
            let all = simplify::flattened(merges.push(removed).push(added));
            let (n, k) = (before.len() as int, removed.len() as int);
            &&& all.len() == n + k + added.len()
            &&& 0 <= m < n ==> all[m] == before[m]
            &&& 0 <= m < k ==> all[n + m] == removed[if m == k - 1 {
                0
            } else if m % 2 == 0 {
                m + 2
            } else {
                m
            }]
            &&& 0 <= m < added.len() ==> all[n + k + m] == added[m]
        }),
{
    let more = merges.push(removed).push(added);
    assert(more.take(more.len() - 2) =~= merges);
    assert(more[more.len() - 2] == removed);
    assert(more[more.len() - 1] == added);
}

/// The places of the trees of the inputs.
spec fn places_of(inputs: Seq<(MergedTreeModel, Seq<char>)>) -> Seq<Seq<(int, int)>> {
    Seq::new(
        inputs.len(),
        |i: int| Seq::new(inputs[i].0.ids.len(), |m: int| (i, m)),
    )
}

/// Whether the terms of merges with the same number are told apart by their places.
spec fn are_places(places: Seq<Seq<(int, int)>>) -> bool {
    forall|i: int, m: int|
        0 <= i < places.len() && 0 <= m < places[i].len() ==> #[trigger] places[i][m] == (i, m)
}

proof fn lemma_places_distinct(places: Seq<Seq<(int, int)>>, a: int, b: int)
    requires
        same_shape(places, places),
        are_places(places),
        0 <= a < b < simplify::flattened(places).len(),
    ensures
        simplify::flattened(places)[a] != simplify::flattened(places)[b],
    decreases places.len(),
{
    let n = places.len() as int;
    let all = simplify::flattened(places);
    if n == 1 {
        assert(all[a] == places[0][a] && all[b] == places[0][b]);
    } else {
        let rest = places.take(n - 2);
        lemma_shape_of_rest(places, places);
        assert forall|i: int, m: int|
            0 <= i < rest.len() && 0 <= m < rest[i].len() implies #[trigger] rest[i][m] == (
            i,
            m,
        ) by {
            assert(rest[i] == places[i]);
            assert(places[i][m] == (i, m));
        }
        let len = simplify::flattened(rest).len() as int;
        let removed = places[n - 2].len() as int;
        assert(all[a] == place_at(places, a));
        assert(all[b] == place_at(places, b));
        if b < len {
            lemma_places_distinct(rest, a, b);
        } else if a < len {
            let r = lemma_flattened_origin(rest, rest, a);
            assert(rest[r.0][r.1] == r);
        }
    }
}

/// The place at a place of flattened places.
spec fn place_at(places: Seq<Seq<(int, int)>>, k: int) -> (int, int) {
    let n = places.len() as int;
    let rest = simplify::flattened(places.take(n - 2));
    let len = rest.len() as int;
    let removed = places[n - 2].len() as int;
    if k < len {
        rest[k]
    } else if k < len + removed {
        let j = k - len;
        (
            n - 2,
            if j == removed - 1 {
                0
            } else if j % 2 == 0 {
                j + 2
            } else {
                j
            },
        )
    } else {
        (n - 1, k - len - removed)
    }
}

/// Whether each tree of a merge comes from the place of an input, added or removed as it
/// was there, with the label that it came with, and no two come from the same place.
pub open spec fn comes_from(
    merged: MergedTreeModel,
    inputs: Seq<(MergedTreeModel, Seq<char>)>,
    origin: spec_fn(int) -> (int, int),
) -> bool {
    &&& forall|k: int|
        0 <= k < merged.ids.len() ==> {
            let (i, m) = #[trigger] origin(k);
            &&& is_place(inputs, i, m)
            &&& (i + m) % 2 == k % 2
            &&& merged.ids[k] == inputs[i].0.ids[m]
            &&& merged.ids.len() > 1 ==> label_of_input(inputs[i], m) == if merged.labels == seq![
                Seq::<char>::empty(),
            ] {
                Seq::empty()
            } else {
                merged.labels[k]
            }
        }
    &&& forall|k: int, l: int|
        0 <= k < l < merged.ids.len() ==> #[trigger] origin(k) != #[trigger] origin(l)
}

/// The trees that are left in a merge come from different places of the inputs, each with
/// the label that it came with, also if the same tree comes with different labels.
pub proof fn law_origins_of_merge(inputs: Seq<(MergedTreeModel, Seq<char>)>)
    requires
        inputs.len() % 2 == 1,
        forall|i: int| 0 <= i < inputs.len() ==> (#[trigger] inputs[i]).0.valid(),
        simplify::flattened(merged_tree::merged_ids(inputs)).len() <= usize::MAX,
    ensures
        exists|origin: spec_fn(int) -> (int, int)| #[trigger]
            comes_from(merged_tree::unresolved_merge(inputs), inputs, origin),
{
    let merged = merged_tree::unresolved_merge(inputs);
    let ids = merged_tree::merged_ids(inputs);
    let labels = merged_tree::merged_labels(inputs);
    let places = places_of(inputs);
    let flat_ids = simplify::flattened(ids);
    let flat_labels = simplify::flattened(labels);
    let flat_places = simplify::flattened(places);
    lemma_inputs(inputs);
    lemma_flattened_shape(ids, labels);
    assert(same_shape(ids, places)) by {
        assert forall|i: int| 0 <= i < ids.len() implies (#[trigger] ids[i]).len()
            == places[i].len() by {}
    }
    assert(same_shape(places, places)) by {
        assert forall|i: int| 0 <= i < places.len() implies (#[trigger] places[i]).len() % 2
            == 1 by {
            assert(ids[i].len() % 2 == 1);
        }
    }
    assert(are_places(places));
    lemma_flattened_shape(ids, places);
    simplify::law_simplified(flat_ids);
    simplify::law_simplified_places(flat_ids);
    let mapping = simplify::simplified_mapping(flat_ids);
    let origin = |k: int| flat_places[mapping[k] as int];
    let none = seq![Seq::<char>::empty()];
    assert(conflict_labels::unlabeled_terms() =~= none);
    let left = simplify::terms_at(flat_labels, mapping);
    assert forall|k: int| 0 <= k < merged.ids.len() implies {
        let (i, m) = #[trigger] origin(k);
        &&& is_place(inputs, i, m)
        &&& (i + m) % 2 == k % 2
        &&& merged.ids[k] == inputs[i].0.ids[m]
        &&& merged.ids.len() > 1 ==> label_of_input(inputs[i], m) == if merged.labels == none {
            Seq::empty()
        } else {
            merged.labels[k]
        }
    } by {
        assert(mapping[k] < flat_ids.len());
        let place = mapping[k] as int;
        let (i, m) = lemma_flattened_origin(ids, labels, place);
        let (j, l) = lemma_flattened_origin(ids, places, place);
        assert(places[j][l] == (j, l));
        assert(origin(k) == (j, l));
        lemma_same_origin(ids, labels, places, place);
        assert(is_place(inputs, j, l));
        assert(merged.ids[k] == flat_ids[place]);
        assert(flat_labels[place] == labels[j][l]);
        assert(left[k] == flat_labels[place]);
        if merged.ids.len() > 1 {
            if conflict_labels::all_empty(flat_labels) {
                assert(flat_labels[place].len() == 0);
                assert(flat_labels[place] =~= Seq::empty());
            } else {
                if conflict_labels::all_empty(left) {
                    assert(left[k].len() == 0);
                    assert(left[k] =~= Seq::empty());
                } else {
                    assert(merged.labels == left);
                    assert(left.len() != none.len());
                }
            }
        }
    }
    assert forall|k: int, l: int| 0 <= k < l < merged.ids.len() implies #[trigger] origin(k)
        != #[trigger] origin(l) by {
        assert(mapping[k] != mapping[l]);
        assert(mapping[k] < flat_ids.len() && mapping[l] < flat_ids.len());
        let (a, b) = (mapping[k] as int, mapping[l] as int);
        if a < b {
            lemma_places_distinct(places, a, b);
        } else {
            lemma_places_distinct(places, b, a);
        }
    }
    assert(comes_from(merged, inputs, origin));
}

proof fn lemma_same_origin(
    ids: Seq<Seq<Seq<u8>>>,
    labels: Seq<Seq<Seq<char>>>,
    places: Seq<Seq<(int, int)>>,
    k: int,
)
    requires
        same_shape(ids, labels),
        same_shape(ids, places),
        are_places(places),
        0 <= k < simplify::flattened(ids).len(),
    ensures
        ({
            let (i, m) = simplify::flattened(places)[k];
            &&& simplify::flattened(labels)[k] == labels[i][m]
            &&& simplify::flattened(ids)[k] == ids[i][m]
        }),
{
    let both = Seq::new(
        labels.len(),
        |i: int| Seq::new(labels[i].len(), |m: int| (labels[i][m], (i, m))),
    );
    assert(same_shape(ids, both)) by {
        assert forall|i: int| 0 <= i < ids.len() implies (#[trigger] ids[i]).len()
            == both[i].len() by {}
    }
    assert(same_shape(labels, both)) by {
        assert forall|i: int| 0 <= i < labels.len() implies (#[trigger] labels[i]).len() % 2 == 1
            && labels[i].len() == both[i].len() by {
            assert(ids[i].len() % 2 == 1);
        }
    }
    assert(same_shape(places, both)) by {
        assert forall|i: int| 0 <= i < places.len() implies (#[trigger] places[i]).len() % 2 == 1
            && places[i].len() == both[i].len() by {
            assert(ids[i].len() % 2 == 1);
            assert(ids[i].len() == places[i].len());
        }
    }
    lemma_flattened_shape(ids, labels);
    lemma_flattened_shape(ids, places);
    let a = lemma_flattened_origin(ids, both, k);
    let b = lemma_flattened_origin(labels, both, k);
    let c = lemma_flattened_origin(places, both, k);
    assert(both[a.0][a.1].1 == a);
    assert(both[b.0][b.1].1 == b);
    assert(both[c.0][c.1].1 == c);
    assert(places[c.0][c.1] == c);
}

/// Whether each tree of a resolved merge is one of the merged trees, added or removed as
/// there, with the label of its place, and no two are from the same place.
pub open spec fn is_left_of(
    r: MergedTreeModel,
    merged: Seq<Seq<u8>>,
    labels: Seq<Seq<char>>,
    origin: spec_fn(int) -> int,
) -> bool {
    &&& forall|k: int|
        0 <= k < r.ids.len() ==> {
            &&& 0 <= #[trigger] origin(k) < merged.len()
            &&& origin(k) % 2 == k % 2
            &&& r.ids[k] == merged[origin(k)]
            &&& r.ids.len() > 1 && labels.len() > 1 ==> labels[origin(k)] == if r.labels == seq![
                Seq::<char>::empty(),
            ] {
                Seq::empty()
            } else {
                r.labels[k]
            }
        }
    &&& forall|k: int, l: int|
        0 <= k < l < r.ids.len() ==> #[trigger] origin(k) != #[trigger] origin(l)
}

/// The trees that are left when a tree is resolved come from different places of the merged
/// ones, each with the label of its place.
pub proof fn law_origins_of_resolved(model: MergedTreeModel, merged: Seq<Seq<u8>>)
    requires
        model.valid(),
        model.ids.len() <= usize::MAX,
        merged.len() == 1 || merged.len() == model.ids.len(),
    ensures
        exists|origin: spec_fn(int) -> int| #[trigger]
            is_left_of(
                merged_tree::resolved_merge(model, merged),
                merged,
                model.labels,
                origin,
            ),
{
    let r = merged_tree::resolved_merge(model, merged);
    let none = seq![Seq::<char>::empty()];
    assert(conflict_labels::unlabeled_terms() =~= none);
    if merged.len() == 1 {
        let origin = |k: int| k;
        assert(is_left_of(r, merged, model.labels, origin));
    } else {
        simplify::law_simplified(merged);
        simplify::law_simplified_places(merged);
        let mapping = simplify::simplified_mapping(merged);
        let origin = |k: int| mapping[k] as int;
        let left = simplify::terms_at(model.labels, mapping);
        assert forall|k: int| 0 <= k < r.ids.len() implies {
            &&& 0 <= #[trigger] origin(k) < merged.len()
            &&& origin(k) % 2 == k % 2
            &&& r.ids[k] == merged[origin(k)]
            &&& r.ids.len() > 1 && model.labels.len() > 1 ==> model.labels[origin(k)]
                == if r.labels == none {
                Seq::empty()
            } else {
                r.labels[k]
            }
        } by {
            assert(mapping[k] < merged.len());
            if model.labels.len() > 1 && r.ids.len() > 1 {
                assert(left[k] == model.labels[mapping[k] as int]);
                if conflict_labels::all_empty(left) {
                    assert(left[k].len() == 0);
                    assert(left[k] =~= Seq::empty());
                } else {
                    assert(left.len() != none.len());
                }
            }
        }
        assert forall|k: int, l: int| 0 <= k < l < r.ids.len() implies #[trigger] origin(k)
            != #[trigger] origin(l) by {
            assert(mapping[k] != mapping[l]);
        }
        assert(is_left_of(r, merged, model.labels, origin));
    }
}

} // verus!
