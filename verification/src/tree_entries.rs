//! The entries of merged trees in one directory, and how they differ.

use crate::backend;
use crate::backend::TreeValue;
use crate::listing;
use crate::merge;
use crate::merge::Diff;
use crate::merge::Merge;
use crate::order;
use crate::repo_path::NameView;
use crate::repo_path::RepoPathComponentBuf;
use crate::tree;
use crate::tree::Tree;
use crate::tree::TreeModel;
use crate::tree_value::MergedTreeVal;
use crate::tree_value::MergedValueView;
use crate::tree_value::TreeValueView;
use crate::value::Value;
use crate::vectors;
use itertools::EitherOrBoth;
use std::cmp::Ordering;
use vstd::prelude::*;

verus! {

/// Whether all the trees are sorted.
pub open spec fn sorted_trees(trees: Seq<TreeModel>) -> bool {
    forall|i: int|
        0 <= i < trees.len() ==> backend::sorted_entries((#[trigger] trees[i]).entries)
}

/// How many entries are left after the given places.
spec fn entries_left(trees: Seq<TreeModel>, places: Seq<usize>) -> int
    decreases places.len(),
{
    if places.len() == 0 {
        0
    } else {
        let last = places.len() - 1;
        entries_left(trees, places.drop_last()) + (trees[last].entries.len() - places[last])
    }
}

proof fn lemma_entries_left(trees: Seq<TreeModel>, a: Seq<usize>, b: Seq<usize>)
    requires
        a.len() == b.len(),
        a.len() <= trees.len(),
        forall|i: int|
            0 <= i < a.len() ==> (#[trigger] a[i]) <= b[i] && b[i] <= trees[i].entries.len(),
    ensures
        0 <= entries_left(trees, b) <= entries_left(trees, a),
        (exists|i: int| 0 <= i < a.len() && (#[trigger] a[i]) < b[i]) ==> entries_left(trees, b)
            < entries_left(trees, a),
    decreases a.len(),
{
    if a.len() > 0 {
        let last = a.len() - 1;
        assert(a[last] <= b[last]);
        lemma_entries_left(trees, a.drop_last(), b.drop_last());
        if exists|i: int| 0 <= i < a.len() && (#[trigger] a[i]) < b[i] {
            let i = choose|i: int| 0 <= i < a.len() && (#[trigger] a[i]) < b[i];
            if i < last {
                assert(a.drop_last()[i] < b.drop_last()[i]);
            }
        }
    }
}

/// What holds while the trees are walked together: the entries before the given
/// places are in `out`, and those from there on come after all of `out`.
spec fn partly_listed(
    trees: Seq<TreeModel>,
    places: Seq<usize>,
    out: Seq<(NameView, MergedValueView)>,
) -> bool {
    let less = order::name_order();
    &&& places.len() == trees.len()
    &&& forall|t: int|
        0 <= t < trees.len() ==> (#[trigger] places[t]) <= trees[t].entries.len()
    &&& forall|t: int, i: int|
        0 <= t < trees.len() && 0 <= i < places[t] ==> listing::lookup(
            out,
            (#[trigger] trees[t].entries[i]).0,
        ) is Some
    &&& forall|k: int, t: int, i: int|
        0 <= k < out.len() && 0 <= t < trees.len() && places[t] <= i < trees[t].entries.len()
            ==> less((#[trigger] out[k]).0, (#[trigger] trees[t].entries[i]).0)
    &&& forall|k: int|
        0 <= k < out.len() ==> (#[trigger] out[k]).1 == tree::values_at(trees, out[k].0)
            && tree::has_name(trees, out[k].0)
    &&& listing::sorted_by(less, out)
}

proof fn lemma_fully_listed(
    trees: Seq<TreeModel>,
    places: Seq<usize>,
    out: Seq<(NameView, MergedValueView)>,
)
    requires
        sorted_trees(trees),
        partly_listed(trees, places, out),
        forall|t: int|
            0 <= t < trees.len() ==> (#[trigger] places[t]) == trees[t].entries.len(),
    ensures
        listing::tabulates(order::name_order(), out, tree::listed_values(trees)),
{
    let f = tree::listed_values(trees);
    assert forall|name: NameView| #[trigger] listing::lookup(out, name) == f(name) by {
        if tree::has_name(trees, name) {
            let t = choose|t: int|
                0 <= t < trees.len() && (#[trigger] listing::lookup(trees[t].entries, name)) is Some;
            let i = listing::lemma_lookup_some(trees[t].entries, name);
            assert(places[t] == trees[t].entries.len());
            assert(listing::lookup(out, trees[t].entries[i].0) is Some);
        }
        if listing::lookup(out, name) is Some {
            let k = listing::lemma_lookup_some(out, name);
        }
    }
}

/// The value that a tree has for a name that comes before or at its place.
proof fn lemma_value_at_place(
    trees: Seq<TreeModel>,
    places: Seq<usize>,
    out: Seq<(NameView, MergedValueView)>,
    name: NameView,
    t: int,
)
    requires
        sorted_trees(trees),
        partly_listed(trees, places, out),
        0 <= t < trees.len(),
        places[t] < trees[t].entries.len() ==> !order::name_less(
            trees[t].entries[places[t] as int].0,
            name,
        ),
        forall|k: int| 0 <= k < out.len() ==> order::name_less((#[trigger] out[k]).0, name),
    ensures
        listing::lookup(trees[t].entries, name) == (if places[t] < trees[t].entries.len()
            && trees[t].entries[places[t] as int].0 == name {
            Some(trees[t].entries[places[t] as int].1)
        } else {
            None
        }),
{
    let less = order::name_order();
    order::lemma_name_order();
    let entries = trees[t].entries;
    let place = places[t] as int;
    assert(backend::sorted_entries(trees[t].entries));
    if place < entries.len() && entries[place].0 == name {
        listing::lemma_lookup_at(less, entries, place);
    } else if listing::lookup(entries, name) is Some {
        let i = listing::lemma_lookup_some(entries, name);
        if i < place {
            assert(listing::lookup(out, trees[t].entries[i].0) is Some);
            let k = listing::lemma_lookup_some(out, name);
            assert(less(out[k].0, name));
            assert(false);
        } else {
            assert(place < i);
            assert(less(entries[place].0, entries[i].0));
            assert(false);
        }
    }
}

/// The first name that has not been listed, if there is one.
fn next_name<'a>(trees: &'a [Tree], places: &Vec<usize>) -> (r: Option<&'a RepoPathComponentBuf>)
    requires
        places.len() == trees.len(),
        forall|t: int|
            0 <= t < trees.len() ==> (#[trigger] places[t]) <= trees@[t]@.entries.len(),
    ensures
        match r {
            Some(name) => {
                &&& forall|t: int|
                    0 <= t < trees.len() && (#[trigger] places[t]) < trees@[t]@.entries.len()
                        ==> !order::name_less(trees@[t]@.entries[places[t] as int].0, name@)
                &&& exists|t: int|
                    0 <= t < trees.len() && (#[trigger] places[t]) < trees@[t]@.entries.len()
                        && trees@[t]@.entries[places[t] as int].0 == name@
            },
            None => forall|t: int|
                0 <= t < trees.len() ==> (#[trigger] places[t]) == trees@[t]@.entries.len(),
        },
{
    let n = trees.len();
    let mut first: Option<&'a RepoPathComponentBuf> = None;
    for t in 0..n
        invariant
            n == trees.len(),
            places.len() == n,
            forall|t: int|
                0 <= t < trees.len() ==> (#[trigger] places[t]) <= trees@[t]@.entries.len(),
            match first {
                Some(name) => {
                    &&& forall|s: int|
                        0 <= s < t && (#[trigger] places[s]) < trees@[s]@.entries.len()
                            ==> !order::name_less(trees@[s]@.entries[places[s] as int].0, name@)
                    &&& exists|s: int|
                        0 <= s < t && (#[trigger] places[s]) < trees@[s]@.entries.len()
                            && trees@[s]@.entries[places[s] as int].0 == name@
                },
                None => forall|s: int|
                    0 <= s < t ==> (#[trigger] places[s]) == trees@[s]@.entries.len(),
            },
    {
        let ghost before = first;
        let data = trees[t].data();
        let place = places[t];
        if place < data.len() {
            let name = data.entry_at(place).name();
            let better = match first {
                Some(other) => name.is_before(other),
                None => true,
            };
            proof {
                order::lemma_names(name@, name@, name@);
                if let Some(other) = first {
                    assert forall|s: int|
                        0 <= s < t && (#[trigger] places[s]) < trees@[s]@.entries.len()
                            && better implies !order::name_less(
                        trees@[s]@.entries[places[s] as int].0,
                        name@,
                    ) by {
                        order::lemma_names(
                            trees@[s]@.entries[places[s] as int].0,
                            name@,
                            other@,
                        );
                    }
                }
                assert(trees@[t as int]@.entries[places[t as int] as int].0 == name@);
            }
            if better {
                first = Some(name);
            }
        }
        proof {
            if before is Some && first == before {
                let s = choose|s: int|
                    0 <= s < t && (#[trigger] places[s]) < trees@[s]@.entries.len()
                        && trees@[s]@.entries[places[s] as int].0 == before->0@;
                assert(places[s] < trees@[s]@.entries.len());
            }
        }
    }
    first
}

/// Suppose the given `trees` aren't resolved, lists `(name, values)` pairs
/// non-recursively. This also works if `trees` are resolved, but is more costly
/// than `tree.entries_non_recursive()`.
pub fn all_merged_tree_entries(trees: &Merge<Tree>) -> (r: Vec<
    (&RepoPathComponentBuf, MergedTreeVal<'_>),
>)
    ensures
        listing::tabulates(order::name_order(), r.deep_view(), tree::listed_values(trees@)),
{
    let terms = trees.as_slice();
    let n = terms.len();
    let mut places: Vec<usize> = Vec::new();
    for t in 0..n
        invariant
            n == terms.len(),
            terms@ == trees.terms(),
            places.len() == t,
            forall|s: int| 0 <= s < t ==> places[s] == 0,
            forall|s: int|
                0 <= s < t ==> backend::sorted_entries((#[trigger] trees@[s]).entries),
    {
        let _size = terms[t].data().len();
        assert(trees@[t as int] == terms@[t as int]@);
        places.push(0);
    }
    assert(sorted_trees(trees@));
    let mut out: Vec<(&RepoPathComponentBuf, MergedTreeVal<'_>)> = Vec::new();
    assert(out.deep_view() =~= Seq::empty());
    let mut done = false;
    while !done
        invariant
            n == terms.len(),
            n % 2 == 1,
            terms@ == trees.terms(),
            sorted_trees(trees@),
            partly_listed(trees@, places@, out.deep_view()),
            done ==> forall|t: int|
                0 <= t < trees@.len() ==> (#[trigger] places@[t]) == trees@[t].entries.len(),
        decreases entries_left(trees@, places@) + if done {
            0int
        } else {
            1
        },
    {
        proof {
            assert forall|t: int| 0 <= t < terms.len() implies terms@[t]@ == #[trigger] trees@[t] by {}
            lemma_entries_left(trees@, places@, places@);
        }
        match next_name(terms, &places) {
            None => {
                assert forall|t: int| 0 <= t < trees@.len() implies (#[trigger] places@[t])
                    == trees@[t].entries.len() by {
                    assert(terms@[t]@ == trees@[t]);
                }
                done = true;
            },
            Some(name) => {
                let ghost before = out.deep_view();
                let ghost start = places@;
                proof {
                    let t = choose|t: int|
                        0 <= t < terms.len() && (#[trigger] places[t]) < terms@[t]@.entries.len()
                            && terms@[t]@.entries[places[t] as int].0 == name@;
                    assert(terms@[t]@ == trees@[t]);
                    assert(trees@[t].entries[places[t] as int].0 == name@);
                    assert(places@[t] < trees@[t].entries.len());
                    assert forall|k: int| 0 <= k < before.len() implies order::name_less(
                        (#[trigger] before[k]).0,
                        name@,
                    ) by {
                        let less = order::name_order();
                        assert(less(before[k].0, trees@[t].entries[places@[t] as int].0));
                    }
                }
                let mut values: Vec<Option<&TreeValue>> = Vec::new();
                for t in 0..n
                    invariant
                        n == terms.len(),
                        terms@ == trees.terms(),
                        sorted_trees(trees@),
                        partly_listed(trees@, start, before),
                        forall|k: int|
                            0 <= k < before.len() ==> order::name_less(
                                (#[trigger] before[k]).0,
                                name@,
                            ),
                        forall|s: int|
                            0 <= s < trees@.len() && (#[trigger] start[s])
                                < trees@[s].entries.len() ==> !order::name_less(
                                trees@[s].entries[start[s] as int].0,
                                name@,
                            ),
                        values.len() == t,
                        places.len() == n,
                        start.len() == n,
                        forall|s: int|
                            0 <= s < t ==> (#[trigger] values@[s]).deep_view() == tree::values_at(
                                trees@,
                                name@,
                            )[s],
                        forall|s: int|
                            0 <= s < t ==> (#[trigger] places@[s]) == (if start[s]
                                < trees@[s].entries.len() && trees@[s].entries[start[s] as int].0
                                == name@ {
                                start[s] + 1
                            } else {
                                start[s] as int
                            }),
                        forall|s: int| t <= s < n ==> (#[trigger] places@[s]) == start[s],
                {
                    let data = terms[t].data();
                    let place = places[t];
                    proof {
                        assert(terms@[t as int]@ == trees@[t as int]);
                        assert(places@[t as int] == start[t as int]);
                        lemma_value_at_place(trees@, start, before, name@, t as int);
                    }
                    if place < data.len() && data.entry_at(place).name().same(name) {
                        values.push(Some(data.entry_at(place).value()));
                        places.set(t, place + 1);
                    } else {
                        values.push(None);
                    }
                }
                let values = Merge::from_vec(values);
                assert(values@ =~= tree::values_at(trees@, name@));
                out.push((name, values));
                proof {
                    let after = out.deep_view();
                    assert(after =~= before.push((name@, values@)));
                    lemma_next_listed(trees@, start, places@, before, name@);
                    let t = choose|t: int|
                        0 <= t < trees@.len() && (#[trigger] start[t]) < trees@[t].entries.len()
                            && trees@[t].entries[start[t] as int].0 == name@;
                    assert(start[t] < places@[t]);
                    assert forall|s: int| 0 <= s < start.len() implies (#[trigger] start[s])
                        <= places@[s] && places@[s] <= trees@[s].entries.len() by {
                        assert(places@[s] <= trees@[s].entries.len());
                    }
                    lemma_entries_left(trees@, start, places@);
                }
            },
        }
    }
    proof {
        lemma_fully_listed(trees@, places@, out.deep_view());
    }
    out
}

proof fn lemma_next_listed(
    trees: Seq<TreeModel>,
    start: Seq<usize>,
    places: Seq<usize>,
    out: Seq<(NameView, MergedValueView)>,
    name: NameView,
)
    requires
        sorted_trees(trees),
        partly_listed(trees, start, out),
        places.len() == trees.len(),
        forall|k: int| 0 <= k < out.len() ==> order::name_less((#[trigger] out[k]).0, name),
        forall|s: int|
            0 <= s < trees.len() && (#[trigger] start[s]) < trees[s].entries.len()
                ==> !order::name_less(trees[s].entries[start[s] as int].0, name),
        exists|s: int|
            0 <= s < trees.len() && (#[trigger] start[s]) < trees[s].entries.len()
                && trees[s].entries[start[s] as int].0 == name,
        forall|s: int|
            0 <= s < trees.len() ==> (#[trigger] places[s]) == (if start[s]
                < trees[s].entries.len() && trees[s].entries[start[s] as int].0 == name {
                start[s] + 1
            } else {
                start[s] as int
            }),
    ensures
        partly_listed(trees, places, out.push((name, tree::values_at(trees, name)))),
{
    let less = order::name_order();
    order::lemma_name_order();
    let next = out.push((name, tree::values_at(trees, name)));
    assert forall|k: int| 0 <= k < out.len() implies less((#[trigger] out[k]).0, name) by {}
    listing::lemma_lookup_push(less, out, name, tree::values_at(trees, name));
    assert forall|t: int| 0 <= t < trees.len() implies (#[trigger] places[t])
        <= trees[t].entries.len() by {
        assert(start[t] <= trees[t].entries.len());
    }
    assert forall|t: int, i: int| 0 <= t < trees.len() && 0 <= i < places[t] implies listing::lookup(
        next,
        (#[trigger] trees[t].entries[i]).0,
    ) is Some by {
        assert(places[t] <= start[t] + 1);
        if i < start[t] {
            assert(listing::lookup(out, trees[t].entries[i].0) is Some);
        }
    }
    assert forall|k: int, t: int, i: int|
        0 <= k < next.len() && 0 <= t < trees.len() && places[t] <= i < trees[t].entries.len() implies less(
        (#[trigger] next[k]).0,
        (#[trigger] trees[t].entries[i]).0,
    ) by {
        assert(start[t] <= places[t]);
        if k < out.len() {
            assert(next[k] == out[k]);
            assert(less(out[k].0, trees[t].entries[i].0));
        } else {
            let head = trees[t].entries[start[t] as int].0;
            assert(!less(head, name));
            assert(backend::sorted_entries(trees[t].entries));
            if start[t] < i {
                assert(less(trees[t].entries[start[t] as int].0, trees[t].entries[i].0));
            }
            assert(less(head, name) || head == name || less(name, head));
        }
    }
    let w = choose|s: int|
        0 <= s < trees.len() && (#[trigger] start[s]) < trees[s].entries.len()
            && trees[s].entries[start[s] as int].0 == name;
    assert(start[w] < trees[w].entries.len());
    assert(backend::sorted_entries(trees[w].entries));
    listing::lemma_lookup_at(less, trees[w].entries, start[w] as int);
    assert(tree::has_name(trees, name));
    assert forall|k: int| 0 <= k < next.len() implies (#[trigger] next[k]).1 == tree::values_at(
        trees,
        next[k].0,
    ) && tree::has_name(trees, next[k].0) by {
        if k < out.len() {
            assert(next[k] == out[k]);
        }
    }
}

/// The entries of the trees in one directory, with merged values.
pub fn all_tree_entries(trees: &Merge<Tree>) -> (r: Vec<(&RepoPathComponentBuf, MergedTreeVal<'_>)>)
    ensures
        listing::tabulates(order::name_order(), r.deep_view(), tree::listed_entries(trees@)),
        trees@.len() % 2 == 1,
{
    let _size = trees.as_slice().len();
    match trees.as_resolved() {
        Some(tree) => {
            proof {
                assert(trees.terms()[0] == *tree);
                assert(trees@[0] == tree@);
            }
            let data = tree.data();
            let n = data.len();
            let mut out: Vec<(&RepoPathComponentBuf, MergedTreeVal<'_>)> = Vec::new();
            for i in 0..n
                invariant
                    n == data@.len(),
                    out.len() == i,
                    forall|j: int|
                        0 <= j < i ==> (#[trigger] out@[j]).0@ == data@[j].0 && out@[j].1@ == seq![
                            Some(data@[j].1),
                        ],
            {
                let entry = data.entry_at(i);
                let value = Merge::normal(entry.value());
                assert(value@ =~= seq![Some(entry@.1)]);
                out.push((entry.name(), value));
            }
            proof {
                lemma_single_tree_entries(trees@, out.deep_view());
            }
            out
        },
        None => {
            let same_change = trees.first().store().merge_options().same_change;
            assert(trees@[0] == trees.terms()[0]@);
            let merged = all_merged_tree_entries(trees);
            let ghost all = merged@;
            let ghost listed = merged.deep_view();
            let mut rest = vectors::reversed(merged);
            let n = rest.len();
            let mut out: Vec<(&RepoPathComponentBuf, MergedTreeVal<'_>)> = Vec::new();
            assert(all.skip(0) =~= all);
            for i in 0..n
                invariant
                    n == all.len(),
                    rest@ == all.skip(i as int).reverse(),
                    out.len() == i,
                    forall|j: int|
                        0 <= j < i ==> (#[trigger] out@[j]).0@ == all[j].0@ && out@[j].1@
                            == tree::resolved_terms(all[j].1@, same_change),
            {
                let ghost before = rest@;
                assert(before.len() > 0);
                if let Some((name, values)) = rest.pop() {
                    assert((name, values) == all[i as int]);
                    out.push((name, tree::resolve_terms(values, same_change)));
                }
                assert(rest@ =~= all.skip(i + 1).reverse());
            }
            proof {
                let result = out.deep_view();
                assert forall|i: int| 0 <= i < result.len() implies (#[trigger] result[i]) == (
                    listed[i].0,
                    tree::resolved_terms(listed[i].1, same_change),
                ) by {
                    assert(result[i] == (out@[i].0@, out@[i].1@));
                    assert(listed[i] == (all[i].0@, all[i].1@));
                }
                lemma_resolved_entries(trees@, listed, result);
            }
            out
        },
    }
}

proof fn lemma_single_tree_entries(
    trees: Seq<TreeModel>,
    out: Seq<(NameView, MergedValueView)>,
)
    requires
        trees.len() == 1,
        backend::sorted_entries(trees[0].entries),
        out.len() == trees[0].entries.len(),
        forall|i: int|
            0 <= i < out.len() ==> (#[trigger] out[i]) == (
                trees[0].entries[i].0,
                seq![Some(trees[0].entries[i].1)],
            ),
    ensures
        listing::tabulates(order::name_order(), out, tree::listed_entries(trees)),
{
    let less = order::name_order();
    order::lemma_name_order();
    let entries = trees[0].entries;
    let f = tree::listed_entries(trees);
    assert forall|i: int, j: int| 0 <= i < j < out.len() implies less(
        (#[trigger] out[i]).0,
        (#[trigger] out[j]).0,
    ) by {
        assert(less(entries[i].0, entries[j].0));
    }
    assert forall|name: NameView| #[trigger] listing::lookup(out, name) == f(name) by {
        tree::lemma_single_tree_value(trees, name);
        if listing::lookup(entries, name) is Some {
            let i = listing::lemma_lookup_some(entries, name);
            assert(out[i].0 == name);
            listing::lemma_lookup_at(less, out, i);
            assert(listing::lookup(trees[0].entries, name) is Some);
        } else {
            if listing::lookup(out, name) is Some {
                let i = listing::lemma_lookup_some(out, name);
                assert(entries[i].0 == name);
                listing::lemma_lookup_none(entries, name);
            }
            assert(!tree::has_name(trees, name));
        }
    }
}

proof fn lemma_resolved_entries(
    trees: Seq<TreeModel>,
    listed: Seq<(NameView, MergedValueView)>,
    out: Seq<(NameView, MergedValueView)>,
)
    requires
        listing::tabulates(order::name_order(), listed, tree::listed_values(trees)),
        out.len() == listed.len(),
        forall|i: int|
            0 <= i < out.len() ==> (#[trigger] out[i]) == (
                listed[i].0,
                tree::resolved_terms(listed[i].1, trees[0].store.options().same_change),
            ),
    ensures
        listing::tabulates(order::name_order(), out, tree::listed_entries(trees)),
{
    let less = order::name_order();
    order::lemma_name_order();
    let f = tree::listed_values(trees);
    let g = tree::listed_entries(trees);
    assert forall|i: int, j: int| 0 <= i < j < out.len() implies less(
        (#[trigger] out[i]).0,
        (#[trigger] out[j]).0,
    ) by {
        assert(less(listed[i].0, listed[j].0));
    }
    assert forall|name: NameView| #[trigger] listing::lookup(out, name) == g(name) by {
        assert(listing::lookup(listed, name) == f(name));
        if listing::lookup(listed, name) is Some {
            let i = listing::lemma_lookup_some(listed, name);
            assert(out[i].0 == name);
            listing::lemma_lookup_at(less, out, i);
        } else if listing::lookup(out, name) is Some {
            let i = listing::lemma_lookup_some(out, name);
            assert(listed[i].0 == name);
            listing::lemma_lookup_none(listed, name);
        }
    }
}

/// How two names compare.
fn compare_names(a: &RepoPathComponentBuf, b: &RepoPathComponentBuf) -> (r: Ordering)
    ensures
        match r {
            Ordering::Less => order::name_less(a@, b@),
            Ordering::Equal => a@ == b@,
            Ordering::Greater => order::name_less(b@, a@),
        },
{
    if a.is_before(b) {
        Ordering::Less
    } else if a.same(b) {
        Ordering::Equal
    } else {
        proof {
            order::lemma_names(a@, b@, b@);
        }
        Ordering::Greater
    }
}

/// Which items of two lists of names go together from the given places on: the
/// smaller of the two next names goes alone, and equal names go together.
pub open spec fn joined(left: Seq<NameView>, right: Seq<NameView>, i: nat, j: nat) -> Seq<
    (Option<usize>, Option<usize>),
>
    decreases left.len() - i + right.len() - j,
    when i <= left.len() && j <= right.len()
{
    if i == left.len() && j == right.len() {
        Seq::empty()
    } else if j == right.len() || (i < left.len() && order::name_less(
        left[i as int],
        right[j as int],
    )) {
        seq![(Some(i as usize), None)] + joined(left, right, i + 1, j)
    } else if i == left.len() || order::name_less(right[j as int], left[i as int]) {
        seq![(None, Some(j as usize))] + joined(left, right, i, j + 1)
    } else {
        seq![(Some(i as usize), Some(j as usize))] + joined(left, right, i + 1, j + 1)
    }
}

/// Calls `itertools::merge_join_by` on the places of two lists of names, which
/// are compared by name: as long as both lists have a next name, the smaller one
/// comes out alone and equal ones come out together, and then what is left of
/// either list.
#[verifier::external_body]
fn merge_join(left: &Vec<&RepoPathComponentBuf>, right: &Vec<&RepoPathComponentBuf>) -> (r: Vec<
    (Option<usize>, Option<usize>),
>)
    ensures
        r@ == joined(left.deep_view(), right.deep_view(), 0, 0),
{
    itertools::merge_join_by(
        0..left.len(),
        0..right.len(),
        |i, j| compare_names(left[*i], right[*j]),
    ).map(
        |places|
            match places {
                EitherOrBoth::Both(i, j) => (Some(i), Some(j)),
                EitherOrBoth::Left(i) => (Some(i), None),
                EitherOrBoth::Right(j) => (None, Some(j)),
            },
    ).collect()
}

/// How the trees differ at each name: the merged values on both sides, where
/// they are not the same.
pub open spec fn entry_diff(trees1: Seq<TreeModel>, trees2: Seq<TreeModel>) -> spec_fn(
    NameView,
) -> Option<Diff<MergedValueView>> {
    |name: NameView|
        if tree::tree_value(trees1, name) != tree::tree_value(trees2, name) {
            Some(
                Diff {
                    before: tree::tree_value(trees1, name),
                    after: tree::tree_value(trees2, name),
                },
            )
        } else {
            None
        }
}

fn entry_names<'a>(entries: &Vec<(&'a RepoPathComponentBuf, MergedTreeVal<'a>)>) -> (r: Vec<
    &'a RepoPathComponentBuf,
>)
    ensures
        r.deep_view() == Seq::new(entries@.len(), |i: int| entries.deep_view()[i].0),
{
    let n = entries.len();
    let mut r: Vec<&RepoPathComponentBuf> = Vec::new();
    for i in 0..n
        invariant
            n == entries.len(),
            r.len() == i,
            forall|j: int| 0 <= j < i ==> (#[trigger] r@[j])@ == entries.deep_view()[j].0,
    {
        r.push(entries[i].0);
    }
    assert(r.deep_view() =~= Seq::new(entries@.len(), |i: int| entries.deep_view()[i].0));
    r
}

/// What holds while the entries of both sides are walked together: the names
/// before the given places have been compared, and those from there on come
/// after all of `out`.
spec fn partly_compared(
    e1: Seq<(NameView, MergedValueView)>,
    e2: Seq<(NameView, MergedValueView)>,
    i: int,
    j: int,
    out: Seq<(NameView, Diff<MergedValueView>)>,
    d: spec_fn(NameView) -> Option<Diff<MergedValueView>>,
) -> bool {
    let less = order::name_order();
    &&& 0 <= i <= e1.len()
    &&& 0 <= j <= e2.len()
    &&& listing::sorted_by(less, out)
    &&& forall|a: int|
        0 <= a < i ==> listing::lookup(out, (#[trigger] e1[a]).0) == d(e1[a].0)
    &&& forall|b: int|
        0 <= b < j ==> listing::lookup(out, (#[trigger] e2[b]).0) == d(e2[b].0)
    &&& forall|k: int| 0 <= k < out.len() ==> d((#[trigger] out[k]).0) == Some(out[k].1)
    &&& forall|k: int, a: int|
        0 <= k < out.len() && i <= a < e1.len() ==> less(
            (#[trigger] out[k]).0,
            (#[trigger] e1[a]).0,
        )
    &&& forall|k: int, b: int|
        0 <= k < out.len() && j <= b < e2.len() ==> less(
            (#[trigger] out[k]).0,
            (#[trigger] e2[b]).0,
        )
    &&& forall|a: int, b: int|
        0 <= a < i && j <= b < e2.len() ==> less((#[trigger] e1[a]).0, (#[trigger] e2[b]).0)
    &&& forall|a: int, b: int|
        i <= a < e1.len() && 0 <= b < j ==> less((#[trigger] e2[b]).0, (#[trigger] e1[a]).0)
}

/// Takes a name from one side or the same name from both.
proof fn lemma_next_compared(
    e1: Seq<(NameView, MergedValueView)>,
    e2: Seq<(NameView, MergedValueView)>,
    i: int,
    j: int,
    ni: int,
    nj: int,
    name: NameView,
    out: Seq<(NameView, Diff<MergedValueView>)>,
    next: Seq<(NameView, Diff<MergedValueView>)>,
    d: spec_fn(NameView) -> Option<Diff<MergedValueView>>,
)
    requires
        listing::sorted_by(order::name_order(), e1),
        listing::sorted_by(order::name_order(), e2),
        partly_compared(e1, e2, i, j, out, d),
        i <= ni <= i + 1,
        j <= nj <= j + 1,
        ni <= e1.len(),
        nj <= e2.len(),
        ni > i || nj > j,
        ni > i ==> e1[i].0 == name,
        nj > j ==> e2[j].0 == name,
        ni == i && i < e1.len() ==> order::name_less(name, e1[i].0),
        nj == j && j < e2.len() ==> order::name_less(name, e2[j].0),
        next == (match d(name) {
            Some(diff) => out.push((name, diff)),
            None => out,
        }),
    ensures
        partly_compared(e1, e2, ni, nj, next, d),
{
    let less = order::name_order();
    order::lemma_name_order();
    assert forall|k: int| 0 <= k < out.len() implies less((#[trigger] out[k]).0, name) by {
        if ni > i {
            assert(less(out[k].0, e1[i].0));
        } else {
            assert(less(out[k].0, e2[j].0));
        }
    }
    assert forall|a: int| ni <= a < e1.len() implies less(name, (#[trigger] e1[a]).0) by {
        if a > i {
            assert(less(e1[i].0, e1[a].0));
        }
        if ni == i {
            assert(less(name, e1[i].0));
        }
    }
    assert forall|b: int| nj <= b < e2.len() implies less(name, (#[trigger] e2[b]).0) by {
        if b > j {
            assert(less(e2[j].0, e2[b].0));
        }
        if nj == j {
            assert(less(name, e2[j].0));
        }
    }
    if let Some(diff) = d(name) {
        listing::lemma_lookup_push(less, out, name, diff);
    } else if listing::lookup(out, name) is Some {
        let k = listing::lemma_lookup_some(out, name);
        assert(less(out[k].0, name));
    }
    assert(listing::lookup(next, name) == d(name));
    assert forall|a: int| 0 <= a < ni implies listing::lookup(next, (#[trigger] e1[a]).0) == d(
        e1[a].0,
    ) by {
        if a < i {
            assert(listing::lookup(out, e1[a].0) == d(e1[a].0));
        }
    }
    assert forall|b: int| 0 <= b < nj implies listing::lookup(next, (#[trigger] e2[b]).0) == d(
        e2[b].0,
    ) by {
        if b < j {
            assert(listing::lookup(out, e2[b].0) == d(e2[b].0));
        }
    }
    assert forall|k: int| 0 <= k < next.len() implies d((#[trigger] next[k]).0) == Some(
        next[k].1,
    ) by {
        if k < out.len() {
            assert(next[k] == out[k]);
        }
    }
    assert forall|k: int, a: int| 0 <= k < next.len() && ni <= a < e1.len() implies less(
        (#[trigger] next[k]).0,
        (#[trigger] e1[a]).0,
    ) by {
        if k < out.len() {
            assert(next[k] == out[k]);
        }
        assert(less(name, e1[a].0));
    }
    assert forall|k: int, b: int| 0 <= k < next.len() && nj <= b < e2.len() implies less(
        (#[trigger] next[k]).0,
        (#[trigger] e2[b]).0,
    ) by {
        if k < out.len() {
            assert(next[k] == out[k]);
        }
        assert(less(name, e2[b].0));
    }
    assert forall|a: int, b: int| 0 <= a < ni && nj <= b < e2.len() implies less(
        (#[trigger] e1[a]).0,
        (#[trigger] e2[b]).0,
    ) by {
        if a == i {
            assert(less(name, e2[b].0));
        }
    }
    assert forall|a: int, b: int| ni <= a < e1.len() && 0 <= b < nj implies less(
        (#[trigger] e2[b]).0,
        (#[trigger] e1[a]).0,
    ) by {
        if b == j {
            assert(less(name, e1[a].0));
        }
    }
}

/// The value that listed entries have for a name, absent if it is not listed.
proof fn lemma_listed_value(
    trees: Seq<TreeModel>,
    entries: Seq<(NameView, MergedValueView)>,
    name: NameView,
)
    requires
        trees.len() % 2 == 1,
        listing::tabulates(order::name_order(), entries, tree::listed_entries(trees)),
    ensures
        tree::tree_value(trees, name) == (match listing::lookup(entries, name) {
            Some(value) => value,
            None => merge::absent_terms::<TreeValueView>(),
        }),
{
    let f = tree::listed_entries(trees);
    assert(listing::lookup(entries, name) == f(name));
    if !tree::has_name(trees, name) {
        tree::lemma_missing_value(trees, name);
    }
}

proof fn lemma_only_left(
    e1: Seq<(NameView, MergedValueView)>,
    e2: Seq<(NameView, MergedValueView)>,
    i: int,
    j: int,
    out: Seq<(NameView, Diff<MergedValueView>)>,
    d: spec_fn(NameView) -> Option<Diff<MergedValueView>>,
)
    requires
        listing::sorted_by(order::name_order(), e2),
        partly_compared(e1, e2, i, j, out, d),
        i < e1.len(),
        j == e2.len() || order::name_less(e1[i].0, e2[j].0),
    ensures
        listing::lookup(e2, e1[i].0) is None,
{
    let less = order::name_order();
    order::lemma_name_order();
    if listing::lookup(e2, e1[i].0) is Some {
        let x = listing::lemma_lookup_some(e2, e1[i].0);
        if x < j {
            assert(less(e2[x].0, e1[i].0));
        } else {
            assert(less(e1[i].0, e2[j].0));
            if x > j {
                assert(less(e2[j].0, e2[x].0));
            }
        }
        assert(false);
    }
}

proof fn lemma_only_right(
    e1: Seq<(NameView, MergedValueView)>,
    e2: Seq<(NameView, MergedValueView)>,
    i: int,
    j: int,
    out: Seq<(NameView, Diff<MergedValueView>)>,
    d: spec_fn(NameView) -> Option<Diff<MergedValueView>>,
)
    requires
        listing::sorted_by(order::name_order(), e1),
        partly_compared(e1, e2, i, j, out, d),
        j < e2.len(),
        i == e1.len() || order::name_less(e2[j].0, e1[i].0),
    ensures
        listing::lookup(e1, e2[j].0) is None,
{
    let less = order::name_order();
    order::lemma_name_order();
    if listing::lookup(e1, e2[j].0) is Some {
        let x = listing::lemma_lookup_some(e1, e2[j].0);
        if x < i {
            assert(less(e1[x].0, e2[j].0));
        } else {
            assert(less(e2[j].0, e1[i].0));
            if x > i {
                assert(less(e1[i].0, e1[x].0));
            }
        }
        assert(false);
    }
}

/// What comes first when two lists are joined, and what comes after it.
proof fn lemma_joined_head(left: Seq<NameView>, right: Seq<NameView>, i: nat, j: nat)
    requires
        i <= left.len() <= usize::MAX,
        j <= right.len() <= usize::MAX,
    ensures
        ({
            let s = joined(left, right, i, j);
            &&& s.len() == 0 ==> i == left.len() && j == right.len()
            &&& s.len() > 0 ==> match s[0] {
                (Some(p), Some(q)) => {
                    &&& p == i < left.len()
                    &&& q == j < right.len()
                    &&& left[i as int] == right[j as int]
                    &&& s.drop_first() == joined(left, right, i + 1, j + 1)
                },
                (Some(p), None) => {
                    &&& p == i < left.len()
                    &&& j == right.len() || order::name_less(left[i as int], right[j as int])
                    &&& s.drop_first() == joined(left, right, i + 1, j)
                },
                (None, Some(q)) => {
                    &&& q == j < right.len()
                    &&& i == left.len() || order::name_less(right[j as int], left[i as int])
                    &&& s.drop_first() == joined(left, right, i, j + 1)
                },
                (None, None) => false,
            }
        }),
{
    let s = joined(left, right, i, j);
    if i == left.len() && j == right.len() {
    } else if j == right.len() || (i < left.len() && order::name_less(
        left[i as int],
        right[j as int],
    )) {
        assert(s.drop_first() =~= joined(left, right, i + 1, j));
    } else if i == left.len() || order::name_less(right[j as int], left[i as int]) {
        assert(s.drop_first() =~= joined(left, right, i, j + 1));
    } else {
        order::lemma_names(left[i as int], right[j as int], left[i as int]);
        assert(s.drop_first() =~= joined(left, right, i + 1, j + 1));
    }
}

/// The names at which the trees differ, with the merged values on both sides.
pub fn merged_tree_entry_diff<'a>(trees1: &'a Merge<Tree>, trees2: &'a Merge<Tree>) -> (r: Vec<
    (&'a RepoPathComponentBuf, Diff<MergedTreeVal<'a>>),
>)
    ensures
        listing::tabulates(order::name_order(), r.deep_view(), entry_diff(trees1@, trees2@)),
{
    let entries1 = all_tree_entries(trees1);
    let entries2 = all_tree_entries(trees2);
    let names1 = entry_names(&entries1);
    let names2 = entry_names(&entries2);
    let places = merge_join(&names1, &names2);
    let ghost e1 = entries1.deep_view();
    let ghost e2 = entries2.deep_view();
    let ghost l = names1.deep_view();
    let ghost r = names2.deep_view();
    let ghost d = entry_diff(trees1@, trees2@);
    let mut out: Vec<(&'a RepoPathComponentBuf, Diff<MergedTreeVal<'a>>)> = Vec::new();
    let n = places.len();
    let ghost mut i: nat = 0;
    let ghost mut j: nat = 0;
    assert(out.deep_view() =~= Seq::empty());
    assert(places@.skip(0) =~= places@);
    assert(l.len() == entries1.len() && r.len() == entries2.len());
    for k in 0..n
        invariant
            l.len() <= usize::MAX,
            r.len() <= usize::MAX,
            n == places.len(),
            e1 == entries1.deep_view(),
            e2 == entries2.deep_view(),
            l == Seq::new(e1.len(), |i: int| e1[i].0),
            r == Seq::new(e2.len(), |i: int| e2[i].0),
            d == entry_diff(trees1@, trees2@),
            trees1@.len() % 2 == 1,
            trees2@.len() % 2 == 1,
            listing::tabulates(order::name_order(), e1, tree::listed_entries(trees1@)),
            listing::tabulates(order::name_order(), e2, tree::listed_entries(trees2@)),
            partly_compared(e1, e2, i as int, j as int, out.deep_view(), d),
            places@.skip(k as int) == joined(l, r, i, j),
    {
        let ghost before = out.deep_view();
        let ghost (a, b) = (i, j);
        let place = places[k];
        proof {
            assert(places@.skip(k as int)[0] == place);
            assert(places@.skip(k as int).drop_first() =~= places@.skip(k + 1));
            order::lemma_name_order();
            if i < e1.len() {
                listing::lemma_lookup_at(order::name_order(), e1, i as int);
                assert(e1[i as int] == (entries1@[i as int].0@, entries1@[i as int].1@));
            }
            if j < e2.len() {
                listing::lemma_lookup_at(order::name_order(), e2, j as int);
                assert(e2[j as int] == (entries2@[j as int].0@, entries2@[j as int].1@));
            }
            if i < e1.len() && j < e2.len() {
                order::lemma_names(l[i as int], r[j as int], l[i as int]);
            }
            lemma_joined_head(l, r, i, j);
        }
        let (name, diff) = match place {
            (Some(p), Some(q)) => {
                proof {
                    i = i + 1;
                    j = j + 1;
                }
                (entries1[p].0, Diff::new(entries1[p].1.dup(), entries2[q].1.dup()))
            },
            (Some(p), None) => {
                proof {
                    i = i + 1;
                }
                (entries1[p].0, Diff::new(entries1[p].1.dup(), Merge::absent()))
            },
            (None, Some(q)) => {
                proof {
                    j = j + 1;
                }
                (entries2[q].0, Diff::new(Merge::absent(), entries2[q].1.dup()))
            },
            (None, None) => {
                assert(false);
                return out;
            },
        };
        proof {
            lemma_listed_value(trees1@, e1, name@);
            lemma_listed_value(trees2@, e2, name@);
            if j == b {
                lemma_only_left(e1, e2, a as int, b as int, before, d);
            }
            if i == a {
                lemma_only_right(e1, e2, a as int, b as int, before, d);
            }
            assert(diff.before@ =~= tree::tree_value(trees1@, name@));
            assert(diff.after@ =~= tree::tree_value(trees2@, name@));
        }
        if diff.is_changed() {
            let ghost pair = (name@, diff.deep_view());
            out.push((name, diff));
            assert(out.deep_view() =~= before.push(pair));
        }
        proof {
            lemma_next_compared(
                e1,
                e2,
                a as int,
                b as int,
                i as int,
                j as int,
                name@,
                before,
                out.deep_view(),
                d,
            );
        }
    }
    proof {
        lemma_joined_head(l, r, i, j);
        assert(joined(l, r, i, j).len() == 0);
        let result = out.deep_view();
        assert forall|name: NameView| #[trigger] listing::lookup(result, name) == d(name) by {
            lemma_listed_value(trees1@, e1, name);
            lemma_listed_value(trees2@, e2, name);
            if listing::lookup(e1, name) is Some {
                let x = listing::lemma_lookup_some(e1, name);
                assert(e1[x].0 == name);
            } else if listing::lookup(e2, name) is Some {
                let x = listing::lemma_lookup_some(e2, name);
                assert(e2[x].0 == name);
            } else if listing::lookup(result, name) is Some {
                let x = listing::lemma_lookup_some(result, name);
                assert(d(result[x].0) == Some(result[x].1));
            }
        }
    }
    out
}

} // verus!
