//! Simplifying and flattening merges.

use crate::merge;
use crate::merge::Merge;
use crate::value::Value;
use vstd::prelude::*;

verus! {

/// The first removed term from `from` on, among those that `indices` lists,
/// that has the given value.
pub open spec fn matching_remove<A>(
    terms: Seq<A>,
    indices: Seq<usize>,
    value: A,
    from: int,
) -> Option<int>
    decreases indices.len() + 1 - from,
{
    if from >= indices.len() {
        None
    } else if terms[indices[from] as int] == value {
        Some(from)
    } else {
        matching_remove(terms, indices, value, from + 2)
    }
}

/// `indices` without the removed term at `remove` and the added term at `add`,
/// where what was added next to the removed term takes the place of the latter.
pub open spec fn cancel_pair(indices: Seq<usize>, add: int, remove: int) -> Seq<usize> {
    indices.update(add, indices[remove + 1]).update(remove + 1, indices[add]).remove(
        remove + 1,
    ).remove(remove)
}

/// The terms that are left of those that `indices` lists when each added term
/// from `add` on cancels out with the first removed term of the same value.
pub open spec fn simplified_indices<A>(terms: Seq<A>, indices: Seq<usize>, add: int) -> Seq<usize>
    decreases indices.len() + 1 - add,
{
    if add < 0 || add >= indices.len() || indices.len() % 2 == 0 {
        indices
    } else {
        match matching_remove(terms, indices, terms[indices[add] as int], 1) {
            Some(remove) => if 1 <= remove && remove + 1 < indices.len() {
                simplified_indices(terms, cancel_pair(indices, add, remove), add)
            } else {
                indices
            },
            None => simplified_indices(terms, indices, add + 2),
        }
    }
}

/// The places of the terms that are left of a merge with the given terms once
/// equal added and removed terms have cancelled out.
pub open spec fn simplified_mapping<A>(terms: Seq<A>) -> Seq<usize> {
    simplified_indices(terms, Seq::new(terms.len(), |i: int| i as usize), 0)
}

/// The terms at the given places.
pub open spec fn terms_at<A>(terms: Seq<A>, indices: Seq<usize>) -> Seq<A> {
    Seq::new(indices.len(), |i: int| terms[indices[i] as int])
}

/// The terms that are left once equal added and removed terms have cancelled
/// out.
pub open spec fn simplified<A>(terms: Seq<A>) -> Seq<A> {
    terms_at(terms, simplified_mapping(terms))
}

/// Whether no value is both added and removed.
pub open spec fn is_simplified<A>(terms: Seq<A>) -> bool {
    forall|i: int, j: int|
        0 <= i < terms.len() && 0 <= j < terms.len() && i % 2 == 0 && j % 2 == 1 ==> (
        #[trigger] terms[i]) != (#[trigger] terms[j])
}

proof fn lemma_matching_remove<A>(terms: Seq<A>, indices: Seq<usize>, value: A, from: int)
    requires
        from % 2 == 1,
        from >= 1,
    ensures
        match matching_remove(terms, indices, value, from) {
            Some(remove) => {
                &&& from <= remove < indices.len()
                &&& remove % 2 == 1
                &&& terms[indices[remove] as int] == value
                &&& forall|j: int|
                    from <= j < remove && j % 2 == 1 ==> terms[(#[trigger] indices[j]) as int]
                        != value
            },
            None => forall|j: int|
                from <= j < indices.len() && j % 2 == 1 ==> terms[(#[trigger] indices[j]) as int]
                    != value,
        },
    decreases indices.len() + 1 - from,
{
    if from < indices.len() && terms[indices[from] as int] != value {
        lemma_matching_remove(terms, indices, value, from + 2);
    }
}

/// Whether `indices` lists places in a sequence of `n` terms, an odd number of
/// them, and the added terms before `add` match no removed term.
spec fn partly_simplified<A>(terms: Seq<A>, indices: Seq<usize>, add: int) -> bool {
    &&& indices.len() % 2 == 1
    &&& 0 <= add
    &&& add % 2 == 0
    &&& forall|i: int| 0 <= i < indices.len() ==> (#[trigger] indices[i]) < terms.len()
    &&& forall|i: int, j: int|
        0 <= i < add && i < indices.len() && 0 <= j < indices.len() && i % 2 == 0 && j % 2 == 1
            ==> terms[(#[trigger] indices[i]) as int] != terms[(#[trigger] indices[j]) as int]
}

proof fn lemma_cancel_pair<A>(terms: Seq<A>, indices: Seq<usize>, add: int, remove: int)
    requires
        partly_simplified(terms, indices, add),
        add < indices.len(),
        matching_remove(terms, indices, terms[indices[add] as int], 1) == Some(remove),
    ensures
        1 <= remove,
        remove + 1 < indices.len(),
        partly_simplified(terms, cancel_pair(indices, add, remove), add),
        cancel_pair(indices, add, remove).len() == indices.len() - 2,
        forall|v: A| #[trigger]
            merge::net(terms_at(terms, cancel_pair(indices, add, remove)), v) == merge::net(
                terms_at(terms, indices),
                v,
            ),
{
    lemma_matching_remove(terms, indices, terms[indices[add] as int], 1);
    let swapped = indices.update(add, indices[remove + 1]).update(remove + 1, indices[add]);
    let next = cancel_pair(indices, add, remove);
    assert forall|i: int| 0 <= i < next.len() implies next[i] == (if i < remove {
        swapped[i]
    } else {
        swapped[i + 2]
    }) by {}
    assert forall|v: A| #[trigger] merge::net(terms_at(terms, next), v) == merge::net(
        terms_at(terms, indices),
        v,
    ) by {
        let s = terms_at(terms, indices);
        let x = s[add];
        let y = s[remove + 1];
        let t = s.update(add, y).update(remove + 1, x);
        assert(terms_at(terms, swapped) =~= t);
        lemma_net_update(s, add, y, v);
        lemma_net_update(s.update(add, y), remove + 1, x, v);
        let head = t.take(remove);
        let pair = seq![x, x];
        let tail = t.skip(remove + 2);
        assert(t[remove] == x);
        assert(t =~= head + (pair + tail));
        assert(terms_at(terms, next) =~= head + tail);
        lemma_net_concat(head, pair + tail, v);
        lemma_net_concat(pair, tail, v);
        lemma_net_concat(head, tail, v);
        assert(pair.drop_last() =~= seq![x]);
        assert(seq![x].drop_last() =~= Seq::<A>::empty());
        reveal_with_fuel(merge::net, 3);
        assert(merge::net(pair, v) == 0);
    }
}

/// The net count of a concatenation.
pub proof fn lemma_net_concat<A>(a: Seq<A>, b: Seq<A>, v: A)
    ensures
        merge::net(a + b, v) == merge::net(a, v) + (if a.len() % 2 == 0 {
            merge::net(b, v)
        } else {
            -merge::net(b, v)
        }),
    decreases b.len(),
{
    if b.len() == 0 {
        assert(a + b =~= a);
    } else {
        assert((a + b).drop_last() =~= a + b.drop_last());
        lemma_net_concat(a, b.drop_last(), v);
    }
}

proof fn lemma_net_update<A>(s: Seq<A>, i: int, x: A, v: A)
    requires
        0 <= i < s.len(),
        i % 2 == 0,
    ensures
        merge::net(s.update(i, x), v) == merge::net(s, v) + (if x == v {
            1int
        } else {
            0
        }) - (if s[i] == v {
            1int
        } else {
            0
        }),
    decreases s.len(),
{
    if i == s.len() - 1 {
        assert(s.update(i, x).drop_last() =~= s.drop_last());
    } else {
        assert(s.update(i, x).drop_last() =~= s.drop_last().update(i, x));
        lemma_net_update(s.drop_last(), i, x, v);
    }
}

proof fn lemma_simplified_indices<A>(terms: Seq<A>, indices: Seq<usize>, add: int)
    requires
        partly_simplified(terms, indices, add),
    ensures
        ({
            let r = simplified_indices(terms, indices, add);
            &&& r.len() % 2 == 1
            &&& r.len() <= indices.len()
            &&& r.len() == indices.len() ==> r == indices
            &&& forall|i: int| 0 <= i < r.len() ==> (#[trigger] r[i]) < terms.len()
            &&& is_simplified(terms_at(terms, r))
            &&& forall|v: A| #[trigger]
                merge::net(terms_at(terms, r), v) == merge::net(terms_at(terms, indices), v)
        }),
    decreases indices.len() + 1 - add,
{
    if add >= indices.len() {
    } else {
        lemma_matching_remove(terms, indices, terms[indices[add] as int], 1);
        match matching_remove(terms, indices, terms[indices[add] as int], 1) {
            Some(remove) => {
                lemma_cancel_pair(terms, indices, add, remove);
                lemma_simplified_indices(terms, cancel_pair(indices, add, remove), add);
            },
            None => {
                lemma_simplified_indices(terms, indices, add + 2);
            },
        }
    }
}

/// Simplifying keeps the net count of every value, and afterwards no value is
/// both added and removed. A merge that keeps all its terms is not changed.
pub proof fn law_simplified<A>(terms: Seq<A>)
    requires
        terms.len() % 2 == 1,
        terms.len() <= usize::MAX,
    ensures
        simplified(terms).len() % 2 == 1,
        simplified(terms).len() <= terms.len(),
        simplified(terms).len() == terms.len() ==> simplified(terms) == terms,
        is_simplified(simplified(terms)),
        forall|v: A| #[trigger] merge::net(simplified(terms), v) == merge::net(terms, v),
        forall|i: int|
            0 <= i < simplified_mapping(terms).len() ==> (#[trigger] simplified_mapping(terms)[i])
                < terms.len(),
{
    let all = Seq::new(terms.len(), |i: int| i as usize);
    lemma_simplified_indices(terms, all, 0);
    assert(terms_at(terms, all) =~= terms);
}

proof fn lemma_nothing_to_simplify<A>(terms: Seq<A>, indices: Seq<usize>, add: int)
    requires
        is_simplified(terms_at(terms, indices)),
        indices.len() % 2 == 1,
        0 <= add,
        add % 2 == 0,
    ensures
        simplified_indices(terms, indices, add) == indices,
    decreases indices.len() + 1 - add,
{
    if add < indices.len() {
        let s = terms_at(terms, indices);
        let value = terms[indices[add] as int];
        lemma_matching_remove(terms, indices, value, 1);
        if let Some(remove) = matching_remove(terms, indices, value, 1) {
            assert(s[add] != s[remove]);
        }
        lemma_nothing_to_simplify(terms, indices, add + 2);
    }
}

/// Simplifying a simplified merge changes nothing: all terms stay in their places.
pub proof fn law_simplified_twice<A>(terms: Seq<A>)
    requires
        terms.len() % 2 == 1,
        terms.len() <= usize::MAX,
    ensures
        simplified(simplified(terms)) == simplified(terms),
        simplified_mapping(simplified(terms)) == Seq::new(
            simplified(terms).len(),
            |i: int| i as usize,
        ),
{
    law_simplified(terms);
    let s = simplified(terms);
    let all = Seq::new(s.len(), |i: int| i as usize);
    assert(terms_at(s, all) =~= s);
    lemma_nothing_to_simplify(s, all, 0);
}

/// Whether the places are all different, none of an added term is one of a removed term,
/// and those of the removed terms are in order.
spec fn well_placed(indices: Seq<usize>) -> bool {
    &&& forall|i: int, j: int|
        0 <= i < j < indices.len() && i % 2 == 1 && j % 2 == 1 ==> (#[trigger] indices[i]) < (
        #[trigger] indices[j])
    &&& forall|i: int| 0 <= i < indices.len() ==> (#[trigger] indices[i]) as int % 2 == i % 2
    &&& forall|i: int, j: int|
        0 <= i < j < indices.len() ==> (#[trigger] indices[i]) != (#[trigger] indices[j])
}

proof fn lemma_well_placed_step<A>(terms: Seq<A>, indices: Seq<usize>, add: int, remove: int)
    requires
        partly_simplified(terms, indices, add),
        add < indices.len(),
        matching_remove(terms, indices, terms[indices[add] as int], 1) == Some(remove),
        well_placed(indices),
    ensures
        well_placed(cancel_pair(indices, add, remove)),
        forall|i: int|
            0 <= i < cancel_pair(indices, add, remove).len() ==> #[trigger] cancel_pair(
                indices,
                add,
                remove,
            )[i] == indices[place_before(add, remove, i)],
{
    lemma_matching_remove(terms, indices, terms[indices[add] as int], 1);
    lemma_cancel_pair(terms, indices, add, remove);
    let next = cancel_pair(indices, add, remove);
    assert forall|i: int| 0 <= i < next.len() implies {
        let p = place_before(add, remove, i);
        #[trigger] next[i] == indices[p] && p % 2 == i % 2 && 0 <= p < indices.len()
    } by {}
    assert forall|i: int, j: int| 0 <= i < j < next.len() implies (#[trigger] next[i]) != (
    #[trigger] next[j]) by {
        let (p, q) = (place_before(add, remove, i), place_before(add, remove, j));
        assert(next[i] == indices[p] && next[j] == indices[q]);
        assert(p != q);
        if p < q {
            assert(indices[p] != indices[q]);
        } else {
            assert(indices[q] != indices[p]);
        }
    }
    assert forall|i: int, j: int|
        0 <= i < j < next.len() && i % 2 == 1 && j % 2 == 1 implies (#[trigger] next[i]) < (
    #[trigger] next[j]) by {
        let (p, q) = (place_before(add, remove, i), place_before(add, remove, j));
        assert(next[i] == indices[p] && next[j] == indices[q]);
        assert(p < q);
    }
    assert forall|i: int| 0 <= i < next.len() implies (#[trigger] next[i]) as int % 2 == i % 2 by {
        let p = place_before(add, remove, i);
        assert(next[i] == indices[p] && p % 2 == i % 2);
    }
}

proof fn lemma_well_placed<A>(terms: Seq<A>, indices: Seq<usize>, add: int)
    requires
        partly_simplified(terms, indices, add),
        well_placed(indices),
    ensures
        well_placed(simplified_indices(terms, indices, add)),
    decreases indices.len() + 1 - add,
{
    if add < indices.len() {
        lemma_matching_remove(terms, indices, terms[indices[add] as int], 1);
        match matching_remove(terms, indices, terms[indices[add] as int], 1) {
            Some(remove) => {
                lemma_cancel_pair(terms, indices, add, remove);
                lemma_well_placed_step(terms, indices, add, remove);
                lemma_well_placed(terms, cancel_pair(indices, add, remove), add);
            },
            None => {
                lemma_well_placed(terms, indices, add + 2);
            },
        }
    }
}

/// What is left of a merge when it is simplified are terms of it, none of them twice.
/// What was added stays added, and what was removed stays in order.
pub proof fn law_simplified_places<A>(terms: Seq<A>)
    requires
        terms.len() % 2 == 1,
        terms.len() <= usize::MAX,
    ensures
        simplified(terms).len() == simplified_mapping(terms).len(),
        forall|i: int|
            0 <= i < simplified(terms).len() ==> {
                &&& (#[trigger] simplified_mapping(terms)[i]) < terms.len()
                &&& simplified_mapping(terms)[i] as int % 2 == i % 2
                &&& simplified(terms)[i] == terms[simplified_mapping(terms)[i] as int]
            },
        forall|i: int, j: int|
            0 <= i < j < simplified(terms).len() ==> (#[trigger] simplified_mapping(terms)[i])
                != (#[trigger] simplified_mapping(terms)[j]),
        forall|i: int, j: int|
            0 <= i < j < simplified(terms).len() && i % 2 == 1 && j % 2 == 1 ==> (
            #[trigger] simplified_mapping(terms)[i]) < (#[trigger] simplified_mapping(terms)[j]),
        is_simplified(terms) ==> simplified(terms) == terms && simplified_mapping(terms)
            == Seq::new(terms.len(), |i: int| i as usize),
{
    let all = Seq::new(terms.len(), |i: int| i as usize);
    law_simplified(terms);
    lemma_well_placed(terms, all, 0);
    assert(terms_at(terms, all) =~= terms);
    if is_simplified(terms) {
        lemma_nothing_to_simplify(terms, all, 0);
    }
}

/// Whether of equal removed terms of a merge the later ones are listed if an earlier one is.
spec fn lists_later<A>(terms: Seq<A>, indices: Seq<usize>) -> bool {
    forall|m: int, n: int|
        0 <= m < n < terms.len() && m % 2 == 1 && n % 2 == 1 && (#[trigger] terms[m]) == (
        #[trigger] terms[n]) && indices.contains(m as usize) ==> indices.contains(n as usize)
}

proof fn lemma_lists_later<A>(terms: Seq<A>, indices: Seq<usize>, add: int)
    requires
        terms.len() <= usize::MAX,
        partly_simplified(terms, indices, add),
        well_placed(indices),
        lists_later(terms, indices),
    ensures
        lists_later(terms, simplified_indices(terms, indices, add)),
    decreases indices.len() + 1 - add,
{
    if add < indices.len() {
        let value = terms[indices[add] as int];
        lemma_matching_remove(terms, indices, value, 1);
        match matching_remove(terms, indices, value, 1) {
            Some(remove) => {
                lemma_cancel_pair(terms, indices, add, remove);
                lemma_well_placed_step(terms, indices, add, remove);
                let next = cancel_pair(indices, add, remove);
                assert forall|m: int, n: int|
                    0 <= m < n < terms.len() && m % 2 == 1 && n % 2 == 1 && (
                    #[trigger] terms[m]) == (#[trigger] terms[n]) && next.contains(
                        m as usize,
                    ) implies next.contains(n as usize) by {
                    let i = choose|i: int| 0 <= i < next.len() && next[i] == m as usize;
                    let p = place_before(add, remove, i);
                    assert(next[i] == indices[p]);
                    assert(indices.contains(m as usize));
                    assert(indices.contains(n as usize));
                    let q = choose|q: int| 0 <= q < indices.len() && indices[q] == n as usize;
                    assert(p % 2 == 1 && q % 2 == 1);
                    if q == remove {
                        if remove < p {
                            assert(indices[remove] < indices[p]);
                        } else {
                            assert(terms[indices[p] as int] != value);
                        }
                    } else {
                        let k = if q < remove {
                            q
                        } else {
                            q - 2
                        };
                        assert(place_before(add, remove, k) == q);
                        assert(next[k] == n as usize);
                    }
                }
                lemma_lists_later(terms, next, add);
            },
            None => {
                lemma_lists_later(terms, indices, add + 2);
            },
        }
    }
}

/// Of equal removed terms, the first ones cancel out: if one of them is left, so are those
/// after it.
pub proof fn law_first_removed_cancel<A>(terms: Seq<A>, m: int, n: int)
    requires
        terms.len() % 2 == 1,
        terms.len() <= usize::MAX,
        0 <= m < n < terms.len(),
        m % 2 == 1,
        n % 2 == 1,
        terms[m] == terms[n],
        simplified_mapping(terms).contains(m as usize),
    ensures
        simplified_mapping(terms).contains(n as usize),
{
    let all = Seq::new(terms.len(), |i: int| i as usize);
    assert(lists_later(terms, all)) by {
        assert forall|i: int, j: int|
            0 <= i < j < terms.len() && i % 2 == 1 && j % 2 == 1 && (#[trigger] terms[i]) == (
            #[trigger] terms[j]) && all.contains(i as usize) implies all.contains(
            j as usize,
        ) by {
            assert(all[j] == j as usize);
        }
    }
    lemma_lists_later(terms, all, 0);
}

/// The place that a place has before the added term at `add` and the removed term at
/// `remove` cancel out: the term that is added next to the removed one takes the place of
/// the added one.
pub open spec fn place_before(add: int, remove: int, place: int) -> int {
    let before = if place < remove {
        place
    } else {
        place + 2
    };
    if before == add {
        remove + 1
    } else {
        before
    }
}

/// In a merge in which one added and one removed term are equal, and no others, these two
/// are left out. All other terms stay where they are, apart from the one that is added
/// next to the removed one: it takes the place of the added one.
pub proof fn law_one_pair_cancels<A>(terms: Seq<A>, add: int, remove: int)
    requires
        terms.len() % 2 == 1,
        terms.len() <= usize::MAX,
        0 <= add < terms.len(),
        0 <= remove < terms.len(),
        add % 2 == 0,
        remove % 2 == 1,
        forall|i: int, j: int|
            0 <= i < terms.len() && 0 <= j < terms.len() && i % 2 == 0 && j % 2 == 1 ==> (
            #[trigger] terms[i] == #[trigger] terms[j]) == (i == add && j == remove),
    ensures
        simplified(terms).len() == terms.len() - 2,
        forall|k: int|
            0 <= k < simplified(terms).len() ==> #[trigger] simplified(terms)[k]
                == terms[place_before(add, remove, k)] && simplified_mapping(terms)[k]
                == place_before(add, remove, k),
{
    let all = Seq::new(terms.len(), |i: int| i as usize);
    lemma_skip(terms, all, 0, add);
    lemma_matching_remove(terms, all, terms[add], 1);
    assert(terms[all[add] as int] == terms[add]);
    match matching_remove(terms, all, terms[add], 1) {
        None => {
            assert(terms[all[remove] as int] == terms[remove]);
            assert((terms[add] == terms[remove]) == (add == add && remove == remove));
        },
        Some(found) => {
            assert(terms[all[found] as int] == terms[found]);
            assert((terms[add] == terms[found]) == (add == add && found == remove));
            let next = cancel_pair(all, add, remove);
            let left = terms_at(terms, next);
            assert(next.len() == terms.len() - 2);
            assert forall|k: int| 0 <= k < next.len() implies #[trigger] next[k]
                == place_before(add, remove, k) by {}
            assert(is_simplified(left)) by {
                assert forall|i: int, j: int|
                    0 <= i < left.len() && 0 <= j < left.len() && i % 2 == 0 && j % 2 == 1 implies (
                #[trigger] left[i]) != (#[trigger] left[j]) by {
                    let (p, q) = (place_before(add, remove, i), place_before(add, remove, j));
                    assert(left[i] == terms[p] && left[j] == terms[q]);
                    assert(p % 2 == 0 && q % 2 == 1);
                    assert((terms[p] == terms[q]) == (p == add && q == remove));
                }
            }
            lemma_nothing_to_simplify(terms, next, add);
        },
    }
}

proof fn lemma_skip<A>(terms: Seq<A>, indices: Seq<usize>, from: int, to: int)
    requires
        indices.len() % 2 == 1,
        0 <= from <= to < indices.len(),
        from % 2 == 0,
        to % 2 == 0,
        forall|i: int, j: int|
            from <= i < to && i % 2 == 0 && 0 <= j < indices.len() && j % 2 == 1
                ==> terms[(#[trigger] indices[i]) as int] != terms[(#[trigger] indices[j]) as int],
    ensures
        simplified_indices(terms, indices, from) == simplified_indices(terms, indices, to),
    decreases to - from,
{
    if from < to {
        lemma_matching_remove(terms, indices, terms[indices[from] as int], 1);
        lemma_skip(terms, indices, from + 2, to);
    }
}

/// The terms of a merge that is removed as a whole: what it removes is added,
/// and what it adds is removed.
pub open spec fn inverted<A>(terms: Seq<A>) -> Seq<A> {
    Seq::new(
        terms.len(),
        |i: int|
            if i == terms.len() - 1 {
                terms[0]
            } else if i % 2 == 0 {
                terms[i + 2]
            } else {
                terms[i]
            },
    )
}

/// The terms of a merge of merges.
pub open spec fn flattened<A>(merges: Seq<Seq<A>>) -> Seq<A>
    decreases merges.len(),
{
    if merges.len() == 0 {
        Seq::empty()
    } else if merges.len() == 1 {
        merges[0]
    } else {
        flattened(merges.take(merges.len() - 2)) + inverted(merges[merges.len() - 2])
            + merges[merges.len() - 1]
    }
}

impl<T: Value> Merge<T> {
    /// The places of the terms that are left once equal added and removed
    /// terms have cancelled out.
    pub fn simplified_mapping(&self) -> (r: Vec<usize>)
        ensures
            r@ == simplified_mapping(self@),
            r.len() % 2 == 1,
            forall|i: int| 0 <= i < r.len() ==> (#[trigger] r[i]) < self@.len(),
    {
        let terms = self.as_slice();
        let n = terms.len();
        let mut indices: Vec<usize> = Vec::new();
        for i in 0..n
            invariant
                indices.len() == i,
                forall|j: int| 0 <= j < i ==> indices[j] == j,
        {
            indices.push(i);
        }
        assert(indices@ =~= Seq::new(self@.len(), |i: int| i as usize));
        proof {
            law_simplified(self@);
        }
        let mut add: usize = 0;
        while add < indices.len()
            invariant
                terms@ == self.terms(),
                indices.len() <= n,
                n == terms.len(),
                n % 2 == 1,
                partly_simplified(self@, indices@, add as int),
                add <= indices.len() + 1,
                simplified_indices(self@, indices@, add as int) == simplified_mapping(self@),
            decreases indices.len() + 1 - add,
        {
            let ghost value = self@[indices@[add as int] as int];
            let mut remove: usize = 1;
            let mut found = false;
            while !found && remove < indices.len()
                invariant
                    terms@ == self.terms(),
                    n == terms.len(),
                    add < indices.len(),
                    indices.len() <= n,
                    remove % 2 == 1,
                    remove <= indices.len() + 1,
                    partly_simplified(self@, indices@, add as int),
                    value == self@[indices@[add as int] as int],
                    found ==> remove < indices.len() && self@[indices@[remove as int] as int]
                        == value,
                    matching_remove(self@, indices@, value, 1) == matching_remove(
                        self@,
                        indices@,
                        value,
                        remove as int,
                    ),
                decreases indices.len() - remove + if found { 0int } else { 1 },
            {
                assert(indices@[remove as int] < self@.len());
                assert(indices@[add as int] < self@.len());
                if terms[indices[remove]].same(&terms[indices[add]]) {
                    found = true;
                } else {
                    assert(indices.len() % 2 == 1);
                    assert(remove + 2 <= indices.len() + 1);
                    if remove + 1 < indices.len() {
                        remove = remove + 2;
                    } else {
                        assert(false);
                    }
                }
            }
            if found {
                proof {
                    lemma_cancel_pair(self@, indices@, add as int, remove as int);
                }
                let ghost before = indices@;
                let added = indices[add];
                let next = indices[remove + 1];
                indices.set(add, next);
                indices.set(remove + 1, added);
                indices.remove(remove + 1);
                indices.remove(remove);
                assert(indices@ == cancel_pair(before, add as int, remove as int));
            } else {
                proof {
                    lemma_matching_remove(self@, indices@, value, 1);
                }
                if add + 1 < indices.len() {
                    add = add + 2;
                } else {
                    assert(simplified_indices(self@, indices@, add + 2) == indices@);
                    proof {
                        lemma_simplified_indices(self@, indices@, add as int);
                    }
                    return indices;
                }
            }
        }
        indices
    }

    /// The terms at the given places.
    pub fn terms_at(&self, indices: &Vec<usize>) -> (r: Merge<T>)
        requires
            indices.len() % 2 == 1,
            forall|i: int| 0 <= i < indices.len() ==> (#[trigger] indices[i]) < self@.len(),
        ensures
            r@ == terms_at(self@, indices@),
    {
        let terms = self.as_slice();
        let n = indices.len();
        let mut values: Vec<T> = Vec::new();
        for i in 0..n
            invariant
                n == indices.len(),
                terms@ == self.terms(),
                forall|i: int| 0 <= i < indices.len() ==> (#[trigger] indices[i]) < self@.len(),
                values.len() == i,
                forall|j: int|
                    0 <= j < i ==> (#[trigger] values[j]).deep_view() == self@[indices[j] as int],
        {
            assert(indices[i as int] < self@.len());
            values.push(terms[indices[i]].dup());
        }
        let r = Merge::from_vec(values);
        assert(r@ =~= terms_at(self@, indices@));
        r
    }

    /// What is left of this merge once equal added and removed terms have
    /// cancelled out.
    pub fn simplify(&self) -> (r: Merge<T>)
        ensures
            r@ == simplified(self@),
    {
        let mapping = self.simplified_mapping();
        self.terms_at(&mapping)
    }
}

impl<T: Value> Merge<Merge<T>> {
    /// The merge of all the terms of the merged merges.
    pub fn flatten(&self) -> (r: Merge<T>)
        ensures
            r@ == flattened(self@),
    {
        let merges = self.as_slice();
        let n = merges.len();
        let mut values: Vec<T> = merges[0].dup().into_vec();
        proof {
            let first = merges@[0]@;
            assert(self@.take(1)[0] == first);
            assert(Seq::new(values@.len(), |j: int| values@[j].deep_view()) =~= first);
        }
        let mut i: usize = 1;
        while i < n
            invariant
                n == merges.len(),
                n % 2 == 1,
                merges@ == self.terms(),
                1 <= i <= n,
                i % 2 == 1,
                values@.len() % 2 == 1,
                Seq::new(values@.len(), |j: int| values@[j].deep_view()) == flattened(
                    self@.take(i as int),
                ),
            decreases n - i,
        {
            let ghost before = values@;
            let removed = merges[i].as_slice();
            let added = merges[i + 1].as_slice();
            let m = removed.len();
            for j in 0..m
                invariant
                    n == merges.len(),
                    i + 1 < n,
                    removed@ == merges@[i as int].terms(),
                    m == removed.len(),
                    m % 2 == 1,
                    values@.len() == before.len() + j,
                    forall|k: int| 0 <= k < before.len() ==> values@[k] == before[k],
                    forall|k: int|
                        0 <= k < j ==> (#[trigger] values@[before.len() + k]).deep_view()
                            == inverted(merges@[i as int]@)[k],
            {
                let place = if j == m - 1 {
                    0
                } else if j % 2 == 0 {
                    j + 2
                } else {
                    j
                };
                values.push(removed[place].dup());
            }
            let ghost middle = values@;
            let k = added.len();
            for j in 0..k
                invariant
                    n == merges.len(),
                    i + 1 < n,
                    added@ == merges@[i + 1].terms(),
                    k == added.len(),
                    values@.len() == middle.len() + j,
                    forall|l: int| 0 <= l < middle.len() ==> values@[l] == middle[l],
                    forall|l: int|
                        0 <= l < j ==> (#[trigger] values@[middle.len() + l]).deep_view()
                            == merges@[i + 1]@[l],
            {
                values.push(added[j].dup());
            }
            proof {
                let next = self@.take(i + 2);
                assert(next.take(next.len() - 2) =~= self@.take(i as int));
                assert(next[i as int] == merges@[i as int]@);
                assert(next[i + 1] == merges@[i + 1]@);
                let all = Seq::new(values@.len(), |j: int| values@[j].deep_view());
                let goal = flattened(self@.take(i as int)) + inverted(merges@[i as int]@)
                    + merges@[i + 1]@;
                assert(all.len() == goal.len());
                assert forall|j: int| 0 <= j < all.len() implies all[j] == goal[j] by {
                    if j < before.len() {
                        assert(middle[j] == before[j]);
                        assert(values@[j] == before[j]);
                        assert(flattened(self@.take(i as int))[j] == before[j].deep_view());
                    } else if j < middle.len() {
                        assert(values@[j] == middle[j]);
                        assert(middle[before.len() + (j - before.len())].deep_view() == inverted(
                            merges@[i as int]@,
                        )[j - before.len()]);
                    } else {
                        assert(values@[middle.len() + (j - middle.len())].deep_view()
                            == merges@[i + 1]@[j - middle.len()]);
                    }
                }
                assert(all =~= goal);
            }
            i = i + 2;
        }
        assert(self@.take(n as int) =~= self@);
        let r = Merge::from_vec(values);
        assert(r@ =~= Seq::new(values@.len(), |j: int| values@[j].deep_view()));
        r
    }
}

/// The net count of a value in all the merges: those that are removed count the
/// other way round.
pub open spec fn net_of_merges<A>(merges: Seq<Seq<A>>, value: A) -> int
    decreases merges.len(),
{
    if merges.len() == 0 {
        0
    } else {
        let rest = net_of_merges(merges.drop_last(), value);
        if merges.len() % 2 == 1 {
            rest + merge::net(merges.last(), value)
        } else {
            rest - merge::net(merges.last(), value)
        }
    }
}

/// Inverting the terms of a merge keeps the net count of every value.
proof fn lemma_net_inverted<A>(terms: Seq<A>, v: A)
    requires
        terms.len() % 2 == 1,
    ensures
        merge::net(inverted(terms), v) == merge::net(terms, v),
{
    let n = terms.len() as int;
    let moved = inverted(terms);
    lemma_net_shifted(terms, n - 1, v);
    assert(moved.drop_last() =~= moved.take(n - 1));
    let first = seq![terms[0]];
    assert(terms =~= first + terms.skip(1));
    lemma_net_concat(first, terms.skip(1), v);
    assert(first.drop_last() =~= Seq::<A>::empty());
    reveal_with_fuel(merge::net, 2);
}

proof fn lemma_net_shifted<A>(terms: Seq<A>, n: int, v: A)
    requires
        terms.len() % 2 == 1,
        0 <= n < terms.len(),
        n % 2 == 0,
    ensures
        merge::net(inverted(terms).take(n), v) == -merge::net(terms.subrange(1, n + 1), v),
    decreases n,
{
    let moved = inverted(terms);
    if n == 0 {
        assert(moved.take(0) =~= Seq::<A>::empty());
        assert(terms.subrange(1, 1) =~= Seq::<A>::empty());
    } else {
        lemma_net_shifted(terms, n - 2, v);
        let pair = seq![moved[n - 2], moved[n - 1]];
        let old_pair = seq![terms[n - 1], terms[n]];
        assert(moved.take(n) =~= moved.take(n - 2) + pair);
        assert(terms.subrange(1, n + 1) =~= terms.subrange(1, n - 1) + old_pair);
        lemma_net_concat(moved.take(n - 2), pair, v);
        lemma_net_concat(terms.subrange(1, n - 1), old_pair, v);
        assert(pair =~= seq![terms[n], terms[n - 1]]);
        assert(pair.drop_last() =~= seq![terms[n]]);
        assert(seq![terms[n]].drop_last() =~= Seq::<A>::empty());
        assert(old_pair.drop_last() =~= seq![terms[n - 1]]);
        assert(seq![terms[n - 1]].drop_last() =~= Seq::<A>::empty());
        reveal_with_fuel(merge::net, 3);
    }
}

/// Flattening a merge of merges keeps the net count of every value, and the
/// number of terms is odd again.
pub proof fn law_flattened<A>(merges: Seq<Seq<A>>, v: A)
    requires
        merges.len() % 2 == 1,
        forall|i: int| 0 <= i < merges.len() ==> (#[trigger] merges[i]).len() % 2 == 1,
    ensures
        flattened(merges).len() % 2 == 1,
        merge::net(flattened(merges), v) == net_of_merges(merges, v),
    decreases merges.len(),
{
    let n = merges.len() as int;
    if n == 1 {
        reveal_with_fuel(net_of_merges, 2);
        assert(merges.drop_last() =~= Seq::<Seq<A>>::empty());
    } else {
        let rest = merges.take(n - 2);
        assert forall|i: int| 0 <= i < rest.len() implies (#[trigger] rest[i]).len() % 2 == 1 by {
            assert(rest[i] == merges[i]);
        }
        law_flattened(rest, v);
        let removed = merges[n - 2];
        let added = merges[n - 1];
        lemma_net_inverted(removed, v);
        lemma_net_concat(flattened(rest), inverted(removed), v);
        lemma_net_concat(flattened(rest) + inverted(removed), added, v);
        assert(merges.drop_last().drop_last() =~= rest);
        assert(merges.drop_last().last() == removed);
        reveal_with_fuel(net_of_merges, 3);
    }
}

/// Flattening merges of the same shapes gives merges of the same shape.
pub proof fn lemma_flattened_len<A, B>(a: Seq<Seq<A>>, b: Seq<Seq<B>>)
    requires
        a.len() == b.len(),
        forall|i: int| 0 <= i < a.len() ==> (#[trigger] a[i]).len() == b[i].len(),
    ensures
        flattened(a).len() == flattened(b).len(),
    decreases a.len(),
{
    if a.len() > 1 {
        let n = a.len() as int;
        let x = a.take(n - 2);
        let y = b.take(n - 2);
        assert forall|i: int| 0 <= i < x.len() implies (#[trigger] x[i]).len() == y[i].len() by {
            assert(x[i] == a[i]);
        }
        lemma_flattened_len(x, y);
        assert(a[n - 2].len() == b[n - 2].len());
        assert(a[n - 1].len() == b[n - 1].len());
    } else if a.len() == 1 {
        assert(a[0].len() == b[0].len());
    }
}

} // verus!
