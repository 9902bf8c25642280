//! Merges: an odd number of terms, which are added and removed in turn.

use crate::value::Value;
use vstd::prelude::*;

verus! {

/// Whether to resolve conflicts in which all sides made the same change.
#[derive(Clone, Copy, Debug, PartialEq, Eq, Structural, Hash)]
pub enum SameChange {
    /// Leave the conflict unresolved.
    Keep,
    /// Take the change.
    Accept,
}

/// What a value was before a change and what it is after it.
#[derive(Debug, PartialEq, Eq, Hash)]
pub struct Diff<T> {
    /// The value before.
    pub before: T,
    /// The value after.
    pub after: T,
}

impl<T: DeepView> DeepView for Diff<T> {
    type V = Diff<T::V>;

    open spec fn deep_view(&self) -> Diff<T::V> {
        Diff { before: self.before.deep_view(), after: self.after.deep_view() }
    }
}

impl<T: Value> Value for Diff<T> {
    fn same(&self, other: &Self) -> (r: bool) {
        self.before.same(&other.before) && self.after.same(&other.after)
    }

    fn dup(&self) -> (r: Self) {
        Diff { before: self.before.dup(), after: self.after.dup() }
    }
}

impl<T: Value> Clone for Diff<T> {
    fn clone(&self) -> (r: Self)
        ensures
            r.deep_view() == self.deep_view(),
    {
        self.dup()
    }
}

impl<T> Diff<T> {
    /// The difference between the two values.
    pub fn new(before: T, after: T) -> (r: Self)
        ensures
            r == (Diff { before, after }),
    {
        Diff { before, after }
    }
}

impl<T: Value> Diff<T> {
    /// Whether the two values differ.
    pub fn is_changed(&self) -> (r: bool)
        ensures
            r == (self.before.deep_view() != self.after.deep_view()),
    {
        !self.before.same(&self.after)
    }
}

/// How often `value` is added, less how often it is removed.
pub open spec fn net<A>(terms: Seq<A>, value: A) -> int
    decreases terms.len(),
{
    if terms.len() == 0 {
        0
    } else {
        let rest = net(terms.drop_last(), value);
        if terms.last() != value {
            rest
        } else if terms.len() % 2 == 1 {
            rest + 1
        } else {
            rest - 1
        }
    }
}

/// Whether the terms cancel out to `value`: it is what is left of them, or, if
/// same changes are accepted, it is what all sides changed one other value to.
pub open spec fn cancels_to<A>(terms: Seq<A>, same_change: SameChange, value: A) -> bool {
    &&& net(terms, value) > 0
    &&& {
        ||| forall|w: A| w != value ==> #[trigger] net(terms, w) == 0
        ||| {
            &&& same_change == SameChange::Accept
            &&& exists|base: A| #[trigger] changed_from(terms, value, base)
        }
    }
}

/// Whether `base` is removed more often than added, and nothing but it and
/// `value` is left of the terms.
pub open spec fn changed_from<A>(terms: Seq<A>, value: A, base: A) -> bool {
    &&& net(terms, base) < 0
    &&& forall|w: A| w != value && w != base ==> #[trigger] net(terms, w) == 0
}

/// The value that the terms cancel out to, if there is one.
pub open spec fn trivial_resolution<A>(terms: Seq<A>, same_change: SameChange) -> Option<A> {
    if exists|value: A| cancels_to(terms, same_change, value) {
        Some(choose|value: A| cancels_to(terms, same_change, value))
    } else {
        None
    }
}

/// Terms cancel out to one value at most.
pub proof fn lemma_cancels_to_one<A>(terms: Seq<A>, same_change: SameChange, a: A, b: A)
    requires
        cancels_to(terms, same_change, a),
        cancels_to(terms, same_change, b),
    ensures
        a == b,
        trivial_resolution(terms, same_change) == Some(a),
{
    lemma_cancels_to_equal(terms, same_change, a, b);
    let c = choose|value: A| cancels_to(terms, same_change, value);
    lemma_cancels_to_equal(terms, same_change, a, c);
}

proof fn lemma_cancels_to_equal<A>(terms: Seq<A>, same_change: SameChange, a: A, b: A)
    requires
        cancels_to(terms, same_change, a),
        cancels_to(terms, same_change, b),
    ensures
        a == b,
{
    if a != b {
        assert(net(terms, a) > 0 && net(terms, b) > 0);
        if exists|base: A| #[trigger] changed_from(terms, a, base) {
            let base = choose|base: A| #[trigger] changed_from(terms, a, base);
            assert(base != b);
        }
    }
}

/// A value that does not occur has no net count.
pub proof fn lemma_net_absent<A>(terms: Seq<A>, value: A)
    requires
        !terms.contains(value),
    ensures
        net(terms, value) == 0,
    decreases terms.len(),
{
    if terms.len() > 0 {
        assert(terms.last() == terms[terms.len() - 1]);
        assert forall|i: int| 0 <= i < terms.drop_last().len() implies terms.drop_last()[i]
            != value by {
            assert(terms.drop_last()[i] == terms[i]);
        }
        lemma_net_absent(terms.drop_last(), value);
    }
}

/// A single term cancels out to itself.
pub proof fn lemma_single_term_resolution<A>(value: A, same_change: SameChange)
    ensures
        trivial_resolution(seq![value], same_change) == Some(value),
{
    let terms = seq![value];
    reveal_with_fuel(net, 2);
    assert(terms.drop_last() =~= Seq::<A>::empty());
    assert(cancels_to(terms, same_change, value));
    lemma_cancels_to_one(terms, same_change, value, value);
}

/// A merge of two sides with one base is resolved where a side agrees with the
/// base, or where both sides made the same change and that is accepted.
pub proof fn law_three_term_resolution<A>(a: A, base: A, b: A, same_change: SameChange)
    ensures
        trivial_resolution(seq![a, base, b], same_change) == (if a == base {
            Some(b)
        } else if b == base {
            Some(a)
        } else if a == b && same_change == SameChange::Accept {
            Some(a)
        } else {
            None
        }),
{
    let terms = seq![a, base, b];
    assert(terms.drop_last() =~= seq![a, base]);
    assert(seq![a, base].drop_last() =~= seq![a]);
    assert(seq![a].drop_last() =~= Seq::<A>::empty());
    assert forall|w: A| #[trigger] net(terms, w) == (if w == a { 1int } else { 0 }) - (if w == base {
        1int
    } else {
        0
    }) + (if w == b { 1int } else { 0 }) by {
        reveal_with_fuel(net, 4);
    }
    if a == base {
        assert(cancels_to(terms, same_change, b));
        lemma_cancels_to_one(terms, same_change, b, b);
    } else if b == base {
        assert(cancels_to(terms, same_change, a));
        lemma_cancels_to_one(terms, same_change, a, a);
    } else if a == b && same_change == SameChange::Accept {
        assert(changed_from(terms, a, base));
        assert(cancels_to(terms, same_change, a));
        lemma_cancels_to_one(terms, same_change, a, a);
    } else {
        assert forall|v: A| !cancels_to(terms, same_change, v) by {
            if cancels_to(terms, same_change, v) {
                assert(net(terms, a) > 0 && net(terms, b) > 0 && net(terms, base) < 0);
                if a == b {
                    assert(net(terms, base) != 0);
                } else {
                    assert(net(terms, a) != 0 && net(terms, b) != 0);
                }
            }
        }
    }
}

/// A merge of terms, which are added and removed in turn: `a - b + c - d + e`.
/// A merge with a single term is resolved.
#[derive(Debug, PartialEq, Eq, Hash)]
pub struct Merge<T> {
    values: Vec<T>,
}

impl<T> Merge<T> {
    #[verifier::type_invariant]
    spec fn type_inv(self) -> bool {
        self.values@.len() % 2 == 1
    }

    /// The terms, in order.
    pub closed spec fn terms(self) -> Seq<T> {
        self.values@
    }

    /// The merge of the given terms.
    pub fn from_vec(values: Vec<T>) -> (r: Self)
        requires
            values.len() % 2 == 1,
        ensures
            r.terms() == values@,
    {
        Merge { values }
    }

    /// The merge with a single term.
    pub fn resolved(value: T) -> (r: Self)
        ensures
            r.terms() == seq![value],
    {
        let mut values: Vec<T> = Vec::new();
        values.push(value);
        assert(values@ =~= seq![value]);
        Merge { values }
    }

    /// The terms, in order.
    pub fn as_slice(&self) -> (r: &[T])
        ensures
            r@ == self.terms(),
            r@.len() % 2 == 1,
    {
        proof {
            use_type_invariant(self);
        }
        self.values.as_slice()
    }

    /// The terms, in order.
    pub fn into_vec(self) -> (r: Vec<T>)
        ensures
            r@ == self.terms(),
            r@.len() % 2 == 1,
    {
        proof {
            use_type_invariant(&self);
        }
        self.values
    }

    /// Whether there is a single term.
    pub fn is_resolved(&self) -> (r: bool)
        ensures
            r == (self.terms().len() == 1),
    {
        self.values.len() == 1
    }

    /// The single term, if there is only one.
    pub fn as_resolved(&self) -> (r: Option<&T>)
        ensures
            match r {
                Some(value) => self.terms() == seq![*value],
                None => self.terms().len() != 1,
            },
    {
        if self.values.len() == 1 {
            assert(self.terms() =~= seq![self.values@[0]]);
            Some(&self.values[0])
        } else {
            None
        }
    }

    /// The single term, if there is only one, or else the merge itself.
    pub fn into_resolved(self) -> (r: Result<T, Merge<T>>)
        ensures
            match r {
                Ok(value) => self.terms() == seq![value],
                Err(merge) => merge.terms() == self.terms() && self.terms().len() != 1,
            },
    {
        if self.values.len() == 1 {
            let mut values = self.into_vec();
            let value = values.remove(0);
            assert(self.terms() =~= seq![value]);
            Ok(value)
        } else {
            Err(self)
        }
    }

    /// The number of added terms.
    pub fn num_sides(&self) -> (r: usize)
        ensures
            2 * r == self.terms().len() + 1,
            r >= 1,
    {
        proof {
            use_type_invariant(self);
        }
        self.values.len() / 2 + 1
    }

    /// The first added term.
    pub fn first(&self) -> (r: &T)
        ensures
            *r == self.terms()[0],
            self.terms().len() > 0,
    {
        proof {
            use_type_invariant(self);
        }
        &self.values[0]
    }

    /// The added term with the given index.
    pub fn get_add(&self, index: usize) -> (r: Option<&T>)
        ensures
            match r {
                Some(value) => 2 * index < self.terms().len() && *value == self.terms()[2 * index
                    as int],
                None => 2 * index >= self.terms().len(),
            },
    {
        let n = self.values.len();
        if index < self.num_sides() {
            assert(2 * index < n);
            Some(&self.values[2 * index])
        } else {
            None
        }
    }

    /// The removed term with the given index.
    pub fn get_remove(&self, index: usize) -> (r: Option<&T>)
        ensures
            match r {
                Some(value) => 2 * index + 1 < self.terms().len() && *value == self.terms()[2
                    * index + 1],
                None => 2 * index + 1 >= self.terms().len(),
            },
    {
        let n = self.values.len();
        if index < self.num_sides() - 1 {
            assert(2 * index + 1 < n);
            Some(&self.values[2 * index + 1])
        } else {
            None
        }
    }
}

impl<T: DeepView> View for Merge<T> {
    type V = Seq<T::V>;

    open spec fn view(&self) -> Seq<T::V> {
        Seq::new(self.terms().len(), |i: int| self.terms()[i].deep_view())
    }
}

impl<T: DeepView> DeepView for Merge<T> {
    type V = Seq<T::V>;

    open spec fn deep_view(&self) -> Seq<T::V> {
        self@
    }
}

impl<T: Value> Value for Merge<T> {
    fn same(&self, other: &Self) -> (r: bool) {
        assert(self@ =~= self.values.deep_view());
        assert(other@ =~= other.values.deep_view());
        self.values.same(&other.values)
    }

    fn dup(&self) -> (r: Self) {
        proof {
            use_type_invariant(self);
        }
        let values = self.values.dup();
        assert(values.deep_view().len() == self.values.deep_view().len());
        let r = Merge { values };
        assert(r@ =~= r.values.deep_view());
        assert(self@ =~= self.values.deep_view());
        r
    }
}

impl<T: Value> Clone for Merge<T> {
    fn clone(&self) -> (r: Self)
        ensures
            r@ == self@,
    {
        self.dup()
    }
}

/// Whether nothing is there: the merge is resolved to an absent value.
pub open spec fn is_absent<A>(terms: Seq<Option<A>>) -> bool {
    terms.len() == 1 && terms[0] is None
}

/// The terms of a merge that is resolved to an absent value.
pub open spec fn absent_terms<A>() -> Seq<Option<A>> {
    seq![None]
}

impl<T> Merge<Option<T>> {
    /// The merge that is resolved to an absent value.
    pub fn absent() -> (r: Self)
        ensures
            r.terms() == seq![None::<T>],
    {
        Merge::resolved(None)
    }

    /// The merge that is resolved to the given value.
    pub fn normal(value: T) -> (r: Self)
        ensures
            r.terms() == seq![Some(value)],
    {
        Merge::resolved(Some(value))
    }

    /// Whether this merge is resolved to an absent value.
    pub fn is_absent(&self) -> (r: bool)
        ensures
            r == is_absent(self.terms()),
    {
        match self.as_resolved() {
            Some(value) => {
                assert(self.terms()[0] == *value);
                value.is_none()
            },
            None => false,
        }
    }

    /// Whether this merge is anything but resolved to an absent value.
    pub fn is_present(&self) -> (r: bool)
        ensures
            r == !is_absent(self.terms()),
    {
        !self.is_absent()
    }
}

impl<'a, T: Value> Merge<Option<&'a T>> {
    /// The merge of the values that this merge refers to.
    pub fn cloned(&self) -> (r: Merge<Option<T>>)
        ensures
            r@ == self@,
    {
        proof {
            use_type_invariant(self);
        }
        let n = self.values.len();
        let mut values: Vec<Option<T>> = Vec::new();
        for i in 0..n
            invariant
                n == self.values.len(),
                values.len() == i,
                forall|j: int| 0 <= j < i ==> (#[trigger] values@[j]).deep_view() == self@[j],
        {
            values.push(
                match &self.values[i] {
                    Some(value) => Some((*value).dup()),
                    None => None,
                },
            );
        }
        let r = Merge { values };
        assert(r@ =~= self@);
        r
    }
}

/// Whether the deep view of a merge is that of an absent value.
pub broadcast proof fn lemma_absent_view<T: DeepView>(m: Merge<Option<T>>)
    ensures
        #[trigger] is_absent(m@) == is_absent(m.terms()),
{
}

impl<T: Value> Merge<T> {
    /// The merge of `2 * num_sides - 1` terms that are all the given value.
    pub fn repeated(value: T, num_sides: usize) -> (r: Self)
        requires
            num_sides >= 1,
            2 * num_sides - 1 <= usize::MAX,
        ensures
            r@ == Seq::new((2 * num_sides - 1) as nat, |i: int| value.deep_view()),
    {
        let n = num_sides - 1 + num_sides;
        let mut values: Vec<T> = Vec::new();
        for i in 0..n
            invariant
                values.len() == i,
                forall|j: int| 0 <= j < i ==> (#[trigger] values@[j]).deep_view()
                    == value.deep_view(),
        {
            values.push(value.dup());
        }
        let r = Merge { values };
        assert(r@ =~= Seq::new((2 * num_sides - 1) as nat, |i: int| value.deep_view()));
        r
    }
}

spec fn sum_counts(counts: Seq<(usize, i128)>) -> int
    decreases counts.len(),
{
    if counts.len() == 0 {
        0
    } else {
        sum_counts(counts.drop_last()) + counts.last().1
    }
}

proof fn lemma_sum_update(counts: Seq<(usize, i128)>, i: int, entry: (usize, i128))
    requires
        0 <= i < counts.len(),
    ensures
        sum_counts(counts.update(i, entry)) == sum_counts(counts) - counts[i].1 + entry.1,
    decreases counts.len(),
{
    let next = counts.update(i, entry);
    if i == counts.len() - 1 {
        assert(next.drop_last() =~= counts.drop_last());
    } else {
        assert(next.drop_last() =~= counts.drop_last().update(i, entry));
        lemma_sum_update(counts.drop_last(), i, entry);
    }
}

proof fn lemma_sum_zero(counts: Seq<(usize, i128)>)
    requires
        forall|j: int| 0 <= j < counts.len() ==> (#[trigger] counts[j]).1 == 0,
    ensures
        sum_counts(counts) == 0,
    decreases counts.len(),
{
    if counts.len() > 0 {
        lemma_sum_zero(counts.drop_last());
    }
}

proof fn lemma_sum_others_zero(counts: Seq<(usize, i128)>, a: int)
    requires
        0 <= a < counts.len(),
        forall|j: int| 0 <= j < counts.len() && j != a ==> (#[trigger] counts[j]).1 == 0,
    ensures
        sum_counts(counts) == counts[a].1,
{
    let cleared = counts.update(a, (0usize, 0i128));
    lemma_sum_update(counts, a, (0usize, 0i128));
    lemma_sum_zero(cleared);
}

proof fn lemma_sum_two(counts: Seq<(usize, i128)>, a: int, b: int)
    requires
        0 <= a < counts.len(),
        0 <= b < counts.len(),
        a != b,
        forall|j: int| 0 <= j < counts.len() && j != a && j != b ==> (#[trigger] counts[j]).1 == 0,
    ensures
        sum_counts(counts) == counts[a].1 + counts[b].1,
{
    let cleared = counts.update(a, (0usize, 0i128));
    lemma_sum_update(counts, a, (0usize, 0i128));
    lemma_sum_others_zero(cleared, b);
}

/// `counts` holds the first place and the net count of each value in `terms`.
spec fn counted<A>(terms: Seq<A>, counts: Seq<(usize, i128)>) -> bool {
    &&& forall|j: int|
        0 <= j < counts.len() ==> {
            &&& (#[trigger] counts[j]).0 < terms.len()
            &&& counts[j].1 == net(terms, terms[counts[j].0 as int])
        }
    &&& forall|j: int, k: int|
        0 <= j < counts.len() && 0 <= k < counts.len() && j != k ==> terms[(
        #[trigger] counts[j]).0 as int] != terms[(#[trigger] counts[k]).0 as int]
    &&& forall|i: int|
        0 <= i < terms.len() ==> exists|j: int|
            0 <= j < counts.len() && terms[(#[trigger] counts[j]).0 as int] == #[trigger] terms[i]
    &&& sum_counts(counts) == terms.len() % 2
}

/// A value with a net count is among the counted ones.
proof fn lemma_counted_covers<A>(terms: Seq<A>, counts: Seq<(usize, i128)>, w: A)
    requires
        counted(terms, counts),
        net(terms, w) != 0,
    ensures
        exists|j: int| 0 <= j < counts.len() && terms[(#[trigger] counts[j]).0 as int] == w,
{
    if !terms.contains(w) {
        lemma_net_absent(terms, w);
    }
    let i = choose|i: int| 0 <= i < terms.len() && terms[i] == w;
    assert(terms[i] == w);
}

impl<T: Value> Merge<T> {
    fn count_terms(&self) -> (counts: Vec<(usize, i128)>)
        ensures
            counted(self@, counts@),
    {
        let n = self.values.len();
        let mut counts: Vec<(usize, i128)> = Vec::new();
        assert(self@.take(0) =~= Seq::<T::V>::empty());
        for i in 0..n
            invariant
                n == self.values.len(),
                counted(self@.take(i as int), counts@),
                forall|j: int| 0 <= j < counts.len() ==> -(i as int) <= (
                #[trigger] counts[j]).1 <= i,
        {
            let sign: i128 = if i % 2 == 0 {
                1
            } else {
                -1
            };
            let ghost before = self@.take(i as int);
            let ghost after = self@.take(i + 1);
            let ghost value = self@[i as int];
            proof {
                assert(after.drop_last() =~= before);
                assert(after.last() == value);
                assert forall|w: T::V| #[trigger] net(after, w) == net(before, w) + (if w == value {
                    sign as int
                } else {
                    0
                }) by {}
                assert forall|j: int| 0 <= j < i implies after[j] == before[j] by {}
            }
            let m = counts.len();
            let mut found: Option<usize> = None;
            for j in 0..m
                invariant
                    n == self.values.len(),
                    i < n,
                    m == counts.len(),
                    before == self@.take(i as int),
                    value == self@[i as int],
                    counted(before, counts@),
                    match found {
                        Some(k) => k < m && before[counts[k as int].0 as int] == value,
                        None => forall|k: int|
                            0 <= k < j ==> before[(#[trigger] counts[k]).0 as int] != value,
                    },
            {
                let place = counts[j].0;
                assert(before[place as int] == self@[place as int]);
                if self.values[place].same(&self.values[i]) {
                    found = Some(j);
                }
            }
            let ghost old_counts = counts@;
            match found {
                Some(k) => {
                    let entry = (counts[k].0, counts[k].1 + sign);
                    counts.set(k, entry);
                    proof {
                        lemma_sum_update(old_counts, k as int, entry);
                        assert forall|x: int| 0 <= x < after.len() implies exists|j: int|
                            0 <= j < counts.len() && after[(#[trigger] counts[j]).0 as int]
                                == #[trigger] after[x] by {
                            if x < i {
                                let j = choose|j: int|
                                    0 <= j < old_counts.len() && before[(
                                    #[trigger] old_counts[j]).0 as int] == before[x];
                                assert(counts[j].0 == old_counts[j].0);
                            } else {
                                assert(counts[k as int].0 == old_counts[k as int].0);
                            }
                        }
                        assert forall|j: int| 0 <= j < counts.len() implies {
                            &&& (#[trigger] counts[j]).0 < after.len()
                            &&& counts[j].1 == net(after, after[counts[j].0 as int])
                        } by {
                            assert(counts[j].0 == old_counts[j].0);
                            if j != k {
                                assert(before[old_counts[j].0 as int] != before[old_counts[k as int].0 as int]);
                            }
                        }
                        assert forall|j: int, l: int|
                            0 <= j < counts.len() && 0 <= l < counts.len() && j
                                != l implies after[(#[trigger] counts[j]).0 as int] != after[(
                        #[trigger] counts[l]).0 as int] by {
                            assert(counts[j].0 == old_counts[j].0);
                            assert(counts[l].0 == old_counts[l].0);
                        }
                    }
                },
                None => {
                    counts.push((i, sign));
                    proof {
                        if before.contains(value) {
                            let x = choose|x: int| 0 <= x < before.len() && before[x] == value;
                            let j = choose|j: int|
                                0 <= j < old_counts.len() && before[(
                                #[trigger] old_counts[j]).0 as int] == before[x];
                            assert(false);
                        }
                        lemma_net_absent(before, value);
                        assert(counts@.drop_last() =~= old_counts);
                        assert forall|x: int| 0 <= x < after.len() implies exists|j: int|
                            0 <= j < counts.len() && after[(#[trigger] counts[j]).0 as int]
                                == #[trigger] after[x] by {
                            if x < i {
                                let j = choose|j: int|
                                    0 <= j < old_counts.len() && before[(
                                    #[trigger] old_counts[j]).0 as int] == before[x];
                                assert(counts[j] == old_counts[j]);
                            } else {
                                assert(counts[m as int].0 == i);
                            }
                        }
                        assert forall|j: int| 0 <= j < counts.len() implies {
                            &&& (#[trigger] counts[j]).0 < after.len()
                            &&& counts[j].1 == net(after, after[counts[j].0 as int])
                        } by {
                            if j < m {
                                assert(counts[j] == old_counts[j]);
                            }
                        }
                        assert forall|j: int, l: int|
                            0 <= j < counts.len() && 0 <= l < counts.len() && j
                                != l implies after[(#[trigger] counts[j]).0 as int] != after[(
                        #[trigger] counts[l]).0 as int] by {
                            if j < m {
                                assert(counts[j] == old_counts[j]);
                            }
                            if l < m {
                                assert(counts[l] == old_counts[l]);
                            }
                        }
                    }
                },
            }
        }
        assert(self@.take(n as int) =~= self@);
        counts
    }

    /// The value that the terms cancel out to, if there is one.
    pub fn resolve_trivial(&self, same_change: SameChange) -> (r: Option<&T>)
        ensures
            match r {
                Some(value) => trivial_resolution(self@, same_change) == Some(value.deep_view()),
                None => trivial_resolution(self@, same_change) is None,
            },
    {
        proof {
            use_type_invariant(self);
        }
        let counts = self.count_terms();
        let m = counts.len();
        let mut left: Vec<usize> = Vec::new();
        for j in 0..m
            invariant
                m == counts.len(),
                forall|k: int| 0 <= k < left.len() ==> (#[trigger] left[k]) < j
                    && counts[left[k] as int].1 != 0,
                forall|k: int, l: int| 0 <= k < l < left.len() ==> left[k] < left[l],
                forall|k: int|
                    0 <= k < j && (#[trigger] counts[k]).1 != 0 ==> left@.contains(k as usize),
        {
            let ghost before = left@;
            if counts[j].1 != 0 {
                left.push(j);
                proof {
                    assert(left@.last() == j);
                    assert forall|k: int|
                        0 <= k < j + 1 && (#[trigger] counts[k]).1 != 0 implies left@.contains(
                        k as usize,
                    ) by {
                        if k < j {
                            let x = choose|x: int| 0 <= x < before.len() && before[x] == k as usize;
                            assert(left@[x] == k as usize);
                        } else {
                            assert(left@[left@.len() - 1] == k as usize);
                        }
                    }
                }
            }
        }
        if left.len() == 1 {
            let a = left[0];
            let place = counts[a].0;
            proof {
                assert forall|j: int| 0 <= j < counts.len() && j != a implies (
                #[trigger] counts[j]).1 == 0 by {
                    if counts[j].1 != 0 {
                        assert(left@.contains(j as usize));
                    }
                }
                lemma_sum_others_zero(counts@, a as int);
                let v = self@[place as int];
                assert forall|w: T::V| w != v implies #[trigger] net(self@, w) == 0 by {
                    if net(self@, w) != 0 {
                        lemma_counted_covers(self@, counts@, w);
                    }
                }
                assert(cancels_to(self@, same_change, v));
                lemma_cancels_to_one(self@, same_change, v, v);
            }
            Some(&self.values[place])
        } else if left.len() == 2 && same_change == SameChange::Accept {
            let (a, b) = if counts[left[0]].1 > 0 {
                (left[0], left[1])
            } else {
                (left[1], left[0])
            };
            let place = counts[a].0;
            proof {
                assert(left[0] < left[1]);
                assert forall|j: int| 0 <= j < counts.len() && j != a && j != b implies (
                #[trigger] counts[j]).1 == 0 by {
                    if counts[j].1 != 0 {
                        assert(left@.contains(j as usize));
                    }
                }
                lemma_sum_two(counts@, a as int, b as int);
                let v = self@[place as int];
                let base = self@[counts[b as int].0 as int];
                assert forall|w: T::V| w != v && w != base implies #[trigger] net(self@, w) == 0 by {
                    if net(self@, w) != 0 {
                        lemma_counted_covers(self@, counts@, w);
                    }
                }
                assert(changed_from(self@, v, base));
                assert(cancels_to(self@, same_change, v));
                lemma_cancels_to_one(self@, same_change, v, v);
            }
            Some(&self.values[place])
        } else {
            proof {
                assert forall|v: T::V| !cancels_to(self@, same_change, v) by {
                    if cancels_to(self@, same_change, v) {
                        self.lemma_few_left(counts@, left@, same_change, v);
                    }
                }
            }
            None
        }
    }

    /// What cancels out leaves one count, or two if same changes are accepted.
    proof fn lemma_few_left(
        &self,
        counts: Seq<(usize, i128)>,
        left: Seq<usize>,
        same_change: SameChange,
        v: T::V,
    )
        requires
            counted(self@, counts),
            cancels_to(self@, same_change, v),
            forall|k: int| 0 <= k < left.len() ==> (#[trigger] left[k]) < counts.len()
                && counts[left[k] as int].1 != 0,
            forall|k: int, l: int| 0 <= k < l < left.len() ==> left[k] < left[l],
            forall|k: int|
                0 <= k < counts.len() && (#[trigger] counts[k]).1 != 0 ==> left.contains(
                    k as usize,
                ),
            counts.len() <= usize::MAX,
        ensures
            left.len() == 1 || (left.len() == 2 && same_change == SameChange::Accept),
    {
        lemma_counted_covers(self@, counts, v);
        let a = choose|j: int| 0 <= j < counts.len() && self@[(#[trigger] counts[j]).0 as int] == v;
        assert(counts[a].1 != 0);
        assert(left.contains(a as usize));
        let accept = same_change == SameChange::Accept && exists|base: T::V| #[trigger]
            changed_from(self@, v, base);
        let base = choose|base: T::V| #[trigger] changed_from(self@, v, base);
        assert forall|k: int| 0 <= k < left.len() implies self@[counts[(
        #[trigger] left[k]) as int].0 as int] == v || (accept && self@[counts[left[k] as int].0 as int]
            == base) by {
            let w = self@[counts[left[k] as int].0 as int];
            assert(net(self@, w) != 0);
        }
        if left.len() > 1 {
            assert(left[0] < left[1]);
            let w0 = self@[counts[left[0] as int].0 as int];
            let w1 = self@[counts[left[1] as int].0 as int];
            assert(w0 != w1);
            if left.len() > 2 {
                assert(left[1] < left[2]);
                assert(left[0] < left[2]);
                let w2 = self@[counts[left[2] as int].0 as int];
                assert(w0 != w2);
                assert(w1 != w2);
            }
        }
    }
}

} // verus!
