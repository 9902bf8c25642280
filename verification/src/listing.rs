//! Sorted listings of partial functions with finitely many values.

use crate::order;
use vstd::prelude::*;

verus! {

/// Whether the keys increase strictly.
pub open spec fn sorted_by<K, V>(less: spec_fn(K, K) -> bool, s: Seq<(K, V)>) -> bool {
    forall|i: int, j: int|
        0 <= i < j < s.len() ==> less((#[trigger] s[i]).0, (#[trigger] s[j]).0)
}

/// What the listing holds for `key`, if it has an entry for it.
pub open spec fn lookup<K, V>(s: Seq<(K, V)>, key: K) -> Option<V> {
    if exists|i: int| 0 <= i < s.len() && (#[trigger] s[i]).0 == key {
        Some(s[choose|i: int| 0 <= i < s.len() && (#[trigger] s[i]).0 == key].1)
    } else {
        None
    }
}

/// Whether `s` lists the values of `f`, sorted by their keys.
pub open spec fn tabulates<K, V>(
    less: spec_fn(K, K) -> bool,
    s: Seq<(K, V)>,
    f: spec_fn(K) -> Option<V>,
) -> bool {
    &&& sorted_by(less, s)
    &&& forall|key: K| #[trigger] lookup(s, key) == f(key)
}

/// The values of `f`, sorted by their keys.
pub open spec fn table<K, V>(less: spec_fn(K, K) -> bool, f: spec_fn(K) -> Option<V>) -> Seq<
    (K, V),
> {
    choose|s: Seq<(K, V)>| tabulates(less, s, f)
}

/// A listing holds for the key of an entry what the entry says.
pub proof fn lemma_lookup_at<K, V>(less: spec_fn(K, K) -> bool, s: Seq<(K, V)>, i: int)
    requires
        order::strict_total_order(less),
        sorted_by(less, s),
        0 <= i < s.len(),
    ensures
        lookup(s, s[i].0) == Some(s[i].1),
{
    let key = s[i].0;
    let j = choose|j: int| 0 <= j < s.len() && (#[trigger] s[j]).0 == key;
    assert(0 <= j < s.len() && s[j].0 == key);
    if i < j {
        assert(less(s[i].0, s[j].0));
    } else if j < i {
        assert(less(s[j].0, s[i].0));
    }
}

/// A key that the listing holds something for has an entry.
pub proof fn lemma_lookup_some<K, V>(s: Seq<(K, V)>, key: K) -> (i: int)
    requires
        lookup(s, key) is Some,
    ensures
        0 <= i < s.len(),
        s[i] == (key, lookup(s, key)->0),
{
    choose|j: int| 0 <= j < s.len() && (#[trigger] s[j]).0 == key
}

/// Nothing is held for a key that no entry has.
pub proof fn lemma_lookup_none<K, V>(s: Seq<(K, V)>, key: K)
    requires
        lookup(s, key) is None,
    ensures
        forall|i: int| 0 <= i < s.len() ==> (#[trigger] s[i]).0 != key,
{
}

/// What a listing holds, with an entry more at its end.
pub proof fn lemma_lookup_push<K, V>(less: spec_fn(K, K) -> bool, s: Seq<(K, V)>, key: K, value: V)
    requires
        order::strict_total_order(less),
        sorted_by(less, s),
        forall|i: int| 0 <= i < s.len() ==> less((#[trigger] s[i]).0, key),
    ensures
        sorted_by(less, s.push((key, value))),
        forall|k: K| #[trigger]
            lookup(s.push((key, value)), k) == (if k == key {
                Some(value)
            } else {
                lookup(s, k)
            }),
{
    let t = s.push((key, value));
    assert(sorted_by(less, t));
    assert forall|k: K| #[trigger] lookup(t, k) == (if k == key {
        Some(value)
    } else {
        lookup(s, k)
    }) by {
        if k == key {
            lemma_lookup_at(less, t, s.len() as int);
        } else if lookup(s, k) is Some {
            let i = lemma_lookup_some(s, k);
            assert(t[i] == s[i]);
            lemma_lookup_at(less, t, i);
        } else if lookup(t, k) is Some {
            let i = lemma_lookup_some(t, k);
            assert(s[i] == t[i]);
            lemma_lookup_none(s, k);
        }
    }
}

/// What a listing holds once an entry has been put in at its place.
pub proof fn lemma_lookup_insert<K, V>(
    less: spec_fn(K, K) -> bool,
    s: Seq<(K, V)>,
    place: int,
    key: K,
    value: V,
)
    requires
        order::strict_total_order(less),
        sorted_by(less, s),
        0 <= place <= s.len(),
        forall|i: int| 0 <= i < place ==> less((#[trigger] s[i]).0, key),
        forall|i: int| place <= i < s.len() ==> less(key, (#[trigger] s[i]).0),
    ensures
        sorted_by(less, s.insert(place, (key, value))),
        forall|k: K| #[trigger]
            lookup(s.insert(place, (key, value)), k) == (if k == key {
                Some(value)
            } else {
                lookup(s, k)
            }),
{
    let t = s.insert(place, (key, value));
    assert forall|i: int, j: int| 0 <= i < j < t.len() implies less(
        (#[trigger] t[i]).0,
        (#[trigger] t[j]).0,
    ) by {
        let a = if i < place {
            s[i]
        } else if i == place {
            (key, value)
        } else {
            s[i - 1]
        };
        let b = if j < place {
            s[j]
        } else if j == place {
            (key, value)
        } else {
            s[j - 1]
        };
        assert(t[i] == a && t[j] == b);
    }
    assert forall|k: K| #[trigger] lookup(t, k) == (if k == key {
        Some(value)
    } else {
        lookup(s, k)
    }) by {
        if k == key {
            lemma_lookup_at(less, t, place);
        } else if lookup(s, k) is Some {
            let i = lemma_lookup_some(s, k);
            let j = if i < place {
                i
            } else {
                i + 1
            };
            assert(t[j] == s[i]);
            lemma_lookup_at(less, t, j);
        } else if lookup(t, k) is Some {
            let j = lemma_lookup_some(t, k);
            let i = if j < place {
                j
            } else {
                j - 1
            };
            assert(j != place);
            assert(s[i] == t[j]);
            lemma_lookup_none(s, k);
        }
    }
}

/// What a listing holds once the entry at `place` is gone.
pub proof fn lemma_lookup_remove<K, V>(less: spec_fn(K, K) -> bool, s: Seq<(K, V)>, place: int)
    requires
        order::strict_total_order(less),
        sorted_by(less, s),
        0 <= place < s.len(),
    ensures
        sorted_by(less, s.remove(place)),
        forall|k: K| #[trigger]
            lookup(s.remove(place), k) == (if k == s[place].0 {
                None
            } else {
                lookup(s, k)
            }),
{
    let t = s.remove(place);
    assert forall|i: int, j: int| 0 <= i < j < t.len() implies less(
        (#[trigger] t[i]).0,
        (#[trigger] t[j]).0,
    ) by {
        let a = if i < place {
            i
        } else {
            i + 1
        };
        let b = if j < place {
            j
        } else {
            j + 1
        };
        assert(t[i] == s[a] && t[j] == s[b]);
    }
    assert forall|k: K| #[trigger] lookup(t, k) == (if k == s[place].0 {
        None
    } else {
        lookup(s, k)
    }) by {
        if lookup(t, k) is Some {
            let j = lemma_lookup_some(t, k);
            let i = if j < place {
                j
            } else {
                j + 1
            };
            assert(s[i] == t[j]);
            lemma_lookup_at(less, s, i);
            if i < place {
                assert(less(s[i].0, s[place].0));
            } else {
                assert(less(s[place].0, s[i].0));
            }
        } else if lookup(s, k) is Some && k != s[place].0 {
            let i = lemma_lookup_some(s, k);
            let j = if i < place {
                i
            } else {
                i - 1
            };
            assert(t[j] == s[i]);
            lemma_lookup_none(t, k);
        }
    }
}

/// Two sorted listings that hold the same are equal.
pub proof fn lemma_listings_equal<K, V>(
    less: spec_fn(K, K) -> bool,
    a: Seq<(K, V)>,
    b: Seq<(K, V)>,
)
    requires
        order::strict_total_order(less),
        sorted_by(less, a),
        sorted_by(less, b),
        forall|key: K| #[trigger] lookup(a, key) == lookup(b, key),
    ensures
        a == b,
    decreases a.len(),
{
    if a.len() == 0 {
        if b.len() > 0 {
            lemma_lookup_at(less, b, 0);
            assert(lookup(a, b[0].0) is Some);
            let i = lemma_lookup_some(a, b[0].0);
        }
        assert(a =~= b);
    } else {
        let last = a.len() - 1;
        lemma_lookup_at(less, a, last);
        assert(lookup(b, a[last].0) == Some(a[last].1));
        let j = lemma_lookup_some(b, a[last].0);
        if j < b.len() - 1 {
            let end = b.len() - 1;
            assert(less(b[j].0, b[end].0));
            lemma_lookup_at(less, b, end);
            assert(lookup(a, b[end].0) is Some);
            let i = lemma_lookup_some(a, b[end].0);
            if i < last {
                assert(less(a[i].0, a[last].0));
            }
            assert(false);
        }
        lemma_lookup_remove(less, a, last);
        lemma_lookup_remove(less, b, j);
        assert forall|key: K| #[trigger] lookup(a.remove(last), key) == lookup(b.remove(j), key) by {
            assert(lookup(a, key) == lookup(b, key));
        }
        lemma_listings_equal(less, a.remove(last), b.remove(j));
        assert(a =~= a.remove(last).push(a[last]));
        assert(b =~= b.remove(j).push(b[j]));
    }
}

/// A listing of the values of `f` is the table of `f`.
pub proof fn lemma_table<K, V>(
    less: spec_fn(K, K) -> bool,
    s: Seq<(K, V)>,
    f: spec_fn(K) -> Option<V>,
)
    requires
        order::strict_total_order(less),
        tabulates(less, s, f),
    ensures
        table(less, f) == s,
        tabulates(less, table(less, f), f),
{
    let t = table(less, f);
    assert(tabulates(less, t, f));
    lemma_listings_equal(less, t, s);
}

/// A function whose values all have their keys in `keys` can be listed.
pub proof fn lemma_table_exists<K, V>(
    less: spec_fn(K, K) -> bool,
    keys: Seq<K>,
    f: spec_fn(K) -> Option<V>,
)
    requires
        order::strict_total_order(less),
        forall|key: K| (#[trigger] f(key)) is Some ==> keys.contains(key),
    ensures
        tabulates(less, table(less, f), f),
    decreases keys.len(),
{
    if keys.len() == 0 {
        let s = Seq::<(K, V)>::empty();
        assert forall|key: K| #[trigger] lookup(s, key) == f(key) by {
            if f(key) is Some {
                assert(keys.contains(key));
            }
        }
        lemma_table(less, s, f);
    } else {
        let key = keys.last();
        let g = |k: K|
            if k == key {
                None
            } else {
                f(k)
            };
        assert forall|k: K| (#[trigger] g(k)) is Some implies keys.drop_last().contains(k) by {
            assert(f(k) is Some);
            assert(keys.contains(k));
            let i = choose|i: int| 0 <= i < keys.len() && keys[i] == k;
            assert(keys.drop_last()[i] == k);
        }
        lemma_table_exists(less, keys.drop_last(), g);
        let t = table(less, g);
        assert(lookup(t, key) == g(key));
        if f(key) is None {
            assert forall|k: K| #[trigger] lookup(t, k) == f(k) by {
                assert(lookup(t, k) == g(k));
            }
            lemma_table(less, t, f);
        } else {
            let value = f(key)->0;
            lemma_lookup_none(t, key);
            let place = lemma_place(less, t, key);
            lemma_lookup_insert(less, t, place, key, value);
            let s = t.insert(place, (key, value));
            assert forall|k: K| #[trigger] lookup(s, k) == f(k) by {
                assert(lookup(t, k) == g(k));
            }
            lemma_table(less, s, f);
        }
    }
}

proof fn lemma_place<K, V>(less: spec_fn(K, K) -> bool, s: Seq<(K, V)>, key: K) -> (place: int)
    requires
        order::strict_total_order(less),
        sorted_by(less, s),
        forall|i: int| 0 <= i < s.len() ==> (#[trigger] s[i]).0 != key,
    ensures
        0 <= place <= s.len(),
        forall|i: int| 0 <= i < place ==> less((#[trigger] s[i]).0, key),
        forall|i: int| place <= i < s.len() ==> less(key, (#[trigger] s[i]).0),
    decreases s.len(),
{
    if s.len() == 0 {
        0
    } else {
        let last = s.len() - 1;
        assert(less(s[last].0, key) || s[last].0 == key || less(key, s[last].0));
        if less(s[last].0, key) {
            assert forall|i: int| 0 <= i < s.len() implies less((#[trigger] s[i]).0, key) by {
                if i < last {
                    assert(less(s[i].0, s[last].0));
                }
            }
            s.len() as int
        } else {
            let rest = s.drop_last();
            assert forall|i: int, j: int| 0 <= i < j < rest.len() implies less(
                (#[trigger] rest[i]).0,
                (#[trigger] rest[j]).0,
            ) by {
                assert(rest[i] == s[i] && rest[j] == s[j]);
            }
            assert forall|i: int| 0 <= i < rest.len() implies (#[trigger] rest[i]).0 != key by {
                assert(rest[i] == s[i]);
            }
            let place = lemma_place(less, rest, key);
            assert forall|i: int| 0 <= i < place implies less((#[trigger] s[i]).0, key) by {
                assert(rest[i] == s[i]);
            }
            assert forall|i: int| place <= i < s.len() implies less(key, (#[trigger] s[i]).0) by {
                if i < last {
                    assert(rest[i] == s[i]);
                }
            }
            place
        }
    }
}

/// The entries that `g` keeps, with the values that it gives them.
pub open spec fn filter_mapped<K, V, W>(s: Seq<(K, V)>, g: spec_fn(K, V) -> Option<W>) -> Seq<(K, W)>
    decreases s.len(),
{
    if s.len() == 0 {
        Seq::empty()
    } else {
        let rest = filter_mapped(s.drop_last(), g);
        match g(s.last().0, s.last().1) {
            Some(value) => rest.push((s.last().0, value)),
            None => rest,
        }
    }
}

/// Keeping entries of a sorted listing gives a sorted listing, which holds what
/// `g` makes of what the listing holds.
pub proof fn lemma_filter_mapped<K, V, W>(
    less: spec_fn(K, K) -> bool,
    s: Seq<(K, V)>,
    g: spec_fn(K, V) -> Option<W>,
)
    requires
        order::strict_total_order(less),
        sorted_by(less, s),
    ensures
        sorted_by(less, filter_mapped(s, g)),
        forall|k: K| #[trigger]
            lookup(filter_mapped(s, g), k) == (match lookup(s, k) {
                Some(value) => g(k, value),
                None => None,
            }),
        forall|i: int|
            0 <= i < filter_mapped(s, g).len() ==> exists|j: int|
                0 <= j < s.len() && (#[trigger] s[j]).0 == (#[trigger] filter_mapped(s, g)[i]).0,
    decreases s.len(),
{
    if s.len() > 0 {
        let last = s.len() - 1;
        let rest = s.drop_last();
        assert(rest =~= s.remove(last));
        lemma_lookup_remove(less, s, last);
        lemma_filter_mapped(less, rest, g);
        lemma_lookup_at(less, s, last);
        let t = filter_mapped(rest, g);
        assert forall|i: int| 0 <= i < t.len() implies less((#[trigger] t[i]).0, s[last].0) by {
            let j = choose|j: int| 0 <= j < rest.len() && (#[trigger] rest[j]).0 == t[i].0;
            assert(rest[j] == s[j]);
        }
        if let Some(value) = g(s[last].0, s[last].1) {
            lemma_lookup_push(less, t, s[last].0, value);
        }
        let u = filter_mapped(s, g);
        assert forall|k: K| #[trigger] lookup(u, k) == (match lookup(s, k) {
            Some(value) => g(k, value),
            None => None,
        }) by {
            assert(lookup(rest, k) == if k == s[last].0 {
                None
            } else {
                lookup(s, k)
            });
            assert(lookup(t, k) == match lookup(rest, k) {
                Some(value) => g(k, value),
                None => None,
            });
        }
        assert forall|i: int| 0 <= i < u.len() implies exists|j: int|
            0 <= j < s.len() && (#[trigger] s[j]).0 == (#[trigger] u[i]).0 by {
            if i < t.len() {
                assert(u[i] == t[i]);
                let j = choose|j: int| 0 <= j < rest.len() && (#[trigger] rest[j]).0 == t[i].0;
                assert(rest[j] == s[j]);
            } else {
                assert(s[last].0 == u[i].0);
            }
        }
    }
}

/// Keeping the entries up to the next one.
pub proof fn lemma_filter_mapped_next<K, V, W>(
    s: Seq<(K, V)>,
    g: spec_fn(K, V) -> Option<W>,
    i: int,
)
    requires
        0 <= i < s.len(),
    ensures
        filter_mapped(s.take(i + 1), g) == (match g(s[i].0, s[i].1) {
            Some(value) => filter_mapped(s.take(i), g).push((s[i].0, value)),
            None => filter_mapped(s.take(i), g),
        }),
{
    assert(s.take(i + 1).drop_last() =~= s.take(i));
}

/// What is held once an entry with a new key has been put in front.
pub proof fn lemma_lookup_cons<K, V>(key: K, value: V, s: Seq<(K, V)>)
    requires
        lookup(s, key) is None,
        forall|i: int, j: int|
            0 <= i < j < s.len() ==> (#[trigger] s[i]).0 != (#[trigger] s[j]).0,
    ensures
        forall|k: K| #[trigger]
            lookup(seq![(key, value)] + s, k) == (if k == key {
                Some(value)
            } else {
                lookup(s, k)
            }),
{
    let t = seq![(key, value)] + s;
    lemma_lookup_none(s, key);
    assert forall|k: K| #[trigger] lookup(t, k) == (if k == key {
        Some(value)
    } else {
        lookup(s, k)
    }) by {
        if k == key {
            assert(t[0].0 == key);
            let i = lemma_lookup_some(t, k);
            if i > 0 {
                assert(s[i - 1] == t[i]);
            }
        } else {
            if lookup(s, k) is Some {
                let i = lemma_lookup_some(s, k);
                assert(t[i + 1] == s[i]);
                let j = lemma_lookup_some(t, k);
                assert(j > 0);
                assert(s[j - 1] == t[j]);
                if i < j - 1 {
                    assert(s[i].0 != s[j - 1].0);
                } else if j - 1 < i {
                    assert(s[j - 1].0 != s[i].0);
                }
            } else if lookup(t, k) is Some {
                let j = lemma_lookup_some(t, k);
                assert(j > 0);
                assert(s[j - 1] == t[j]);
                lemma_lookup_none(s, k);
            }
        }
    }
}

} // verus!
