//! Maps and sets of paths, kept in the order of the paths.

use crate::listing;
use crate::order;
use crate::repo_path::PathView;
use crate::repo_path::RepoPathBuf;
use crate::value::Value;
use vstd::prelude::*;

verus! {

/// What a listing holds, as a map.
pub open spec fn listing_map<K, V>(s: Seq<(K, V)>) -> Map<K, V> {
    Map::new(|k: K| listing::lookup(s, k) is Some, |k: K| listing::lookup(s, k)->0)
}

/// Whether `path` is the first of the given paths.
pub open spec fn is_first_path(paths: Set<PathView>, path: PathView) -> bool {
    &&& paths.contains(path)
    &&& forall|p: PathView| #[trigger] paths.contains(p) ==> p == path || order::path_less(path, p)
}

/// A sorted listing has as many entries as it has keys.
pub proof fn lemma_listing_map_len<V>(s: Seq<(PathView, V)>)
    requires
        listing::sorted_by(order::path_order(), s),
    ensures
        listing_map(s).dom().finite(),
        listing_map(s).dom().len() == s.len(),
    decreases s.len(),
{
    order::lemma_path_order();
    if s.len() == 0 {
        assert(listing_map(s).dom() =~= Set::empty());
    } else {
        let last = s.len() - 1;
        let rest = s.drop_last();
        assert(rest =~= s.remove(last));
        listing::lemma_lookup_remove(order::path_order(), s, last);
        listing::lemma_lookup_at(order::path_order(), s, last);
        lemma_listing_map_len(rest);
        assert(listing::lookup(rest, s[last].0) is None);
        assert(listing_map(s).dom() =~= listing_map(rest).dom().insert(s[last].0));
    }
}

/// The first entry of a sorted listing has the first of its keys.
pub proof fn lemma_listing_first<V>(s: Seq<(PathView, V)>)
    requires
        listing::sorted_by(order::path_order(), s),
        s.len() > 0,
    ensures
        is_first_path(listing_map(s).dom(), s[0].0),
        listing_map(s)[s[0].0] == s[0].1,
{
    order::lemma_path_order();
    let less = order::path_order();
    listing::lemma_lookup_at(less, s, 0);
    assert forall|p: PathView| #[trigger] listing_map(s).dom().contains(p) implies p == s[0].0
        || order::path_less(s[0].0, p) by {
        let i = listing::lemma_lookup_some(s, p);
        if i > 0 {
            assert(less(s[0].0, s[i].0));
        }
    }
}

/// A map from paths to values.
#[derive(Debug)]
pub struct PathMap<V> {
    entries: Vec<(RepoPathBuf, V)>,
}

spec fn entries_listing<V>(entries: Seq<(RepoPathBuf, V)>) -> Seq<(PathView, V)> {
    Seq::new(entries.len(), |i: int| (entries[i].0@, entries[i].1))
}

impl<V> View for PathMap<V> {
    type V = Map<PathView, V>;

    open spec fn view(&self) -> Map<PathView, V> {
        listing_map(self.listing())
    }
}

impl<V> PathMap<V> {
    #[verifier::type_invariant]
    spec fn type_inv(self) -> bool {
        listing::sorted_by(order::path_order(), entries_listing(self.entries@))
    }

    /// The entries, sorted by path.
    pub closed spec fn listing(self) -> Seq<(PathView, V)> {
        entries_listing(self.entries@)
    }

    /// The empty map.
    pub fn new() -> (r: Self)
        ensures
            r@ == Map::<PathView, V>::empty(),
            r.listing() == Seq::<(PathView, V)>::empty(),
    {
        let r = PathMap { entries: Vec::new() };
        assert(r.listing() =~= Seq::empty());
        assert(r@ =~= Map::empty());
        r
    }

    /// The number of entries.
    pub fn len(&self) -> (r: usize)
        ensures
            r == self.listing().len(),
            listing::sorted_by(order::path_order(), self.listing()),
            self@.dom().finite(),
            r == self@.dom().len(),
    {
        proof {
            use_type_invariant(self);
            lemma_listing_map_len(self.listing());
        }
        self.entries.len()
    }

    /// Whether there is no entry.
    pub fn is_empty(&self) -> (r: bool)
        ensures
            r == (self@ == Map::<PathView, V>::empty()),
            r == (self.listing().len() == 0),
    {
        proof {
            use_type_invariant(self);
            if self.listing().len() == 0 {
                assert(self@ =~= Map::empty());
            } else {
                order::lemma_path_order();
                listing::lemma_lookup_at(order::path_order(), self.listing(), 0);
                assert(self@.dom().contains(self.listing()[0].0));
            }
        }
        self.entries.len() == 0
    }

    /// The entry with the given index, in the order of the paths.
    pub fn get_index(&self, index: usize) -> (r: (&RepoPathBuf, &V))
        requires
            index < self.listing().len(),
        ensures
            (r.0@, *r.1) == self.listing()[index as int],
    {
        let entry = &self.entries[index];
        (&entry.0, &entry.1)
    }

    /// The number of entries whose paths come before `path`.
    fn place(&self, path: &RepoPathBuf) -> (r: usize)
        ensures
            r <= self.listing().len(),
            forall|i: int| 0 <= i < r ==> order::path_less(
                (#[trigger] self.listing()[i]).0,
                path@,
            ),
            forall|i: int| r <= i < self.listing().len() ==> !order::path_less(
                (#[trigger] self.listing()[i]).0,
                path@,
            ),
    {
        proof {
            use_type_invariant(self);
        }
        let mut low: usize = 0;
        let mut high: usize = self.entries.len();
        while low < high
            invariant
                low <= high <= self.entries.len(),
                listing::sorted_by(order::path_order(), self.listing()),
                forall|i: int| 0 <= i < low ==> order::path_less(
                    (#[trigger] self.listing()[i]).0,
                    path@,
                ),
                forall|i: int| high <= i < self.listing().len() ==> !order::path_less(
                    (#[trigger] self.listing()[i]).0,
                    path@,
                ),
            decreases high - low,
        {
            let middle = low + (high - low) / 2;
            let before = self.entries[middle].0.is_before(path);
            proof {
                let s = self.listing();
                let less = order::path_order();
                assert(s[middle as int].0 == self.entries@[middle as int].0@);
                assert forall|i: int| 0 <= i < middle && before implies order::path_less(
                    (#[trigger] s[i]).0,
                    path@,
                ) by {
                    assert(less(s[i].0, s[middle as int].0));
                    order::lemma_paths(s[i].0, s[middle as int].0, path@);
                }
                assert forall|i: int| middle < i < s.len() && !before implies !order::path_less(
                    (#[trigger] s[i]).0,
                    path@,
                ) by {
                    assert(less(s[middle as int].0, s[i].0));
                    order::lemma_paths(s[middle as int].0, s[i].0, path@);
                }
            }
            if before {
                low = middle + 1;
            } else {
                high = middle;
            }
        }
        low
    }

    /// The index of the entry for `path`, if there is one.
    fn find(&self, path: &RepoPathBuf) -> (r: Option<usize>)
        ensures
            match r {
                Some(i) => i < self.listing().len() && self.listing()[i as int].0 == path@,
                None => listing::lookup(self.listing(), path@) is None,
            },
    {
        proof {
            use_type_invariant(self);
            order::lemma_path_order();
        }
        let place = self.place(path);
        if place < self.entries.len() && self.entries[place].0.same(path) {
            Some(place)
        } else {
            proof {
                let s = self.listing();
                let less = order::path_order();
                if listing::lookup(s, path@) is Some {
                    let i = listing::lemma_lookup_some(s, path@);
                    order::lemma_paths(path@, path@, path@);
                    assert(i >= place);
                    if i > place {
                        assert(less(s[place as int].0, s[i].0));
                    }
                }
            }
            None
        }
    }

    /// The value for `path`.
    pub fn get(&self, path: &RepoPathBuf) -> (r: Option<&V>)
        ensures
            match r {
                Some(value) => self@.dom().contains(path@) && *value == self@[path@],
                None => !self@.dom().contains(path@),
            },
    {
        match self.find(path) {
            Some(i) => {
                proof {
                    use_type_invariant(self);
                    order::lemma_path_order();
                    listing::lemma_lookup_at(order::path_order(), self.listing(), i as int);
                }
                Some(&self.entries[i].1)
            },
            None => None,
        }
    }

    /// Whether there is a value for `path`.
    pub fn contains_key(&self, path: &RepoPathBuf) -> (r: bool)
        ensures
            r == self@.dom().contains(path@),
    {
        self.get(path).is_some()
    }

    /// Sets the value for `path`.
    pub fn insert(&mut self, path: RepoPathBuf, value: V)
        ensures
            final(self)@ == old(self)@.insert(path@, value),
            listing::sorted_by(order::path_order(), final(self).listing()),
    {
        proof {
            use_type_invariant(&*self);
            order::lemma_path_order();
        }
        let ghost before = self.listing();
        let ghost less = order::path_order();
        let place = self.place(&path);
        let found = self.find(&path);
        let mut entries: Vec<(RepoPathBuf, V)> = Vec::new();
        std::mem::swap(&mut entries, &mut self.entries);
        assert(entries_listing(entries@) == before);
        match found {
            Some(i) => {
                let ghost key = path@;
                entries.set(i, (path, value));
                proof {
                    let after = entries_listing(entries@);
                    let gone = before.remove(i as int);
                    listing::lemma_lookup_remove(less, before, i as int);
                    assert forall|j: int| 0 <= j < i implies less((#[trigger] gone[j]).0, key) by {
                        assert(less(before[j].0, before[i as int].0));
                    }
                    assert forall|j: int| i <= j < gone.len() implies less(
                        key,
                        (#[trigger] gone[j]).0,
                    ) by {
                        assert(gone[j] == before[j + 1]);
                        assert(less(before[i as int].0, before[j + 1].0));
                    }
                    listing::lemma_lookup_insert(less, gone, i as int, key, value);
                    assert(after =~= gone.insert(i as int, (key, value)));
                    assert(listing_map(after) =~= listing_map(before).insert(key, value)) by {
                        assert forall|k: PathView| listing_map(after).dom().contains(k) == (
                        listing_map(before).insert(key, value)).dom().contains(k) by {
                            assert(listing::lookup(after, k) == if k == key {
                                Some(value)
                            } else {
                                listing::lookup(gone, k)
                            });
                            if k == key {
                                listing::lemma_lookup_at(less, before, i as int);
                            }
                        }
                    }
                }
            },
            None => {
                let ghost key = path@;
                entries.insert(place, (path, value));
                proof {
                    let after = entries_listing(entries@);
                    listing::lemma_lookup_none(before, key);
                    assert forall|j: int| place <= j < before.len() implies less(
                        key,
                        (#[trigger] before[j]).0,
                    ) by {
                        order::lemma_paths(key, before[j].0, key);
                    }
                    assert forall|j: int| 0 <= j < place implies less(
                        (#[trigger] before[j]).0,
                        key,
                    ) by {}
                    listing::lemma_lookup_insert(less, before, place as int, key, value);
                    assert(after =~= before.insert(place as int, (key, value)));
                    assert(listing_map(after) =~= listing_map(before).insert(key, value));
                }
            },
        }
        self.entries = entries;
    }

    /// Takes out the entry for `path`.
    pub fn remove(&mut self, path: &RepoPathBuf) -> (r: Option<V>)
        ensures
            match r {
                Some(value) => old(self)@.dom().contains(path@) && value == old(self)@[path@],
                None => !old(self)@.dom().contains(path@),
            },
            final(self)@ == old(self)@.remove(path@),
    {
        proof {
            use_type_invariant(&*self);
            order::lemma_path_order();
        }
        let ghost before = self.listing();
        match self.find(path) {
            Some(i) => {
                let mut entries: Vec<(RepoPathBuf, V)> = Vec::new();
                std::mem::swap(&mut entries, &mut self.entries);
                assert(entries_listing(entries@) == before);
                let entry = entries.remove(i);
                proof {
                    let less = order::path_order();
                    listing::lemma_lookup_at(less, before, i as int);
                    listing::lemma_lookup_remove(less, before, i as int);
                    let after = entries_listing(entries@);
                    assert(after =~= before.remove(i as int));
                    assert(listing_map(after) =~= listing_map(before).remove(path@));
                }
                self.entries = entries;
                Some(entry.1)
            },
            None => {
                assert(self@.remove(path@) =~= self@);
                None
            },
        }
    }

    /// The first entry in the order of the paths.
    pub fn first_key_value(&self) -> (r: Option<(&RepoPathBuf, &V)>)
        ensures
            match r {
                Some((path, value)) => {
                    &&& self.listing().len() > 0
                    &&& self.listing()[0] == (path@, *value)
                    &&& is_first_path(self@.dom(), path@)
                    &&& self@[path@] == *value
                },
                None => self.listing().len() == 0 && self@ == Map::<PathView, V>::empty(),
            },
    {
        proof {
            use_type_invariant(self);
            if self.listing().len() > 0 {
                lemma_listing_first(self.listing());
            } else {
                assert(self@ =~= Map::empty());
            }
        }
        if self.entries.len() == 0 {
            None
        } else {
            Some((&self.entries[0].0, &self.entries[0].1))
        }
    }

    /// Takes out the first entry in the order of the paths.
    pub fn pop_first(&mut self) -> (r: Option<(RepoPathBuf, V)>)
        ensures
            match r {
                Some((path, value)) => {
                    &&& old(self).listing().len() > 0
                    &&& old(self).listing()[0] == (path@, value)
                    &&& final(self).listing() == old(self).listing().drop_first()
                    &&& final(self)@ == old(self)@.remove(path@)
                    &&& is_first_path(old(self)@.dom(), path@)
                    &&& value == old(self)@[path@]
                },
                None => old(self).listing().len() == 0 && *final(self) == *old(self),
            },
    {
        proof {
            use_type_invariant(&*self);
            order::lemma_path_order();
        }
        if self.entries.len() == 0 {
            return None;
        }
        let ghost before = self.listing();
        let mut entries: Vec<(RepoPathBuf, V)> = Vec::new();
        std::mem::swap(&mut entries, &mut self.entries);
        assert(entries_listing(entries@) == before);
        let entry = entries.remove(0);
        proof {
            let less = order::path_order();
            listing::lemma_lookup_remove(less, before, 0);
            let after = entries_listing(entries@);
            lemma_listing_first(before);
            assert(after =~= before.remove(0));
            assert(after =~= before.drop_first());
            assert(listing_map(after) =~= listing_map(before).remove(entry.0@));
        }
        self.entries = entries;
        Some(entry)
    }
}

impl<V> Default for PathMap<V> {
    fn default() -> (r: Self)
        ensures
            r@ == Map::<PathView, V>::empty(),
    {
        PathMap::new()
    }
}

/// A set of paths.
#[derive(Debug)]
pub struct PathSet {
    map: PathMap<()>,
}

impl View for PathSet {
    type V = Set<PathView>;

    closed spec fn view(&self) -> Set<PathView> {
        self.map@.dom()
    }
}

impl PathSet {
    /// The paths, sorted.
    pub closed spec fn listing(self) -> Seq<PathView> {
        Seq::new(self.map.listing().len(), |i: int| self.map.listing()[i].0)
    }

    /// The empty set.
    pub fn new() -> (r: Self)
        ensures
            r@ == Set::<PathView>::empty(),
    {
        let r = PathSet { map: PathMap::new() };
        assert(r@ =~= Set::empty());
        r
    }

    /// The number of paths.
    pub fn len(&self) -> (r: usize)
        ensures
            r == self.listing().len(),
            forall|i: int| 0 <= i < r ==> self@.contains(#[trigger] self.listing()[i]),
            forall|p: PathView| self@.contains(p) ==> #[trigger] self.listing().contains(p),
            forall|i: int, j: int|
                0 <= i < j < r ==> order::path_less(
                    #[trigger] self.listing()[i],
                    #[trigger] self.listing()[j],
                ),
    {
        let r = self.map.len();
        proof {
            let s = self.map.listing();
            let less = order::path_order();
            order::lemma_path_order();
            assert forall|i: int| 0 <= i < r implies self@.contains(
                #[trigger] self.listing()[i],
            ) by {
                listing::lemma_lookup_at(less, s, i);
            }
            assert forall|p: PathView| self@.contains(p) implies #[trigger] self.listing().contains(
                p,
            ) by {
                let i = listing::lemma_lookup_some(s, p);
                assert(self.listing()[i] == p);
            }
            assert forall|i: int, j: int| 0 <= i < j < r implies order::path_less(
                #[trigger] self.listing()[i],
                #[trigger] self.listing()[j],
            ) by {
                assert(less(s[i].0, s[j].0));
            }
        }
        r
    }

    /// Whether there is no path.
    pub fn is_empty(&self) -> (r: bool)
        ensures
            r == (self@ == Set::<PathView>::empty()),
    {
        let r = self.map.is_empty();
        proof {
            if self.map@ == Map::<PathView, ()>::empty() {
                assert(self@ =~= Set::empty());
            } else if self@ == Set::<PathView>::empty() {
                assert(self.map@ =~= Map::empty());
            }
        }
        r
    }

    /// The path with the given index, in order.
    pub fn get_index(&self, index: usize) -> (r: &RepoPathBuf)
        requires
            index < self.listing().len(),
        ensures
            r@ == self.listing()[index as int],
    {
        self.map.get_index(index).0
    }

    /// Whether `path` is in the set.
    pub fn contains(&self, path: &RepoPathBuf) -> (r: bool)
        ensures
            r == self@.contains(path@),
    {
        self.map.contains_key(path)
    }

    /// Adds `path` to the set.
    pub fn insert(&mut self, path: RepoPathBuf)
        ensures
            final(self)@ == old(self)@.insert(path@),
    {
        self.map.insert(path, ());
        assert(self@ =~= old(self)@.insert(path@));
    }
}

} // verus!
