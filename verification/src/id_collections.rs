//! Maps and sets of identifiers that keep the order of insertion.

use crate::listing;
use indexmap::IndexMap;
use indexmap::IndexSet;
use vstd::prelude::*;

verus! {

/// Declares `indexmap::IndexMap`.
#[verifier::external_type_specification]
#[verifier::external_body]
#[verifier::reject_recursive_types(K)]
#[verifier::reject_recursive_types(V)]
#[verifier::reject_recursive_types(S)]
pub struct ExIndexMap<K, V, S>(IndexMap<K, V, S>);

/// Declares `indexmap::IndexSet`.
#[verifier::external_type_specification]
#[verifier::external_body]
#[verifier::reject_recursive_types(T)]
#[verifier::reject_recursive_types(S)]
pub struct ExIndexSet<T, S>(IndexSet<T, S>);

/// A map from identifiers to places, in the order of insertion.
pub type IdMap = IndexMap<Vec<u8>, usize>;

/// A set of identifiers, in the order of insertion.
pub type IdSet = IndexSet<Vec<u8>>;

/// The entries of a map, in order.
pub uninterp spec fn map_entries(map: IdMap) -> Seq<(Seq<u8>, usize)>;

/// The items of a set, in order.
pub uninterp spec fn set_items(set: IdSet) -> Seq<Seq<u8>>;

/// The entries with the given value for `key`: it takes the place of the entry
/// that there is for the key, or else comes last.
pub open spec fn with_key<V>(entries: Seq<(Seq<u8>, V)>, key: Seq<u8>, value: V) -> Seq<
    (Seq<u8>, V),
> {
    if exists|i: int| 0 <= i < entries.len() && (#[trigger] entries[i]).0 == key {
        entries.update(
            choose|i: int| 0 <= i < entries.len() && (#[trigger] entries[i]).0 == key,
            (key, value),
        )
    } else {
        entries.push((key, value))
    }
}

/// The items with the given one: it comes last, unless it is there already.
pub open spec fn with_item(items: Seq<Seq<u8>>, item: Seq<u8>) -> Seq<Seq<u8>> {
    if items.contains(item) {
        items
    } else {
        items.push(item)
    }
}

/// Calls `IndexMap::new`: an empty map.
#[verifier::external_body]
pub(crate) fn new_map() -> (r: IdMap)
    ensures
        map_entries(r) == Seq::<(Seq<u8>, usize)>::empty(),
{
    IndexMap::new()
}

/// Calls `IndexMap::insert`: sets the value of a key, in its place if it is there
/// already, and last if not.
#[verifier::external_body]
pub(crate) fn map_insert(map: &mut IdMap, key: Vec<u8>, value: usize)
    ensures
        map_entries(*final(map)) == with_key(map_entries(*old(map)), key@, value),
{
    map.insert(key, value);
}

/// Calls `IndexMap::get`: the value of a key, if it is there.
#[verifier::external_body]
pub(crate) fn map_get(map: &IdMap, key: &[u8]) -> (r: Option<usize>)
    ensures
        r == listing::lookup(map_entries(*map), key@),
{
    map.get(key).copied()
}

/// Calls `IndexMap::get_index`: the entry with the given index in the order of
/// insertion.
#[verifier::external_body]
pub(crate) fn map_get_index(map: &IdMap, index: usize) -> (r: Option<(&Vec<u8>, usize)>)
    ensures
        match r {
            Some((key, value)) => index < map_entries(*map).len() && map_entries(
                *map,
            )[index as int] == (key@, value),
            None => index >= map_entries(*map).len(),
        },
{
    map.get_index(index).map(|(key, value)| (key, *value))
}

/// Calls `IndexMap::len`: the number of entries.
#[verifier::external_body]
pub(crate) fn map_len(map: &IdMap) -> (r: usize)
    ensures
        r == map_entries(*map).len(),
{
    map.len()
}

/// Calls `IndexSet::new`: an empty set.
#[verifier::external_body]
pub(crate) fn new_set() -> (r: IdSet)
    ensures
        set_items(r) == Seq::<Seq<u8>>::empty(),
{
    IndexSet::new()
}

/// Calls `IndexSet::insert`: puts an item last, unless it is there already.
#[verifier::external_body]
pub(crate) fn set_insert(set: &mut IdSet, item: Vec<u8>)
    ensures
        set_items(*final(set)) == with_item(set_items(*old(set)), item@),
{
    set.insert(item);
}

/// Calls `IndexSet::contains`: whether an item is there.
#[verifier::external_body]
pub(crate) fn set_contains(set: &IdSet, item: &[u8]) -> (r: bool)
    ensures
        r == set_items(*set).contains(item@),
{
    set.contains(item)
}

/// Calls `IndexSet::get_index`: the item with the given index in the order of
/// insertion.
#[verifier::external_body]
pub(crate) fn set_get_index(set: &IdSet, index: usize) -> (r: Option<&Vec<u8>>)
    ensures
        match r {
            Some(item) => index < set_items(*set).len() && set_items(*set)[index as int] == item@,
            None => index >= set_items(*set).len(),
        },
{
    set.get_index(index)
}

/// Calls `IndexSet::len`: the number of items.
#[verifier::external_body]
pub(crate) fn set_len(set: &IdSet) -> (r: usize)
    ensures
        r == set_items(*set).len(),
{
    set.len()
}

/// Calls `IndexSet::difference`: the items that are not in the other set, in the
/// order that they have.
#[verifier::external_body]
pub(crate) fn set_difference(set: &IdSet, other: &IdSet) -> (r: Vec<Vec<u8>>)
    ensures
        r.deep_view() == set_items(*set).filter(|item: Seq<u8>| !set_items(*other).contains(item)),
{
    set.difference(other).cloned().collect()
}

} // verus!
