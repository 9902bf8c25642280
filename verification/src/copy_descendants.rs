//! The descendants of copy histories.

use crate::backend::CopyId;
use crate::copy_graph;
use crate::copy_graph::CopyGraph;
use crate::copy_graph::GraphView;
use crate::copy_order;
use crate::copy_walk;
use crate::id_collections;
use crate::id_collections::IdMap;
use crate::id_collections::IdSet;
use crate::listing;
use crate::value::Value;
use vstd::prelude::*;

verus! {

/// The descendants of an ID among the first `n` IDs of a list, in order.
pub open spec fn descendants_among(
    g: GraphView,
    list: Seq<Seq<u8>>,
    id: Seq<u8>,
    n: nat,
) -> Seq<Seq<u8>>
    decreases n,
{
    if n == 0 {
        Seq::empty()
    } else {
        let before = descendants_among(g, list, id, (n - 1) as nat);
        if copy_graph::is_proper_ancestor(g, list[n - 1], id) {
            before.push(list[n - 1])
        } else {
            before
        }
    }
}

/// The descendants of an ID, ancestors before descendants.
pub open spec fn descendants_of(g: GraphView, id: Seq<u8>) -> Seq<Seq<u8>> {
    descendants_among(g, copy_order::topo_order(g), id, copy_order::topo_order(g).len())
}

/// The descendants of an ID of the graph are those that have it as an ancestor.
pub proof fn law_descendants(g: GraphView, id: Seq<u8>, descendant: Seq<u8>)
    requires
        copy_graph::is_closed(g),
        copy_graph::is_acyclic(g),
        copy_graph::has_id(g, id),
    ensures
        descendants_of(g, id).contains(descendant) == (descendant != id
            && copy_graph::has_id(g, descendant) && copy_graph::is_reachable(g, descendant, id)),
{
    copy_order::law_topo_order(g);
    let all = copy_order::topo_order(g);
    lemma_descendants_among(g, all, id, all.len(), descendant);
    copy_graph::lemma_reachable_step(g, descendant, id);
    if copy_graph::is_proper_ancestor(g, descendant, id) {
        let rank = copy_order::some_rank(g);
        let j = choose|j: int|
            0 <= j < copy_graph::parents_of(g, descendant).len() && copy_graph::is_reachable(
                g,
                #[trigger] copy_graph::parents_of(g, descendant)[j],
                id,
            );
        copy_graph::lemma_rank_decreases(
            g,
            rank,
            copy_graph::parents_of(g, descendant)[j],
            id,
        );
        assert(rank(copy_graph::parents_of(g, descendant)[j]) < rank(descendant));
    }
    if all.contains(descendant) {
        let k = choose|k: int| 0 <= k < all.len() && all[k] == descendant;
        assert(all[k] == descendant);
    }
}

proof fn lemma_descendants_among(
    g: GraphView,
    list: Seq<Seq<u8>>,
    id: Seq<u8>,
    n: nat,
    x: Seq<u8>,
)
    requires
        n <= list.len(),
    ensures
        descendants_among(g, list, id, n).contains(x) == (copy_graph::is_proper_ancestor(g, x, id)
            && exists|k: int| 0 <= k < n && #[trigger] list[k] == x),
    decreases n,
{
    if n > 0 {
        let fewer = (n - 1) as nat;
        lemma_descendants_among(g, list, id, fewer, x);
        let before = descendants_among(g, list, id, fewer);
        let after = descendants_among(g, list, id, n);
        if before.contains(x) {
            let i = choose|i: int| 0 <= i < before.len() && before[i] == x;
            assert(after[i] == x);
        }
        if after.contains(x) {
            let i = choose|i: int| 0 <= i < after.len() && after[i] == x;
            if i < before.len() {
                assert(before[i] == x);
                assert(before.contains(x));
            } else {
                assert(list[n - 1] == x);
            }
        }
        if copy_graph::is_proper_ancestor(g, x, id) && list[n - 1] == x {
            assert(after[after.len() - 1] == x);
        }
        if exists|k: int| 0 <= k < n && #[trigger] list[k] == x {
            let k = choose|k: int| 0 <= k < n && #[trigger] list[k] == x;
            if k < fewer {
                assert(list[k] == x);
            }
        }
    }
}

/// The descendants of each history of a graph.
#[derive(Debug)]
pub struct CopyDescendants {
    ids: IdMap,
    sets: Vec<IdSet>,
}

spec fn descendants_view(entries: Seq<(Seq<u8>, usize)>, sets: Seq<IdSet>) -> Seq<
    (Seq<u8>, Seq<Seq<u8>>),
> {
    Seq::new(
        entries.len(),
        |i: int| (entries[i].0, id_collections::set_items(sets[entries[i].1 as int])),
    )
}

impl View for CopyDescendants {
    type V = Seq<(Seq<u8>, Seq<Seq<u8>>)>;

    closed spec fn view(&self) -> Seq<(Seq<u8>, Seq<Seq<u8>>)> {
        descendants_view(id_collections::map_entries(self.ids), self.sets@)
    }
}

impl CopyDescendants {
    #[verifier::type_invariant]
    spec fn type_inv(self) -> bool {
        let entries = id_collections::map_entries(self.ids);
        &&& copy_graph::distinct_ids(entries)
        &&& forall|i: int| 0 <= i < entries.len() ==> (#[trigger] entries[i]).1 < self.sets@.len()
    }

    /// The descendants of the history with the given ID, ancestors before
    /// descendants.
    pub fn get(&self, id: &CopyId) -> (r: Option<&IdSet>)
        ensures
            match r {
                Some(set) => listing::lookup(self@, id@) == Some(id_collections::set_items(*set)),
                None => listing::lookup(self@, id@) is None,
            },
    {
        proof {
            use_type_invariant(self);
            let entries = id_collections::map_entries(self.ids);
            if listing::lookup(entries, id@) is Some {
                let i = listing::lemma_lookup_some(entries, id@);
                assert(self@[i].0 == id@);
                let k = listing::lemma_lookup_some(self@, id@);
                if i < k {
                    assert(entries[i].0 != entries[k].0);
                } else if k < i {
                    assert(entries[k].0 != entries[i].0);
                }
            } else if listing::lookup(self@, id@) is Some {
                let k = listing::lemma_lookup_some(self@, id@);
                assert(entries[k].0 == id@);
            }
        }
        match id_collections::map_get(&self.ids, id.as_bytes()) {
            Some(place) => Some(&self.sets[place]),
            None => None,
        }
    }
}

/// Whether the sets hold the ancestors of the first IDs of the list.
spec fn has_ancestors(g: GraphView, all: Seq<Seq<u8>>, sets: Seq<IdSet>) -> bool {
    &&& sets.len() <= all.len()
    &&& forall|m: int, a: Seq<u8>|
        0 <= m < sets.len() ==> #[trigger] id_collections::set_items(sets[m]).contains(a)
            == copy_graph::is_proper_ancestor(g, all[m], a)
}

/// The places of the first `n` IDs of the list.
spec fn places_of(all: Seq<Seq<u8>>, n: nat) -> Seq<(Seq<u8>, usize)> {
    Seq::new(n, |m: int| (all[m], m as usize))
}

proof fn lemma_places(all: Seq<Seq<u8>>, n: nat)
    requires
        copy_graph::distinct_items(all),
        n <= all.len() <= usize::MAX,
    ensures
        copy_graph::distinct_ids(places_of(all, n)),
        forall|m: int|
            0 <= m < n ==> listing::lookup(places_of(all, n), #[trigger] all[m]) == Some(
                m as usize,
            ),
        n < all.len() ==> id_collections::with_key(places_of(all, n), all[n as int], n as usize)
            == places_of(all, n + 1),
{
    let p = places_of(all, n);
    assert forall|i: int, j: int| 0 <= i < j < p.len() implies (#[trigger] p[i]).0 != (
    #[trigger] p[j]).0 by {
        assert(all[i] != all[j]);
    }
    assert forall|m: int| 0 <= m < n implies listing::lookup(p, #[trigger] all[m]) == Some(
        m as usize,
    ) by {
        assert(p[m].0 == all[m]);
        copy_walk::lemma_lookup_distinct(p, m);
    }
    if n < all.len() {
        if exists|i: int| 0 <= i < p.len() && (#[trigger] p[i]).0 == all[n as int] {
            let i = choose|i: int| 0 <= i < p.len() && (#[trigger] p[i]).0 == all[n as int];
            assert(all[i] != all[n as int]);
        }
        assert(p.push((all[n as int], n as usize)) =~= places_of(all, n + 1));
    }
}

/// The ancestors of each ID of the list, whose parents come first.
fn collect_ancestors(copies: &CopyGraph, order: &IdSet) -> (r: Vec<IdSet>)
    requires
        copy_order::parents_first(copies@, id_collections::set_items(*order)),
    ensures
        r.len() == id_collections::set_items(*order).len(),
        has_ancestors(copies@, id_collections::set_items(*order), r@),
{
    let ghost g = copies@;
    let ghost all = id_collections::set_items(*order);
    let n = id_collections::set_len(order);
    let mut sets: Vec<IdSet> = Vec::new();
    let mut places = id_collections::new_map();
    assert(places_of(all, 0) =~= Seq::empty());
    for k in 0..n
        invariant
            n == all.len(),
            g == copies@,
            all == id_collections::set_items(*order),
            copy_order::parents_first(g, all),
            sets.len() == k,
            has_ancestors(g, all, sets@),
            id_collections::map_entries(places) == places_of(all, k as nat),
    {
        proof {
            lemma_places(all, k as nat);
        }
        let id = match id_collections::set_get_index(order, k) {
            Some(id) => id,
            None => {
                assert(false);
                return sets;
            },
        };
        assert(copy_graph::has_id(g, all[k as int]));
        let history = match copies.get_bytes(id.as_slice()) {
            Some(history) => history,
            None => {
                assert(false);
                return sets;
            },
        };
        let m = history.parents.len();
        let ghost parents = copy_graph::parents_of(g, all[k as int]);
        let mut set = id_collections::new_set();
        for j in 0..m
            invariant
                n == all.len(),
                k < n,
                all == id_collections::set_items(*order),
                copy_order::parents_first(g, all),
                sets.len() == k,
                has_ancestors(g, all, sets@),
                id_collections::map_entries(places) == places_of(all, k as nat),
                forall|m: int|
                    0 <= m < k ==> listing::lookup(places_of(all, k as nat), #[trigger] all[m])
                        == Some(m as usize),
                m == history.parents.len(),
                parents == history@.parents,
                parents == copy_graph::parents_of(g, all[k as int]),
                copy_graph::distinct_items(id_collections::set_items(set)),
                forall|a: Seq<u8>| #[trigger]
                    id_collections::set_items(set).contains(a) == exists|i: int|
                        0 <= i < j && copy_graph::is_reachable(g, #[trigger] parents[i], a),
        {
            let parent = &history.parents[j];
            let ghost p = parents[j as int];
            proof {
                assert(p == parent@);
                assert(p == copy_graph::parents_of(g, all[k as int])[j as int]);
                assert(all.take(k as int).contains(p));
                let l = choose|l: int| 0 <= l < k && all.take(k as int)[l] == p;
                assert(all[l] == p);
            }
            let place = match id_collections::map_get(&places, parent.as_bytes()) {
                Some(place) => place,
                None => {
                    assert(false);
                    return sets;
                },
            };
            let ghost items = id_collections::set_items(set);
            let ghost above = id_collections::set_items(sets@[place as int]);
            let size = id_collections::set_len(&sets[place]);
            for i in 0..size
                invariant
                    place < sets.len(),
                    above == id_collections::set_items(sets@[place as int]),
                    size == above.len(),
                    copy_graph::distinct_items(id_collections::set_items(set)),
                    forall|a: Seq<u8>| #[trigger]
                        id_collections::set_items(set).contains(a) == (items.contains(a)
                            || above.take(i as int).contains(a)),
            {
                if let Some(item) = id_collections::set_get_index(&sets[place], i) {
                    let ghost now = id_collections::set_items(set);
                    id_collections::set_insert(&mut set, item.dup());
                    proof {
                        broadcast use crate::value::lemma_bytes_deep_view;

                        copy_graph::lemma_with_item(now, above[i as int]);
                        copy_order::lemma_take_contains(above, i as int);
                    }
                }
            }
            let ghost now = id_collections::set_items(set);
            id_collections::set_insert(&mut set, parent.to_bytes());
            proof {
                assert(above.take(size as int) =~= above);
                copy_graph::lemma_with_item(now, p);
                let after = id_collections::set_items(set);
                assert forall|a: Seq<u8>| #[trigger] after.contains(a) == exists|i: int|
                    0 <= i < j + 1 && copy_graph::is_reachable(g, #[trigger] parents[i], a) by {
                    assert(items.contains(a) == exists|i: int|
                        0 <= i < j && copy_graph::is_reachable(g, #[trigger] parents[i], a));
                    copy_graph::lemma_reachable_step(g, p, a);
                    assert(above.contains(a) == copy_graph::is_proper_ancestor(
                        g,
                        all[place as int],
                        a,
                    ));
                    assert(all[place as int] == p);
                    if items.contains(a) {
                        let i = choose|i: int|
                            0 <= i < j && copy_graph::is_reachable(g, #[trigger] parents[i], a);
                        assert(copy_graph::is_reachable(g, parents[i], a));
                    }
                    if copy_graph::is_reachable(g, p, a) {
                        assert(copy_graph::is_reachable(g, parents[j as int], a));
                    }
                }
            }
        }
        let ghost old_sets = sets@;
        id_collections::map_insert(&mut places, id.dup(), k);
        sets.push(set);
        proof {
            broadcast use crate::value::lemma_bytes_deep_view;

            assert forall|i: int, a: Seq<u8>|
                0 <= i < sets@.len() implies #[trigger] id_collections::set_items(
                sets@[i],
            ).contains(a) == copy_graph::is_proper_ancestor(g, all[i], a) by {
                if i < k {
                    assert(sets@[i] == old_sets[i]);
                } else {
                    if copy_graph::is_proper_ancestor(g, all[k as int], a) {
                        let j = choose|j: int|
                            0 <= j < copy_graph::parents_of(g, all[k as int]).len()
                                && copy_graph::is_reachable(
                                g,
                                #[trigger] copy_graph::parents_of(g, all[k as int])[j],
                                a,
                            );
                        assert(copy_graph::is_reachable(g, parents[j], a));
                    }
                    if id_collections::set_items(set).contains(a) {
                        let j = choose|j: int|
                            0 <= j < m && copy_graph::is_reachable(g, #[trigger] parents[j], a);
                        assert(copy_graph::is_reachable(
                            g,
                            copy_graph::parents_of(g, all[k as int])[j],
                            a,
                        ));
                    }
                }
            }
        }
    }
    sets
}

/// Whether the list gives the descendants of every history of the graph.
pub open spec fn lists_descendants(list: Seq<(Seq<u8>, Seq<Seq<u8>>)>, g: GraphView) -> bool {
    forall|id: Seq<u8>| #[trigger]
        listing::lookup(list, id) == (if copy_graph::has_id(g, id) {
            Some(descendants_of(g, id))
        } else {
            None
        })
}

/// The descendants of every history of the graph.
pub fn collect_descendants(copy_graph: &CopyGraph) -> (r: CopyDescendants)
    requires
        copy_graph::is_closed(copy_graph@),
        copy_graph::is_acyclic(copy_graph@),
    ensures
        lists_descendants(r@, copy_graph@),
{
    let ghost g = copy_graph@;
    // Collect ancestors, with parents before children.
    let order = copy_order::topo_order_forward(copy_graph);
    let ghost all = copy_order::topo_order(g);
    proof {
        copy_order::law_topo_order(g);
    }
    let ancestors = collect_ancestors(copy_graph, &order);
    // Reverse ancestor map to descendant map
    let n = ancestors.len();
    let mut ids = id_collections::new_map();
    let mut sets: Vec<IdSet> = Vec::new();
    assert(places_of(all, 0) =~= Seq::empty());
    for i in 0..n
        invariant
            n == all.len(),
            n == ancestors.len(),
            all == id_collections::set_items(order),
            copy_graph::distinct_items(all),
            has_ancestors(g, all, ancestors@),
            id_collections::map_entries(ids) == places_of(all, i as nat),
            sets.len() == i,
            forall|m: int|
                0 <= m < i ==> id_collections::set_items(#[trigger] sets@[m]) == descendants_among(
                    g,
                    all,
                    all[m],
                    all.len(),
                ),
    {
        proof {
            lemma_places(all, i as nat);
        }
        if let Some(id) = id_collections::set_get_index(&order, i) {
            let mut set = id_collections::new_set();
            for k in 0..n
                invariant
                    n == all.len(),
                    n == ancestors.len(),
                    i < n,
                    id@ == all[i as int],
                    all == id_collections::set_items(order),
                    copy_graph::distinct_items(all),
                    has_ancestors(g, all, ancestors@),
                    id_collections::set_items(set) == descendants_among(
                        g,
                        all,
                        all[i as int],
                        k as nat,
                    ),
            {
                if id_collections::set_contains(&ancestors[k], id.as_slice()) {
                    if let Some(descendant) = id_collections::set_get_index(&order, k) {
                        proof {
                            broadcast use crate::value::lemma_bytes_deep_view;

                            let x = all[k as int];
                            lemma_descendants_among(g, all, all[i as int], k as nat, x);
                            if exists|l: int| 0 <= l < k && #[trigger] all[l] == x {
                                let l = choose|l: int| 0 <= l < k && #[trigger] all[l] == x;
                                assert(all[l] != all[k as int]);
                            }
                        }
                        id_collections::set_insert(&mut set, descendant.dup());
                        proof {
                            broadcast use crate::value::lemma_bytes_deep_view;

                        }
                    }
                }
            }
            let ghost old_sets = sets@;
            id_collections::map_insert(&mut ids, id.dup(), i);
            sets.push(set);
            proof {
                broadcast use crate::value::lemma_bytes_deep_view;

                assert forall|m: int| 0 <= m < i + 1 implies id_collections::set_items(
                    #[trigger] sets@[m],
                ) == descendants_among(g, all, all[m], all.len()) by {
                    if m < i {
                        assert(sets@[m] == old_sets[m]);
                    }
                }
            }
        }
    }
    proof {
        lemma_places(all, all.len());
    }
    let r = CopyDescendants { ids, sets };
    proof {
        assert forall|id: Seq<u8>| #[trigger]
            listing::lookup(r@, id) == (if copy_graph::has_id(g, id) {
                Some(descendants_of(g, id))
            } else {
                None
            }) by {
            assert(all.contains(id) == copy_graph::has_id(g, id));
            if all.contains(id) {
                let m = choose|m: int| 0 <= m < all.len() && all[m] == id;
                assert(r@[m].0 == id);
                let k = listing::lemma_lookup_some(r@, id);
                if m < k {
                    assert(all[m] != all[k]);
                } else if k < m {
                    assert(all[k] != all[m]);
                }
            } else if listing::lookup(r@, id) is Some {
                let k = listing::lemma_lookup_some(r@, id);
                assert(all[k] == id);
            }
        }
    }
    r
}

} // verus!
