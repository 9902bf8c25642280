//! Walking the graph of copy histories.

use crate::backend::CopyId;
use crate::copy_graph;
use crate::copy_graph::CopyGraph;
use crate::copy_graph::GraphView;
use crate::id_collections;
use crate::listing;
use crate::value::Value;
use vstd::prelude::*;

verus! {

/// The IDs that are looked for after the first `n` histories have been seen: the
/// initial one, and the parents of those that were found.
pub open spec fn marked(g: GraphView, initial: Seq<u8>, n: nat) -> Set<Seq<u8>>
    decreases n,
{
    if n == 0 {
        set![initial]
    } else {
        let before = marked(g, initial, (n - 1) as nat);
        if before.contains(g[n - 1].0) {
            before.union(g[n - 1].1.parents.to_set())
        } else {
            before
        }
    }
}

/// The IDs that were found among the first `n` histories, in order.
pub open spec fn listed_ancestors(g: GraphView, initial: Seq<u8>, n: nat) -> Seq<Seq<u8>>
    decreases n,
{
    if n == 0 {
        Seq::empty()
    } else {
        let before = listed_ancestors(g, initial, (n - 1) as nat);
        if marked(g, initial, (n - 1) as nat).contains(g[n - 1].0) {
            before.push(g[n - 1].0)
        } else {
            before
        }
    }
}

/// The ancestors of a starting CopyId, children before parents. The `CopyGraph`
/// argument should be sorted in topological order.
pub fn iterate_ancestors(copies: &CopyGraph, initial_id: &CopyId) -> (r: Vec<CopyId>)
    ensures
        r.deep_view() == listed_ancestors(copies@, initial_id@, copies@.len()),
{
    let ghost g = copies@;
    let ghost initial = initial_id@;
    let n = copies.len();
    let mut valid = id_collections::new_set();
    id_collections::set_insert(&mut valid, initial_id.to_bytes());
    let mut out: Vec<CopyId> = Vec::new();
    proof {
        copy_graph::lemma_with_item(Seq::empty(), initial);
        assert(out.deep_view() =~= Seq::empty());
    }
    for i in 0..n
        invariant
            n == g.len(),
            g == copies@,
            out.deep_view() == listed_ancestors(g, initial, i as nat),
            copy_graph::distinct_items(id_collections::set_items(valid)),
            forall|x: Seq<u8>| #[trigger]
                id_collections::set_items(valid).contains(x) == marked(
                    g,
                    initial,
                    i as nat,
                ).contains(x),
    {
        if let Some((id, history)) = copies.get_index(i) {
            let ghost items = id_collections::set_items(valid);
            assert(items.contains(id@) == marked(g, initial, i as nat).contains(id@));
            if id_collections::set_contains(&valid, id.as_slice()) {
                let m = history.parents.len();
                let ghost parents = history@.parents;
                for j in 0..m
                    invariant
                        m == history.parents.len(),
                        parents == history@.parents,
                        copy_graph::distinct_items(id_collections::set_items(valid)),
                        forall|x: Seq<u8>| #[trigger]
                            id_collections::set_items(valid).contains(x) == (items.contains(x)
                                || parents.take(j as int).contains(x)),
                {
                    let ghost now = id_collections::set_items(valid);
                    id_collections::set_insert(&mut valid, history.parents[j].to_bytes());
                    proof {
                        let parent = parents[j as int];
                        assert(parent == history.parents@[j as int]@);
                        copy_graph::lemma_with_item(now, parent);
                        let more = parents.take(j + 1);
                        let fewer = parents.take(j as int);
                        assert forall|x: Seq<u8>| #[trigger]
                            id_collections::set_items(valid).contains(x) == (items.contains(x)
                                || more.contains(x)) by {
                            assert(now.contains(x) == (items.contains(x) || fewer.contains(x)));
                            if fewer.contains(x) {
                                let k = choose|k: int| 0 <= k < fewer.len() && fewer[k] == x;
                                assert(more[k] == x);
                            }
                            if more.contains(x) {
                                let k = choose|k: int| 0 <= k < more.len() && more[k] == x;
                                if k < j {
                                    assert(fewer[k] == x);
                                }
                            }
                            assert(more[j as int] == parent);
                        }
                    }
                }
                let ghost before = out.deep_view();
                out.push(CopyId::new(id.dup()));
                proof {
                    broadcast use crate::value::lemma_bytes_deep_view;

                    assert(parents.take(m as int) =~= parents);
                    assert(out.deep_view() =~= before.push(id@));
                    let next = marked(g, initial, (i + 1) as nat);
                    assert forall|x: Seq<u8>| #[trigger]
                        id_collections::set_items(valid).contains(x) == next.contains(x) by {
                        assert(items.contains(x) == marked(g, initial, i as nat).contains(x));
                        assert(parents.to_set().contains(x) == parents.contains(x));
                    }
                }
            }
        }
    }
    out
}

/// Whether every parent comes after its children.
pub open spec fn children_first(g: GraphView) -> bool {
    forall|i: int, j: int|
        0 <= i < g.len() && 0 <= j < g[i].1.parents.len() ==> comes_after(
            g,
            i,
            #[trigger] g[i].1.parents[j],
        )
}

/// Whether a history with the given ID comes after the place `i`.
pub open spec fn comes_after(g: GraphView, i: int, id: Seq<u8>) -> bool {
    exists|k: int| i < k < g.len() && (#[trigger] g[k]).0 == id
}

/// What an ID reaches is the ID or a parent of something else that it reaches.
proof fn lemma_last_step(g: GraphView, id: Seq<u8>, ancestor: Seq<u8>, steps: nat)
    requires
        copy_graph::reaches_in(g, id, ancestor, steps),
        steps > 0,
    ensures
        exists|child: Seq<u8>|
            copy_graph::is_reachable(g, id, child) && (#[trigger] copy_graph::parents_of(
                g,
                child,
            )).contains(ancestor),
    decreases steps,
{
    let j = choose|j: int|
        0 <= j < copy_graph::parents_of(g, id).len() && copy_graph::reaches_in(
            g,
            #[trigger] copy_graph::parents_of(g, id)[j],
            ancestor,
            (steps - 1) as nat,
        );
    let parent = copy_graph::parents_of(g, id)[j];
    if steps == 1 {
        assert(copy_graph::reaches_in(g, id, id, 0));
        assert(copy_graph::is_reachable(g, id, id));
        assert(copy_graph::parents_of(g, id).contains(ancestor));
    } else {
        lemma_last_step(g, parent, ancestor, (steps - 1) as nat);
        let child = choose|child: Seq<u8>|
            copy_graph::is_reachable(g, parent, child) && (#[trigger] copy_graph::parents_of(
                g,
                child,
            )).contains(ancestor);
        copy_graph::lemma_reachable_step(g, id, child);
        assert(copy_graph::is_proper_ancestor(g, id, child));
        assert(copy_graph::is_reachable(g, id, child));
    }
}

proof fn lemma_marked_grows(g: GraphView, initial: Seq<u8>, m: nat, n: nat, x: Seq<u8>)
    requires
        m <= n,
        marked(g, initial, m).contains(x),
    ensures
        marked(g, initial, n).contains(x),
    decreases n,
{
    if m < n {
        lemma_marked_grows(g, initial, m, (n - 1) as nat, x);
    }
}

proof fn lemma_marked_reachable(g: GraphView, initial: Seq<u8>, n: nat, x: Seq<u8>)
    requires
        copy_graph::distinct_ids(g),
        n <= g.len(),
        marked(g, initial, n).contains(x),
    ensures
        copy_graph::is_reachable(g, initial, x),
    decreases n,
{
    if n == 0 {
        assert(copy_graph::reaches_in(g, initial, x, 0));
    } else if marked(g, initial, (n - 1) as nat).contains(x) {
        lemma_marked_reachable(g, initial, (n - 1) as nat, x);
    } else {
        let child = g[n - 1].0;
        lemma_marked_reachable(g, initial, (n - 1) as nat, child);
        let parents = g[n - 1].1.parents;
        assert(parents.contains(x));
        let j = choose|j: int| 0 <= j < parents.len() && parents[j] == x;
        lemma_lookup_distinct(g, n - 1);
        copy_graph::lemma_parent_reachable(g, initial, child, j);
    }
}

/// Looking up an ID gives its entry, as there is only one.
pub proof fn lemma_lookup_distinct<V>(g: Seq<(Seq<u8>, V)>, i: int)
    requires
        copy_graph::distinct_ids(g),
        0 <= i < g.len(),
    ensures
        listing::lookup(g, g[i].0) == Some(g[i].1),
{
    assert(g[i].0 == g[i].0);
    let k = listing::lemma_lookup_some(g, g[i].0);
    if i < k {
        assert(g[i].0 != g[k].0);
    } else if k < i {
        assert(g[k].0 != g[i].0);
    }
}

/// In a sorted graph, an ID that is reached has been marked before its place.
proof fn lemma_reachable_marked(g: GraphView, initial: Seq<u8>, k: int)
    requires
        copy_graph::distinct_ids(g),
        children_first(g),
        0 <= k < g.len(),
        copy_graph::is_reachable(g, initial, g[k].0),
    ensures
        marked(g, initial, k as nat).contains(g[k].0),
    decreases k,
{
    let id = g[k].0;
    let steps = choose|steps: nat| copy_graph::reaches_in(g, initial, id, steps);
    if steps == 0 {
        lemma_marked_grows(g, initial, 0, k as nat, id);
    } else {
        lemma_last_step(g, initial, id, steps);
        let child = choose|child: Seq<u8>|
            copy_graph::is_reachable(g, initial, child) && (#[trigger] copy_graph::parents_of(
                g,
                child,
            )).contains(id);
        assert(listing::lookup(g, child) is Some);
        let m = listing::lemma_lookup_some(g, child);
        let parents = g[m].1.parents;
        let j = choose|j: int| 0 <= j < parents.len() && parents[j] == id;
        assert(comes_after(g, m, g[m].1.parents[j]));
        let l = choose|l: int| m < l < g.len() && (#[trigger] g[l]).0 == id;
        if l < k {
            assert(g[l].0 != g[k].0);
        } else if k < l {
            assert(g[k].0 != g[l].0);
        }
        lemma_reachable_marked(g, initial, m);
        assert(parents.to_set().contains(id));
        assert(marked(g, initial, (m + 1) as nat).contains(id));
        lemma_marked_grows(g, initial, (m + 1) as nat, k as nat, id);
    }
}

/// In a sorted graph, an ID has been marked before its place if and only if it is
/// reached.
pub proof fn lemma_marked(g: GraphView, initial: Seq<u8>, k: int)
    requires
        copy_graph::distinct_ids(g),
        children_first(g),
        0 <= k < g.len(),
    ensures
        marked(g, initial, k as nat).contains(g[k].0) == copy_graph::is_reachable(
            g,
            initial,
            g[k].0,
        ),
{
    if marked(g, initial, k as nat).contains(g[k].0) {
        lemma_marked_reachable(g, initial, k as nat, g[k].0);
    } else if copy_graph::is_reachable(g, initial, g[k].0) {
        lemma_reachable_marked(g, initial, k);
    }
}

/// In a graph with children before parents, walking the ancestors of an ID gives
/// each of them once, in the order of the graph.
pub proof fn law_iterate_ancestors(g: GraphView, initial: Seq<u8>, n: nat)
    requires
        copy_graph::distinct_ids(g),
        children_first(g),
        n <= g.len(),
    ensures
        listed_ancestors(g, initial, n) == Seq::new(n, |i: int| g[i].0).filter(
            |id: Seq<u8>| copy_graph::is_reachable(g, initial, id),
        ),
    decreases n,
{
    let all = Seq::new(n, |i: int| g[i].0);
    let keep = |id: Seq<u8>| copy_graph::is_reachable(g, initial, id);
    if n == 0 {
        assert(all =~= Seq::empty());
        assert(all.filter(keep) =~= Seq::empty()) by {
            reveal(Seq::filter);
        }
    } else {
        let fewer = (n - 1) as nat;
        law_iterate_ancestors(g, initial, fewer);
        let id = g[n - 1].0;
        assert(all.drop_last() =~= Seq::new(fewer, |i: int| g[i].0));
        assert(all.last() == id);
        assert(all.filter(keep) == if keep(id) {
            all.drop_last().filter(keep).push(id)
        } else {
            all.drop_last().filter(keep)
        }) by {
            reveal(Seq::filter);
        }
        lemma_marked(g, initial, n - 1);
    }
}

} // verus!
