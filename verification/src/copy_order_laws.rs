//! In which order the histories of related copies are walked.

use crate::copy_graph;
use crate::copy_graph::GraphView;
use crate::copy_order;
use crate::copy_source_laws;
use crate::listing;
use crate::order;
use vstd::prelude::*;

verus! {

/// Whether one ID comes before another in a list.
pub open spec fn is_listed_before(list: Seq<Seq<u8>>, first: Seq<u8>, second: Seq<u8>) -> bool {
    exists|i: int, j: int|
        0 <= i < j < list.len() && #[trigger] list[i] == first && #[trigger] list[j] == second
}

/// Whether the second ID is listed only after the first one.
spec fn in_turn(list: Seq<Seq<u8>>, first: Seq<u8>, second: Seq<u8>) -> bool {
    !list.contains(second) || is_listed_before(list, first, second)
}

/// Whether a list begins with another.
spec fn begins_with(list: Seq<Seq<u8>>, start: Seq<Seq<u8>>) -> bool {
    start.len() <= list.len() && forall|i: int| 0 <= i < start.len() ==> #[trigger] list[i]
        == start[i]
}

proof fn lemma_visit_begins(
    g: GraphView,
    rank: spec_fn(Seq<u8>) -> nat,
    id: Seq<u8>,
    done: Seq<Seq<u8>>,
)
    ensures
        begins_with(copy_order::visit(g, rank, id, done), done),
        copy_order::visit(g, rank, id, done).contains(id),
    decreases rank(id) + 1, 0nat,
{
    let r = copy_order::visit(g, rank, id, done);
    if !done.contains(id) {
        lemma_visit_list_begins(g, rank, copy_graph::parents_of(g, id), rank(id), done);
        assert(r[r.len() - 1] == id);
    }
}

proof fn lemma_visit_list_begins(
    g: GraphView,
    rank: spec_fn(Seq<u8>) -> nat,
    list: Seq<Seq<u8>>,
    limit: nat,
    done: Seq<Seq<u8>>,
)
    ensures
        begins_with(copy_order::visit_list(g, rank, list, limit, done), done),
    decreases limit, list.len(),
{
    if list.len() > 0 {
        let next = if rank(list.last()) < limit {
            copy_order::visit(g, rank, list.last(), done)
        } else {
            done
        };
        if rank(list.last()) < limit {
            lemma_visit_begins(g, rank, list.last(), done);
        }
        lemma_visit_list_begins(g, rank, list.drop_last(), limit, next);
    }
}

/// Whether no ID with a rank below the bound has the given one as a parent.
spec fn has_no_child_below(
    g: GraphView,
    rank: spec_fn(Seq<u8>) -> nat,
    id: Seq<u8>,
    bound: nat,
) -> bool {
    forall|x: Seq<u8>|
        rank(x) < bound ==> !(#[trigger] copy_graph::parents_of(g, x)).contains(id)
}

proof fn lemma_not_visited(
    g: GraphView,
    rank: spec_fn(Seq<u8>) -> nat,
    id: Seq<u8>,
    done: Seq<Seq<u8>>,
    other: Seq<u8>,
    bound: nat,
)
    requires
        has_no_child_below(g, rank, other, bound),
        rank(id) < bound,
        id != other,
        !done.contains(other),
    ensures
        !copy_order::visit(g, rank, id, done).contains(other),
    decreases rank(id) + 1, 0nat,
{
    if !done.contains(id) {
        let parents = copy_graph::parents_of(g, id);
        assert(!parents.contains(other));
        lemma_not_visited_list(g, rank, parents, rank(id), done, other, bound);
        let before = copy_order::visit_list(g, rank, parents, rank(id), done);
        let r = before.push(id);
        if r.contains(other) {
            let i = choose|i: int| 0 <= i < r.len() && r[i] == other;
            assert(before[i] == other);
        }
    }
}

proof fn lemma_not_visited_list(
    g: GraphView,
    rank: spec_fn(Seq<u8>) -> nat,
    list: Seq<Seq<u8>>,
    limit: nat,
    done: Seq<Seq<u8>>,
    other: Seq<u8>,
    bound: nat,
)
    requires
        has_no_child_below(g, rank, other, bound),
        limit <= bound,
        !list.contains(other),
        !done.contains(other),
    ensures
        !copy_order::visit_list(g, rank, list, limit, done).contains(other),
    decreases limit, list.len(),
{
    if list.len() > 0 {
        assert(list[list.len() - 1] == list.last());
        let fewer = list.drop_last();
        assert(!fewer.contains(other)) by {
            if fewer.contains(other) {
                let i = choose|i: int| 0 <= i < fewer.len() && fewer[i] == other;
                assert(list[i] == other);
            }
        }
        if rank(list.last()) < limit {
            lemma_not_visited(g, rank, list.last(), done, other, bound);
            let next = copy_order::visit(g, rank, list.last(), done);
            lemma_not_visited_list(g, rank, fewer, limit, next, other, bound);
        } else {
            lemma_not_visited_list(g, rank, fewer, limit, done, other, bound);
        }
    }
}

proof fn lemma_begins_in_turn(
    list: Seq<Seq<u8>>,
    start: Seq<Seq<u8>>,
    first: Seq<u8>,
    second: Seq<u8>,
)
    requires
        begins_with(list, start),
        (start.contains(first) && !start.contains(second)) || is_listed_before(
            start,
            first,
            second,
        ),
    ensures
        in_turn(list, first, second),
        list.contains(first),
{
    if is_listed_before(start, first, second) {
        let (i, j) = choose|i: int, j: int|
            0 <= i < j < start.len() && #[trigger] start[i] == first && #[trigger] start[j]
                == second;
        assert(list[i] == first && list[j] == second);
    } else {
        let i = choose|i: int| 0 <= i < start.len() && start[i] == first;
        assert(list[i] == first);
        if list.contains(second) {
            let j = choose|j: int| 0 <= j < list.len() && list[j] == second;
            if j < start.len() {
                assert(start[j] == second);
            }
            assert(list[i] == first && list[j] == second);
        }
    }
}

/// The two parents of an ID, of which the first to be visited comes later in its list.
proof fn lemma_parents_in_turn(
    g: GraphView,
    rank: spec_fn(Seq<u8>) -> nat,
    child: Seq<u8>,
    n: int,
    first: Seq<u8>,
    second: Seq<u8>,
    done: Seq<Seq<u8>>,
)
    requires
        copy_graph::is_rank(g, rank),
        has_no_child_below(g, rank, second, rank(child)),
        first != second,
        !done.contains(second),
        0 <= n <= copy_graph::parents_of(g, child).len(),
        copy_graph::parents_of(g, child).take(n).contains(first) || done.contains(first),
        done.contains(first) || forall|m: int|
            0 <= m < copy_graph::parents_of(g, child).len() && #[trigger] copy_graph::parents_of(
                g,
                child,
            )[m] == second ==> exists|k: int|
                m < k < n && #[trigger] copy_graph::parents_of(g, child)[k] == first,
    ensures
        in_turn(
            copy_order::visit_list(
                g,
                rank,
                copy_graph::parents_of(g, child).take(n),
                rank(child),
                done,
            ),
            first,
            second,
        ),
    decreases n,
{
    let parents = copy_graph::parents_of(g, child);
    let list = parents.take(n);
    let r = copy_order::visit_list(g, rank, list, rank(child), done);
    if done.contains(first) {
        lemma_visit_list_begins(g, rank, list, rank(child), done);
        lemma_begins_in_turn(r, done, first, second);
    } else {
        assert(n > 0);
        let last = parents[n - 1];
        assert(list.last() == last);
        assert(list.drop_last() =~= parents.take(n - 1));
        assert(rank(copy_graph::parents_of(g, child)[n - 1]) < rank(child));
        let next = copy_order::visit(g, rank, last, done);
        if last == second {
            let k = choose|k: int| n - 1 < k < n && #[trigger] parents[k] == first;
            assert(n - 1 < k < n);
        }
        lemma_not_visited(g, rank, last, done, second, rank(child));
        lemma_visit_begins(g, rank, last, done);
        if next.contains(first) {
            let rest = copy_order::visit_list(g, rank, list.drop_last(), rank(child), next);
            lemma_visit_list_begins(g, rank, list.drop_last(), rank(child), next);
            lemma_begins_in_turn(rest, next, first, second);
        } else {
            assert(last != first);
            assert(parents.take(n - 1).contains(first)) by {
                let i = choose|i: int| 0 <= i < list.len() && list[i] == first;
                assert(i < n - 1);
                assert(parents.take(n - 1)[i] == first);
            }
            assert forall|m: int|
                0 <= m < parents.len() && #[trigger] parents[m] == second implies exists|k: int|
                m < k < n - 1 && #[trigger] parents[k] == first by {
                let k = choose|k: int| m < k < n && #[trigger] parents[k] == first;
                assert(parents[k] == first);
                assert(k != n - 1);
                assert(m < k < n - 1 && parents[k] == first);
            }
            lemma_parents_in_turn(g, rank, child, n - 1, first, second, next);
        }
    }
}

/// Whether a parent is the parent of one ID only, and another parent of that ID comes after
/// all places where it is listed.
spec fn is_later_parent(
    g: GraphView,
    child: Seq<u8>,
    first: Seq<u8>,
    second: Seq<u8>,
) -> bool {
    &&& first != second
    &&& forall|x: Seq<u8>|
        (#[trigger] copy_graph::parents_of(g, x)).contains(second) ==> x == child
    &&& forall|m: int|
        0 <= m < copy_graph::parents_of(g, child).len() && #[trigger] copy_graph::parents_of(
            g,
            child,
        )[m] == second ==> exists|k: int|
            m < k < copy_graph::parents_of(g, child).len() && #[trigger] copy_graph::parents_of(
                g,
                child,
            )[k] == first
    &&& copy_graph::parents_of(g, child).contains(first)
}

proof fn lemma_visit_in_turn(
    g: GraphView,
    rank: spec_fn(Seq<u8>) -> nat,
    id: Seq<u8>,
    done: Seq<Seq<u8>>,
    child: Seq<u8>,
    first: Seq<u8>,
    second: Seq<u8>,
)
    requires
        copy_graph::is_rank(g, rank),
        is_later_parent(g, child, first, second),
        in_turn(done, first, second),
        id != second,
    ensures
        in_turn(copy_order::visit(g, rank, id, done), first, second),
    decreases rank(id) + 1, 0nat,
{
    let r = copy_order::visit(g, rank, id, done);
    if done.contains(second) {
        lemma_visit_begins(g, rank, id, done);
        lemma_begins_in_turn(r, done, first, second);
    } else if !done.contains(id) {
        let parents = copy_graph::parents_of(g, id);
        let before = copy_order::visit_list(g, rank, parents, rank(id), done);
        if id == child {
            assert(has_no_child_below(g, rank, second, rank(child)));
            assert(parents.take(parents.len() as int) =~= parents);
            assert forall|m: int|
                0 <= m < parents.len() && #[trigger] parents[m] == second implies exists|k: int|
                m < k < parents.len() && #[trigger] parents[k] == first by {
                let k = choose|k: int| m < k < parents.len() && #[trigger] parents[k] == first;
                assert(parents[k] == first);
            }
            lemma_parents_in_turn(
                g,
                rank,
                child,
                parents.len() as int,
                first,
                second,
                done,
            );
        } else {
            assert(!parents.contains(second));
            lemma_visit_list_in_turn(
                g,
                rank,
                parents,
                rank(id),
                done,
                child,
                first,
                second,
            );
        }
        lemma_push_in_turn(before, id, first, second);
    }
}

proof fn lemma_push_in_turn(
    list: Seq<Seq<u8>>,
    id: Seq<u8>,
    first: Seq<u8>,
    second: Seq<u8>,
)
    requires
        in_turn(list, first, second),
        id != second,
    ensures
        in_turn(list.push(id), first, second),
{
    let r = list.push(id);
    if r.contains(second) {
        let j = choose|j: int| 0 <= j < r.len() && r[j] == second;
        assert(list[j] == second);
        let (a, b) = choose|a: int, b: int|
            0 <= a < b < list.len() && #[trigger] list[a] == first && #[trigger] list[b]
                == second;
        assert(r[a] == first && r[b] == second);
    }
}

proof fn lemma_visit_list_in_turn(
    g: GraphView,
    rank: spec_fn(Seq<u8>) -> nat,
    list: Seq<Seq<u8>>,
    limit: nat,
    done: Seq<Seq<u8>>,
    child: Seq<u8>,
    first: Seq<u8>,
    second: Seq<u8>,
)
    requires
        copy_graph::is_rank(g, rank),
        is_later_parent(g, child, first, second),
        in_turn(done, first, second),
        !list.contains(second),
    ensures
        in_turn(copy_order::visit_list(g, rank, list, limit, done), first, second),
    decreases limit, list.len(),
{
    if list.len() > 0 {
        assert(list[list.len() - 1] == list.last());
        let fewer = list.drop_last();
        assert(!fewer.contains(second)) by {
            if fewer.contains(second) {
                let i = choose|i: int| 0 <= i < fewer.len() && fewer[i] == second;
                assert(list[i] == second);
            }
        }
        if rank(list.last()) < limit {
            lemma_visit_in_turn(g, rank, list.last(), done, child, first, second);
            let next = copy_order::visit(g, rank, list.last(), done);
            lemma_visit_list_in_turn(g, rank, fewer, limit, next, child, first, second);
        } else {
            lemma_visit_list_in_turn(g, rank, fewer, limit, done, child, first, second);
        }
    }
}

proof fn lemma_roots_in_turn(
    g: GraphView,
    rank: spec_fn(Seq<u8>) -> nat,
    list: Seq<Seq<u8>>,
    done: Seq<Seq<u8>>,
    child: Seq<u8>,
    first: Seq<u8>,
    second: Seq<u8>,
)
    requires
        copy_graph::is_rank(g, rank),
        is_later_parent(g, child, first, second),
        in_turn(done, first, second),
        !list.contains(second),
    ensures
        in_turn(copy_order::visit_roots(g, rank, list, done), first, second),
    decreases list.len(),
{
    if list.len() > 0 {
        assert(list[list.len() - 1] == list.last());
        let fewer = list.drop_last();
        assert(!fewer.contains(second)) by {
            if fewer.contains(second) {
                let i = choose|i: int| 0 <= i < fewer.len() && fewer[i] == second;
                assert(list[i] == second);
            }
        }
        lemma_visit_in_turn(g, rank, list.last(), done, child, first, second);
        let next = copy_order::visit(g, rank, list.last(), done);
        lemma_roots_in_turn(g, rank, fewer, next, child, first, second);
    }
}

/// Of two parents of a history, the one that it lists later comes first in the topological
/// order, if the other one is no parent of any other history.
pub proof fn law_order_of_parents(g: GraphView, place: int, j: int, k: int)
    requires
        copy_graph::distinct_ids(g),
        copy_graph::is_closed(g),
        copy_graph::is_acyclic(g),
        0 <= place < g.len(),
        0 <= j < k < g[place].1.parents.len(),
        forall|m: int|
            k <= m < g[place].1.parents.len() ==> #[trigger] g[place].1.parents[m]
                != g[place].1.parents[j],
        forall|id: Seq<u8>|
            #[trigger] copy_source_laws::is_parent(g, id, g[place].1.parents[j]) ==> id
                == g[place].0,
    ensures
        is_listed_before(
            copy_order::topo_order(g),
            g[place].1.parents[k],
            g[place].1.parents[j],
        ),
{
    let child = g[place].0;
    let parents = g[place].1.parents;
    let (second, first) = (parents[j], parents[k]);
    let rank = copy_order::some_rank(g);
    let heads = copy_order::sorted_heads(g);
    copy_source_laws::law_history_of_id(g, place);
    assert(copy_graph::parents_of(g, child) == parents);
    assert(first != second);
    assert forall|x: Seq<u8>|
        (#[trigger] copy_graph::parents_of(g, x)).contains(second) implies x == child by {
        copy_source_laws::lemma_parents(g, x, second);
        assert(copy_source_laws::is_parent(g, x, second));
    }
    assert forall|m: int|
        0 <= m < copy_graph::parents_of(g, child).len() && #[trigger] copy_graph::parents_of(
            g,
            child,
        )[m] == second implies exists|l: int|
        m < l < copy_graph::parents_of(g, child).len() && #[trigger] copy_graph::parents_of(
            g,
            child,
        )[l] == first by {
        if m >= k {
            assert(parents[m] != parents[j]);
        }
        assert(copy_graph::parents_of(g, child)[k] == first);
    }
    assert(parents.contains(first));
    assert(is_later_parent(g, child, first, second));
    assert(copy_graph::is_rank(g, rank));
    copy_order::lemma_sorted_heads(g);
    assert(!heads.contains(second)) by {
        if heads.contains(second) {
            assert(copy_order::is_head(g, second));
            assert(copy_graph::parents_of(g, child)[j] != second);
        }
    }
    lemma_roots_in_turn(g, rank, heads, Seq::empty(), child, first, second);
    copy_order::law_topo_order(g);
    assert(copy_graph::has_id(g, copy_graph::parents_of(g, child)[j]));
    assert(copy_order::topo_order(g).contains(second));
}

/// Whether an ID is known and no parent.
pub open spec fn is_leaf(g: GraphView, id: Seq<u8>) -> bool {
    copy_source_laws::is_known(g, id) && forall|child: Seq<u8>|
        !#[trigger] copy_source_laws::is_parent(g, child, id)
}

/// Of two histories that are no parents, the one with the greater ID comes first in the
/// topological order.
pub proof fn law_order_of_leaves(g: GraphView, low: Seq<u8>, high: Seq<u8>)
    requires
        copy_graph::distinct_ids(g),
        copy_graph::is_closed(g),
        copy_graph::is_acyclic(g),
        is_leaf(g, low),
        is_leaf(g, high),
        order::bytes_less(low, high),
    ensures
        is_listed_before(copy_order::topo_order(g), high, low),
{
    let rank = copy_order::some_rank(g);
    let heads = copy_order::sorted_heads(g);
    assert(copy_graph::is_rank(g, rank));
    lemma_leaf(g, low);
    lemma_leaf(g, high);
    copy_order::lemma_sorted_heads(g);
    let marks = listing::table(copy_order::id_order(), copy_order::head_marks(g));
    assert(heads.contains(low) && heads.contains(high));
    let i = choose|i: int| 0 <= i < heads.len() && heads[i] == low;
    let j = choose|j: int| 0 <= j < heads.len() && heads[j] == high;
    order::lemma_bytes_order(low, high, low);
    assert(marks[i].0 == low && marks[j].0 == high);
    if j <= i {
        if j < i {
            assert(copy_order::id_order()(marks[j].0, marks[i].0));
        }
        assert(false);
    }
    assert forall|m: int, n: int| 0 <= m < n < heads.len() implies (#[trigger] heads[m]) != (
    #[trigger] heads[n]) by {
        assert(copy_order::id_order()(marks[m].0, marks[n].0));
        order::lemma_bytes_order(heads[m], heads[n], heads[m]);
    }
    assert(heads.take(heads.len() as int) =~= heads);
    lemma_leaves_in_turn(g, rank, heads, heads.len() as int, i, j, Seq::empty());
    copy_order::law_topo_order(g);
    copy_source_laws::law_known_ids(g, low);
    assert(copy_order::topo_order(g).contains(low));
}

proof fn lemma_leaf(g: GraphView, id: Seq<u8>)
    requires
        copy_graph::distinct_ids(g),
        is_leaf(g, id),
    ensures
        copy_order::is_head(g, id),
        forall|x: Seq<u8>| !(#[trigger] copy_graph::parents_of(g, x)).contains(id),
{
    copy_source_laws::law_known_ids(g, id);
    assert forall|x: Seq<u8>| !(#[trigger] copy_graph::parents_of(g, x)).contains(id) by {
        copy_source_laws::lemma_parents(g, x, id);
        assert(!copy_source_laws::is_parent(g, x, id));
    }
    assert forall|child: Seq<u8>, j: int|
        0 <= j < copy_graph::parents_of(g, child).len() implies #[trigger] copy_graph::parents_of(
        g,
        child,
    )[j] != id by {
        let parents = copy_graph::parents_of(g, child);
        assert(parents.contains(parents[j]));
    }
}

proof fn lemma_leaves_in_turn(
    g: GraphView,
    rank: spec_fn(Seq<u8>) -> nat,
    heads: Seq<Seq<u8>>,
    n: int,
    i: int,
    j: int,
    done: Seq<Seq<u8>>,
)
    requires
        0 <= i < j < n <= heads.len(),
        forall|a: int, b: int|
            0 <= a < b < heads.len() ==> (#[trigger] heads[a]) != (#[trigger] heads[b]),
        forall|x: Seq<u8>| !(#[trigger] copy_graph::parents_of(g, x)).contains(heads[i]),
        !done.contains(heads[i]),
    ensures
        in_turn(copy_order::visit_roots(g, rank, heads.take(n), done), heads[j], heads[i]),
    decreases n,
{
    let list = heads.take(n);
    let last = heads[n - 1];
    assert(list.last() == last);
    assert(list.drop_last() =~= heads.take(n - 1));
    let next = copy_order::visit(g, rank, last, done);
    assert(heads[i] != heads[n - 1]);
    assert(has_no_child_below(g, rank, heads[i], rank(last) + 1));
    lemma_not_visited(g, rank, last, done, heads[i], rank(last) + 1);
    lemma_visit_begins(g, rank, last, done);
    if j == n - 1 {
        let r = copy_order::visit_roots(g, rank, heads.take(n - 1), next);
        lemma_roots_begin(g, rank, heads.take(n - 1), next);
        lemma_begins_in_turn(r, next, heads[j], heads[i]);
    } else {
        lemma_leaves_in_turn(g, rank, heads, n - 1, i, j, next);
    }
}

proof fn lemma_roots_begin(
    g: GraphView,
    rank: spec_fn(Seq<u8>) -> nat,
    list: Seq<Seq<u8>>,
    done: Seq<Seq<u8>>,
)
    ensures
        begins_with(copy_order::visit_roots(g, rank, list, done), done),
    decreases list.len(),
{
    if list.len() > 0 {
        lemma_visit_begins(g, rank, list.last(), done);
        let next = copy_order::visit(g, rank, list.last(), done);
        lemma_roots_begin(g, rank, list.drop_last(), next);
    }
}

} // verus!
