//! The order of copy histories by which parents come before children.

use crate::copy_graph;
use crate::copy_graph::CopyGraph;
use crate::copy_graph::GraphView;
use crate::copy_walk;
use crate::id_collections;
use crate::id_collections::IdSet;
use crate::listing;
use crate::order;
use crate::value::Value;
use vstd::prelude::*;

verus! {

/// The order of IDs.
pub open spec fn id_order() -> spec_fn(Seq<u8>, Seq<u8>) -> bool {
    |x: Seq<u8>, y: Seq<u8>| order::bytes_less(x, y)
}

/// Whether the graph has the ID and it is no parent.
pub open spec fn is_head(g: GraphView, id: Seq<u8>) -> bool {
    &&& copy_graph::has_id(g, id)
    &&& forall|child: Seq<u8>, j: int|
        0 <= j < copy_graph::parents_of(g, child).len() ==> #[trigger] copy_graph::parents_of(
            g,
            child,
        )[j] != id
}

/// The IDs that are no parents, with nothing to say of them.
pub open spec fn head_marks(g: GraphView) -> spec_fn(Seq<u8>) -> Option<()> {
    |id: Seq<u8>|
        if is_head(g, id) {
            Some(())
        } else {
            None
        }
}

/// The IDs that are no parents, sorted.
pub open spec fn sorted_heads(g: GraphView) -> Seq<Seq<u8>> {
    let marks = listing::table(id_order(), head_marks(g));
    Seq::new(marks.len(), |i: int| marks[i].0)
}

/// The IDs that have been visited once an ID has been: its ancestors come before
/// it, those of its last parent first.
pub open spec fn visit(
    g: GraphView,
    rank: spec_fn(Seq<u8>) -> nat,
    id: Seq<u8>,
    done: Seq<Seq<u8>>,
) -> Seq<Seq<u8>>
    decreases rank(id) + 1, 0nat,
{
    if done.contains(id) {
        done
    } else {
        visit_list(g, rank, copy_graph::parents_of(g, id), rank(id), done).push(id)
    }
}

/// The IDs that have been visited once the IDs of a list have been, from the last
/// to the first, as far as their ranks are below the limit.
pub open spec fn visit_list(
    g: GraphView,
    rank: spec_fn(Seq<u8>) -> nat,
    list: Seq<Seq<u8>>,
    limit: nat,
    done: Seq<Seq<u8>>,
) -> Seq<Seq<u8>>
    decreases limit, list.len(),
{
    if list.len() == 0 {
        done
    } else {
        let next = if rank(list.last()) < limit {
            visit(g, rank, list.last(), done)
        } else {
            done
        };
        visit_list(g, rank, list.drop_last(), limit, next)
    }
}

/// The IDs that have been visited once the IDs of a list have been, from the last
/// to the first.
pub open spec fn visit_roots(
    g: GraphView,
    rank: spec_fn(Seq<u8>) -> nat,
    list: Seq<Seq<u8>>,
    done: Seq<Seq<u8>>,
) -> Seq<Seq<u8>>
    decreases list.len(),
{
    if list.len() == 0 {
        done
    } else {
        visit_roots(g, rank, list.drop_last(), visit(g, rank, list.last(), done))
    }
}

/// The ranks by which an acyclic graph is walked. Any ranks give the same walk.
pub open spec fn some_rank(g: GraphView) -> spec_fn(Seq<u8>) -> nat {
    choose|rank: spec_fn(Seq<u8>) -> nat| copy_graph::is_rank(g, rank)
}

/// All IDs of an acyclic graph, parents before children.
pub open spec fn topo_order(g: GraphView) -> Seq<Seq<u8>> {
    visit_roots(g, some_rank(g), sorted_heads(g), Seq::empty())
}

/// Whether the IDs are distinct and come after their parents.
pub open spec fn parents_first(g: GraphView, done: Seq<Seq<u8>>) -> bool {
    &&& copy_graph::distinct_items(done)
    &&& forall|k: int| 0 <= k < done.len() ==> copy_graph::has_id(g, #[trigger] done[k])
    &&& forall|k: int, j: int|
        0 <= k < done.len() && 0 <= j < copy_graph::parents_of(g, done[k]).len()
            ==> done.take(k).contains(#[trigger] copy_graph::parents_of(g, done[k])[j])
}

/// Whether `after` begins with `before`.
spec fn extends(after: Seq<Seq<u8>>, before: Seq<Seq<u8>>) -> bool {
    &&& after.len() >= before.len()
    &&& after.take(before.len() as int) == before
}

proof fn lemma_extends(after: Seq<Seq<u8>>, before: Seq<Seq<u8>>, x: Seq<u8>)
    requires
        extends(after, before),
        before.contains(x),
    ensures
        after.contains(x),
{
    let i = choose|i: int| 0 <= i < before.len() && before[i] == x;
    assert(after.take(before.len() as int)[i] == x);
    assert(after[i] == x);
}

proof fn lemma_extends_trans(a: Seq<Seq<u8>>, b: Seq<Seq<u8>>, c: Seq<Seq<u8>>)
    requires
        extends(a, b),
        extends(b, c),
    ensures
        extends(a, c),
{
    assert(a.take(c.len() as int) =~= b.take(c.len() as int));
}

proof fn lemma_visit(
    g: GraphView,
    rank: spec_fn(Seq<u8>) -> nat,
    id: Seq<u8>,
    done: Seq<Seq<u8>>,
)
    requires
        copy_graph::is_closed(g),
        copy_graph::is_rank(g, rank),
        copy_graph::has_id(g, id),
        parents_first(g, done),
    ensures
        parents_first(g, visit(g, rank, id, done)),
        visit(g, rank, id, done).contains(id),
        extends(visit(g, rank, id, done), done),
        forall|x: Seq<u8>| #[trigger]
            visit(g, rank, id, done).contains(x) ==> done.contains(x) || rank(x) <= rank(id),
    decreases rank(id) + 1, 0nat,
{
    let r = visit(g, rank, id, done);
    assert(done.take(done.len() as int) =~= done);
    if !done.contains(id) {
        let parents = copy_graph::parents_of(g, id);
        assert forall|j: int| 0 <= j < parents.len() implies copy_graph::has_id(
            g,
            #[trigger] parents[j],
        ) && rank(parents[j]) < rank(id) by {
            assert(parents[j] == copy_graph::parents_of(g, id)[j]);
        }
        lemma_visit_list(g, rank, parents, rank(id), done);
        let before = visit_list(g, rank, parents, rank(id), done);
        assert(!before.contains(id));
        lemma_push_parents_first(g, before, id);
        assert(r[before.len() as int] == id);
        assert(r.take(before.len() as int) =~= before);
        assert(extends(r, before));
        lemma_extends_trans(r, before, done);
        assert forall|x: Seq<u8>| #[trigger] r.contains(x) implies done.contains(x) || rank(x)
            <= rank(id) by {
            let i = choose|i: int| 0 <= i < r.len() && r[i] == x;
            if i < before.len() {
                assert(before[i] == x);
                assert(before.contains(x));
            }
        }
    }
}

proof fn lemma_push_parents_first(g: GraphView, before: Seq<Seq<u8>>, id: Seq<u8>)
    requires
        parents_first(g, before),
        copy_graph::has_id(g, id),
        !before.contains(id),
        forall|j: int|
            0 <= j < copy_graph::parents_of(g, id).len() ==> before.contains(
                #[trigger] copy_graph::parents_of(g, id)[j],
            ),
    ensures
        parents_first(g, before.push(id)),
{
    let r = before.push(id);
    let n = before.len() as int;
    assert forall|i: int, j: int| 0 <= i < j < r.len() implies #[trigger] r[i] != #[trigger] r[j] by {
        assert(r[i] == before[i]);
        assert(before.contains(before[i]));
        if j < n {
            assert(r[j] == before[j]);
        }
    }
    assert forall|k: int| 0 <= k < r.len() implies copy_graph::has_id(g, #[trigger] r[k]) by {
        if k < n {
            assert(r[k] == before[k]);
        }
    }
    assert forall|k: int, j: int|
        0 <= k < r.len() && 0 <= j < copy_graph::parents_of(g, r[k]).len() implies r.take(
        k,
    ).contains(#[trigger] copy_graph::parents_of(g, r[k])[j]) by {
        assert(r.take(k) =~= before.take(k));
        if k < n {
            assert(r[k] == before[k]);
        } else {
            assert(before.take(k) =~= before);
        }
    }
}

proof fn lemma_visit_list(
    g: GraphView,
    rank: spec_fn(Seq<u8>) -> nat,
    list: Seq<Seq<u8>>,
    limit: nat,
    done: Seq<Seq<u8>>,
)
    requires
        copy_graph::is_closed(g),
        copy_graph::is_rank(g, rank),
        forall|j: int|
            0 <= j < list.len() ==> copy_graph::has_id(g, #[trigger] list[j]) && rank(list[j])
                < limit,
        parents_first(g, done),
    ensures
        parents_first(g, visit_list(g, rank, list, limit, done)),
        forall|j: int|
            0 <= j < list.len() ==> visit_list(g, rank, list, limit, done).contains(
                #[trigger] list[j],
            ),
        extends(visit_list(g, rank, list, limit, done), done),
        forall|x: Seq<u8>| #[trigger]
            visit_list(g, rank, list, limit, done).contains(x) ==> done.contains(x) || rank(x)
                < limit,
    decreases limit, list.len(),
{
    let r = visit_list(g, rank, list, limit, done);
    assert(done.take(done.len() as int) =~= done);
    if list.len() > 0 {
        let last = list.last();
        assert(last == list[list.len() - 1]);
        lemma_visit(g, rank, last, done);
        let next = visit(g, rank, last, done);
        let rest = list.drop_last();
        assert forall|j: int| 0 <= j < rest.len() implies copy_graph::has_id(
            g,
            #[trigger] rest[j],
        ) && rank(rest[j]) < limit by {
            assert(rest[j] == list[j]);
        }
        lemma_visit_list(g, rank, rest, limit, next);
        lemma_extends_trans(r, next, done);
        assert forall|j: int| 0 <= j < list.len() implies r.contains(#[trigger] list[j]) by {
            if j < rest.len() {
                assert(rest[j] == list[j]);
            } else {
                lemma_extends(r, next, last);
            }
        }
        assert forall|x: Seq<u8>| #[trigger] r.contains(x) implies done.contains(x) || rank(x)
            < limit by {
            if next.contains(x) {
            }
        }
    }
}

proof fn lemma_visit_roots(
    g: GraphView,
    rank: spec_fn(Seq<u8>) -> nat,
    list: Seq<Seq<u8>>,
    done: Seq<Seq<u8>>,
)
    requires
        copy_graph::is_closed(g),
        copy_graph::is_rank(g, rank),
        forall|j: int| 0 <= j < list.len() ==> copy_graph::has_id(g, #[trigger] list[j]),
        parents_first(g, done),
    ensures
        parents_first(g, visit_roots(g, rank, list, done)),
        forall|j: int|
            0 <= j < list.len() ==> visit_roots(g, rank, list, done).contains(#[trigger] list[j]),
        extends(visit_roots(g, rank, list, done), done),
    decreases list.len(),
{
    let r = visit_roots(g, rank, list, done);
    assert(done.take(done.len() as int) =~= done);
    if list.len() > 0 {
        let last = list.last();
        assert(last == list[list.len() - 1]);
        lemma_visit(g, rank, last, done);
        let next = visit(g, rank, last, done);
        let rest = list.drop_last();
        assert forall|j: int| 0 <= j < rest.len() implies copy_graph::has_id(
            g,
            #[trigger] rest[j],
        ) by {
            assert(rest[j] == list[j]);
        }
        lemma_visit_roots(g, rank, rest, next);
        lemma_extends_trans(r, next, done);
        assert forall|j: int| 0 <= j < list.len() implies r.contains(#[trigger] list[j]) by {
            if j < rest.len() {
                assert(rest[j] == list[j]);
            } else {
                lemma_extends(r, next, last);
            }
        }
    }
}

/// IDs are totally ordered.
pub proof fn lemma_id_order()
    ensures
        order::strict_total_order(id_order()),
{
    let less = id_order();
    assert forall|x: Seq<u8>| !#[trigger] less(x, x) by {
        order::lemma_bytes_order(x, x, x);
    }
    assert forall|x: Seq<u8>, y: Seq<u8>, z: Seq<u8>| #[trigger]
        less(x, y) && #[trigger] less(y, z) implies less(x, z) by {
        order::lemma_bytes_order(x, y, z);
    }
    assert forall|x: Seq<u8>, y: Seq<u8>| #[trigger] less(x, y) || x == y || less(y, x) by {
        order::lemma_bytes_order(x, y, y);
    }
}

/// The sorted heads are the heads.
pub proof fn lemma_sorted_heads(g: GraphView)
    ensures
        listing::tabulates(id_order(), listing::table(id_order(), head_marks(g)), head_marks(g)),
        forall|id: Seq<u8>| #[trigger] sorted_heads(g).contains(id) == is_head(g, id),
{
    lemma_id_order();
    let f = head_marks(g);
    let keys = Seq::new(g.len(), |i: int| g[i].0);
    assert forall|id: Seq<u8>| (#[trigger] f(id)) is Some implies keys.contains(id) by {
        let i = listing::lemma_lookup_some(g, id);
        assert(keys[i] == id);
    }
    listing::lemma_table_exists(id_order(), keys, f);
    let marks = listing::table(id_order(), f);
    let heads = sorted_heads(g);
    assert forall|id: Seq<u8>| #[trigger] heads.contains(id) == is_head(g, id) by {
        assert(listing::lookup(marks, id) == f(id));
        if heads.contains(id) {
            let i = choose|i: int| 0 <= i < heads.len() && heads[i] == id;
            listing::lemma_lookup_at(id_order(), marks, i);
        }
        if is_head(g, id) {
            let i = listing::lemma_lookup_some(marks, id);
            assert(heads[i] == id);
        }
    }
}

/// The highest rank among the first `n` IDs, plus one.
spec fn rank_bound(g: GraphView, rank: spec_fn(Seq<u8>) -> nat, n: nat) -> nat
    decreases n,
{
    if n == 0 {
        0
    } else {
        let before = rank_bound(g, rank, (n - 1) as nat);
        if rank(g[n - 1].0) < before {
            before
        } else {
            rank(g[n - 1].0) + 1
        }
    }
}

proof fn lemma_rank_bound(g: GraphView, rank: spec_fn(Seq<u8>) -> nat, n: nat, i: int)
    requires
        0 <= i < n <= g.len(),
    ensures
        rank(g[i].0) < rank_bound(g, rank, n),
    decreases n,
{
    if i < n - 1 {
        lemma_rank_bound(g, rank, (n - 1) as nat, i);
    }
}

/// Every ID is an ancestor of one that is no parent.
proof fn lemma_head_above(g: GraphView, rank: spec_fn(Seq<u8>) -> nat, id: Seq<u8>) -> (head: Seq<
    u8,
>)
    requires
        copy_graph::is_rank(g, rank),
        copy_graph::has_id(g, id),
    ensures
        is_head(g, head),
        copy_graph::is_reachable(g, head, id),
    decreases rank_bound(g, rank, g.len()) - rank(id),
{
    let i = listing::lemma_lookup_some(g, id);
    lemma_rank_bound(g, rank, g.len(), i);
    if is_head(g, id) {
        assert(copy_graph::reaches_in(g, id, id, 0));
        id
    } else {
        let (child, j) = choose|child: Seq<u8>, j: int|
            0 <= j < copy_graph::parents_of(g, child).len() && #[trigger] copy_graph::parents_of(
                g,
                child,
            )[j] == id;
        assert(rank(id) < rank(child));
        assert(copy_graph::has_id(g, child));
        let k = listing::lemma_lookup_some(g, child);
        lemma_rank_bound(g, rank, g.len(), k);
        let head = lemma_head_above(g, rank, child);
        copy_graph::lemma_parent_reachable(g, head, child, j);
        head
    }
}

/// A list with parents first has all ancestors of its members.
proof fn lemma_ancestors_inside(
    g: GraphView,
    done: Seq<Seq<u8>>,
    id: Seq<u8>,
    ancestor: Seq<u8>,
    steps: nat,
)
    requires
        parents_first(g, done),
        done.contains(id),
        copy_graph::reaches_in(g, id, ancestor, steps),
    ensures
        done.contains(ancestor),
    decreases steps,
{
    if steps > 0 {
        let j = choose|j: int|
            0 <= j < copy_graph::parents_of(g, id).len() && copy_graph::reaches_in(
                g,
                #[trigger] copy_graph::parents_of(g, id)[j],
                ancestor,
                (steps - 1) as nat,
            );
        let k = choose|k: int| 0 <= k < done.len() && done[k] == id;
        let parent = copy_graph::parents_of(g, done[k])[j];
        assert(done.take(k).contains(parent));
        let l = choose|l: int| 0 <= l < k && done.take(k)[l] == parent;
        assert(done[l] == parent);
        lemma_ancestors_inside(g, done, parent, ancestor, (steps - 1) as nat);
    }
}

/// The walk over an acyclic graph that has all parents gives each ID once, and
/// parents before children.
pub proof fn law_topo_order(g: GraphView)
    requires
        copy_graph::is_closed(g),
        copy_graph::is_acyclic(g),
    ensures
        parents_first(g, topo_order(g)),
        forall|id: Seq<u8>| #[trigger] topo_order(g).contains(id) == copy_graph::has_id(g, id),
{
    let rank = some_rank(g);
    let heads = sorted_heads(g);
    let out = topo_order(g);
    lemma_sorted_heads(g);
    assert forall|j: int| 0 <= j < heads.len() implies copy_graph::has_id(g, #[trigger] heads[j]) by {
        assert(heads.contains(heads[j]));
    }
    lemma_visit_roots(g, rank, heads, Seq::empty());
    assert forall|id: Seq<u8>| #[trigger] out.contains(id) == copy_graph::has_id(g, id) by {
        if copy_graph::has_id(g, id) {
            let head = lemma_head_above(g, rank, id);
            assert(heads.contains(head));
            let j = choose|j: int| 0 <= j < heads.len() && heads[j] == head;
            assert(out.contains(heads[j]));
            let steps = choose|steps: nat| copy_graph::reaches_in(g, head, id, steps);
            lemma_ancestors_inside(g, out, head, id, steps);
        }
        if out.contains(id) {
            let k = choose|k: int| 0 <= k < out.len() && out[k] == id;
            assert(copy_graph::has_id(g, out[k]));
        }
    }
}

proof fn lemma_same_visit(
    g: GraphView,
    a: spec_fn(Seq<u8>) -> nat,
    b: spec_fn(Seq<u8>) -> nat,
    id: Seq<u8>,
    done: Seq<Seq<u8>>,
)
    requires
        copy_graph::is_rank(g, a),
        copy_graph::is_rank(g, b),
    ensures
        visit(g, a, id, done) == visit(g, b, id, done),
    decreases a(id) + 1, 0nat,
{
    if !done.contains(id) {
        let parents = copy_graph::parents_of(g, id);
        assert(parents.take(parents.len() as int) =~= parents);
        lemma_same_visit_list(g, a, b, id, parents, done);
    }
}

proof fn lemma_same_visit_list(
    g: GraphView,
    a: spec_fn(Seq<u8>) -> nat,
    b: spec_fn(Seq<u8>) -> nat,
    id: Seq<u8>,
    list: Seq<Seq<u8>>,
    done: Seq<Seq<u8>>,
)
    requires
        copy_graph::is_rank(g, a),
        copy_graph::is_rank(g, b),
        list.len() <= copy_graph::parents_of(g, id).len(),
        list == copy_graph::parents_of(g, id).take(list.len() as int),
    ensures
        visit_list(g, a, list, a(id), done) == visit_list(g, b, list, b(id), done),
    decreases a(id), list.len(),
{
    if list.len() > 0 {
        let last = list.last();
        assert(last == copy_graph::parents_of(g, id)[list.len() - 1]);
        lemma_same_visit(g, a, b, last, done);
        assert(list.drop_last() =~= copy_graph::parents_of(g, id).take(list.len() - 1));
        lemma_same_visit_list(g, a, b, id, list.drop_last(), visit(g, a, last, done));
    }
}

/// Any ranks give the same walk.
pub proof fn law_any_rank(
    g: GraphView,
    a: spec_fn(Seq<u8>) -> nat,
    b: spec_fn(Seq<u8>) -> nat,
    list: Seq<Seq<u8>>,
    done: Seq<Seq<u8>>,
)
    requires
        copy_graph::is_rank(g, a),
        copy_graph::is_rank(g, b),
    ensures
        visit_roots(g, a, list, done) == visit_roots(g, b, list, done),
    decreases list.len(),
{
    if list.len() > 0 {
        lemma_same_visit(g, a, b, list.last(), done);
        law_any_rank(g, a, b, list.drop_last(), visit(g, a, list.last(), done));
    }
}

/// A list of IDs with nothing to say of them.
spec fn marks_of(ids: Seq<Seq<u8>>) -> Seq<(Seq<u8>, ())> {
    Seq::new(ids.len(), |i: int| (ids[i], ()))
}

/// The bytes of each of the IDs.
broadcast proof fn lemma_ids_deep_view(ids: Vec<Vec<u8>>)
    ensures
        #[trigger] ids.deep_view() == Seq::new(ids@.len(), |i: int| ids@[i]@),
{
    assert(ids.deep_view() =~= Seq::new(ids@.len(), |i: int| ids@[i]@)) by {
        assert forall|i: int| 0 <= i < ids@.len() implies ids.deep_view()[i] == ids@[i]@ by {
            assert(ids@[i].deep_view() =~= ids@[i]@);
        }
    }
}

/// The IDs that some history has as parents.
fn all_parents(copies: &CopyGraph) -> (r: IdSet)
    ensures
        forall|id: Seq<u8>| #[trigger]
            id_collections::set_items(r).contains(id) == !(forall|child: Seq<u8>, j: int|
                0 <= j < copy_graph::parents_of(copies@, child).len()
                    ==> #[trigger] copy_graph::parents_of(copies@, child)[j] != id),
{
    let ghost g = copies@;
    let n = copies.len();
    let mut r = id_collections::new_set();
    for i in 0..n
        invariant
            n == g.len(),
            g == copies@,
            copy_graph::distinct_ids(g),
            copy_graph::distinct_items(id_collections::set_items(r)),
            forall|id: Seq<u8>| #[trigger]
                id_collections::set_items(r).contains(id) == exists|k: int|
                    0 <= k < i && (#[trigger] g[k]).1.parents.contains(id),
    {
        if let Some((_, history)) = copies.get_index(i) {
            let m = history.parents.len();
            let ghost parents = history@.parents;
            let ghost items = id_collections::set_items(r);
            for j in 0..m
                invariant
                    m == history.parents.len(),
                    parents == history@.parents,
                    copy_graph::distinct_items(id_collections::set_items(r)),
                    forall|x: Seq<u8>| #[trigger]
                        id_collections::set_items(r).contains(x) == (items.contains(x)
                            || parents.take(j as int).contains(x)),
            {
                let ghost now = id_collections::set_items(r);
                id_collections::set_insert(&mut r, history.parents[j].to_bytes());
                proof {
                    let parent = parents[j as int];
                    assert(parent == history.parents@[j as int]@);
                    copy_graph::lemma_with_item(now, parent);
                    lemma_take_contains(parents, j as int);
                }
            }
            proof {
                assert(parents.take(m as int) =~= parents);
                assert(g[i as int].1.parents == parents);
                assert forall|id: Seq<u8>| #[trigger]
                    id_collections::set_items(r).contains(id) == exists|k: int|
                        0 <= k < i + 1 && (#[trigger] g[k]).1.parents.contains(id) by {
                    assert(items.contains(id) == exists|k: int|
                        0 <= k < i && (#[trigger] g[k]).1.parents.contains(id));
                    if items.contains(id) {
                        let k = choose|k: int|
                            0 <= k < i && (#[trigger] g[k]).1.parents.contains(id);
                        assert(g[k].1.parents.contains(id));
                    }
                    if parents.contains(id) {
                        assert(g[i as int].1.parents.contains(id));
                    }
                }
            }
        }
    }
    proof {
        let items = id_collections::set_items(r);
        assert forall|id: Seq<u8>| #[trigger] items.contains(id) == !(forall|child: Seq<u8>, j: int|
            0 <= j < copy_graph::parents_of(g, child).len() ==> #[trigger] copy_graph::parents_of(
                g,
                child,
            )[j] != id) by {
            if items.contains(id) {
                let k = choose|k: int| 0 <= k < n && (#[trigger] g[k]).1.parents.contains(id);
                copy_walk::lemma_lookup_distinct(g, k);
                let parents = g[k].1.parents;
                let j = choose|j: int| 0 <= j < parents.len() && parents[j] == id;
                assert(copy_graph::parents_of(g, g[k].0)[j] == id);
            }
            if exists|child: Seq<u8>, j: int|
                0 <= j < copy_graph::parents_of(g, child).len()
                    && #[trigger] copy_graph::parents_of(g, child)[j] == id {
                let (child, j) = choose|child: Seq<u8>, j: int|
                    0 <= j < copy_graph::parents_of(g, child).len()
                        && #[trigger] copy_graph::parents_of(g, child)[j] == id;
                let k = listing::lemma_lookup_some(g, child);
                assert(g[k].1.parents[j] == id);
                assert(g[k].1.parents.contains(id));
            }
        }
    }
    r
}

pub(crate) proof fn lemma_take_contains(s: Seq<Seq<u8>>, j: int)
    requires
        0 <= j < s.len(),
    ensures
        forall|x: Seq<u8>| #[trigger]
            s.take(j + 1).contains(x) == (s.take(j).contains(x) || x == s[j]),
{
    let more = s.take(j + 1);
    let fewer = s.take(j);
    assert forall|x: Seq<u8>| #[trigger] more.contains(x) == (fewer.contains(x) || x == s[j]) by {
        if fewer.contains(x) {
            let k = choose|k: int| 0 <= k < fewer.len() && fewer[k] == x;
            assert(more[k] == x);
        }
        if more.contains(x) {
            let k = choose|k: int| 0 <= k < more.len() && more[k] == x;
            if k < j {
                assert(fewer[k] == x);
            }
        }
        assert(more[j] == s[j]);
    }
}

/// The IDs that are no parents, sorted.
fn heads(copies: &CopyGraph) -> (r: Vec<Vec<u8>>)
    ensures
        r.deep_view() == sorted_heads(copies@),
{
    let ghost g = copies@;
    let ghost less = id_order();
    let n = copies.len();
    let parents = all_parents(copies);
    let mut out: Vec<Vec<u8>> = Vec::new();
    proof {
        lemma_id_order();
        assert(out.deep_view() =~= Seq::empty());
        assert(marks_of(out.deep_view()) =~= Seq::empty());
    }
    for i in 0..n
        invariant
            n == g.len(),
            g == copies@,
            less == id_order(),
            order::strict_total_order(less),
            copy_graph::distinct_ids(g),
            forall|id: Seq<u8>| #[trigger]
                id_collections::set_items(parents).contains(id) == !(forall|
                    child: Seq<u8>,
                    j: int,
                |
                    0 <= j < copy_graph::parents_of(g, child).len()
                        ==> #[trigger] copy_graph::parents_of(g, child)[j] != id),
            listing::sorted_by(less, marks_of(out.deep_view())),
            forall|id: Seq<u8>| #[trigger]
                listing::lookup(marks_of(out.deep_view()), id) is Some == (is_head(g, id) && exists|
                    k: int,
                |
                    0 <= k < i && (#[trigger] g[k]).0 == id),
    {
        if let Some((id, _)) = copies.get_index(i) {
            let ghost x = id@;
            let ghost before = out.deep_view();
            proof {
                copy_walk::lemma_lookup_distinct(g, i as int);
                assert(id_collections::set_items(parents).contains(x) == !is_head(g, x));
            }
            if !id_collections::set_contains(&parents, id.as_slice()) {
                let mut place: usize = 0;
                while place < out.len() && order::is_bytes_less(
                    out[place].as_slice(),
                    id.as_slice(),
                )
                    invariant
                        place <= out.len(),
                        x == id@,
                        before == out.deep_view(),
                        less == id_order(),
                        forall|k: int|
                            0 <= k < place ==> order::bytes_less((#[trigger] out@[k])@, x),
                    decreases out.len() - place,
                {
                    place = place + 1;
                }
                proof {
                    lemma_head_place(g, before, x, i as int, place as int, out);
                }
                out.insert(place, id.dup());
                proof {
                    broadcast use lemma_ids_deep_view;
                    broadcast use crate::value::lemma_bytes_deep_view;

                    let after = out.deep_view();
                    assert(after =~= before.insert(place as int, x));
                    assert(marks_of(after) =~= marks_of(before).insert(place as int, (x, ())));
                    listing::lemma_lookup_insert(less, marks_of(before), place as int, x, ());
                }
            }
            proof {
                let after = out.deep_view();
                assert forall|id: Seq<u8>| #[trigger]
                    listing::lookup(marks_of(after), id) is Some == (is_head(g, id) && exists|
                        k: int,
                    |
                        0 <= k < i + 1 && (#[trigger] g[k]).0 == id) by {
                    assert(listing::lookup(marks_of(before), id) is Some == (is_head(g, id)
                        && exists|k: int| 0 <= k < i && (#[trigger] g[k]).0 == id));
                    if exists|k: int| 0 <= k < i && (#[trigger] g[k]).0 == id {
                        let k = choose|k: int| 0 <= k < i && (#[trigger] g[k]).0 == id;
                        assert(g[k].0 == id);
                    }
                    if id == x {
                        assert(g[i as int].0 == id);
                    }
                }
            }
        }
    }
    proof {
        let marks = marks_of(out.deep_view());
        let f = head_marks(g);
        assert forall|id: Seq<u8>| #[trigger] listing::lookup(marks, id) == f(id) by {
            if is_head(g, id) {
                let k = listing::lemma_lookup_some(g, id);
                assert(g[k].0 == id);
            }
        }
        listing::lemma_table(less, marks, f);
        assert(out.deep_view() =~= sorted_heads(g));
    }
    out
}

proof fn lemma_head_place(
    g: GraphView,
    before: Seq<Seq<u8>>,
    x: Seq<u8>,
    i: int,
    place: int,
    out: Vec<Vec<u8>>,
)
    requires
        copy_graph::distinct_ids(g),
        0 <= i < g.len(),
        g[i].0 == x,
        before == out.deep_view(),
        0 <= place <= out@.len(),
        forall|k: int| 0 <= k < place ==> order::bytes_less((#[trigger] out@[k])@, x),
        place < out@.len() ==> !order::bytes_less(out@[place]@, x),
        listing::sorted_by(id_order(), marks_of(before)),
        forall|id: Seq<u8>| #[trigger]
            listing::lookup(marks_of(before), id) is Some == (is_head(g, id) && exists|k: int|
                0 <= k < i && (#[trigger] g[k]).0 == id),
    ensures
        before.len() == out@.len(),
        forall|k: int| 0 <= k < place ==> id_order()((#[trigger] marks_of(before)[k]).0, x),
        forall|k: int|
            place <= k < before.len() ==> id_order()(x, (#[trigger] marks_of(before)[k]).0),
{
    broadcast use lemma_ids_deep_view;

    let less = id_order();
    let marks = marks_of(before);
    lemma_id_order();
    assert(listing::lookup(marks, x) is None) by {
        if listing::lookup(marks, x) is Some {
            let k = choose|k: int| 0 <= k < i && (#[trigger] g[k]).0 == x;
            assert(g[k].0 != g[i].0);
        }
    }
    assert forall|k: int| 0 <= k < place implies less((#[trigger] marks[k]).0, x) by {
        assert(marks[k].0 == out@[k]@);
    }
    assert forall|k: int| place <= k < before.len() implies less(x, (#[trigger] marks[k]).0) by {
        listing::lemma_lookup_none(marks, x);
        assert(marks[place].0 == out@[place]@);
        assert(!less(marks[place].0, x));
        assert(marks[place].0 != x);
        assert(less(x, marks[place].0) || x == marks[place].0 || less(marks[place].0, x));
        if k > place {
            assert(less(marks[place].0, marks[k].0));
        }
    }
}

/// What has been visited once the stack has been worked off.
spec fn unwound(
    g: GraphView,
    rank: spec_fn(Seq<u8>) -> nat,
    stack: Seq<(Seq<u8>, bool)>,
    done: Seq<Seq<u8>>,
) -> Seq<Seq<u8>>
    decreases stack.len(),
{
    if stack.len() == 0 {
        done
    } else {
        let (id, expanded) = stack.last();
        let next = if !expanded {
            visit(g, rank, id, done)
        } else if done.contains(id) {
            done
        } else {
            done.push(id)
        };
        unwound(g, rank, stack.drop_last(), next)
    }
}

/// The stack with the IDs of a list on top.
spec fn with_ids(stack: Seq<(Seq<u8>, bool)>, list: Seq<Seq<u8>>) -> Seq<(Seq<u8>, bool)> {
    stack + Seq::new(list.len(), |i: int| (list[i], false))
}

proof fn lemma_unwound_list(
    g: GraphView,
    rank: spec_fn(Seq<u8>) -> nat,
    stack: Seq<(Seq<u8>, bool)>,
    list: Seq<Seq<u8>>,
    limit: nat,
    done: Seq<Seq<u8>>,
)
    requires
        forall|j: int| 0 <= j < list.len() ==> rank(#[trigger] list[j]) < limit,
    ensures
        unwound(g, rank, with_ids(stack, list), done) == unwound(
            g,
            rank,
            stack,
            visit_list(g, rank, list, limit, done),
        ),
    decreases list.len(),
{
    let all = with_ids(stack, list);
    if list.len() == 0 {
        assert(all =~= stack);
    } else {
        let rest = list.drop_last();
        assert(all.drop_last() =~= with_ids(stack, rest));
        assert(all.last() == (list.last(), false));
        assert(list.last() == list[list.len() - 1]);
        assert forall|j: int| 0 <= j < rest.len() implies rank(#[trigger] rest[j]) < limit by {
            assert(rest[j] == list[j]);
        }
        lemma_unwound_list(g, rank, stack, rest, limit, visit(g, rank, list.last(), done));
    }
}

proof fn lemma_unwound_roots(
    g: GraphView,
    rank: spec_fn(Seq<u8>) -> nat,
    list: Seq<Seq<u8>>,
    done: Seq<Seq<u8>>,
)
    ensures
        unwound(g, rank, with_ids(Seq::empty(), list), done) == visit_roots(g, rank, list, done),
    decreases list.len(),
{
    let all = with_ids(Seq::empty(), list);
    if list.len() > 0 {
        let rest = list.drop_last();
        assert(all.drop_last() =~= with_ids(Seq::empty(), rest));
        assert(all.last() == (list.last(), false));
        lemma_unwound_roots(g, rank, rest, visit(g, rank, list.last(), done));
    }
}

/// How many steps it takes at most to visit an ID.
spec fn cost(g: GraphView, rank: spec_fn(Seq<u8>) -> nat, id: Seq<u8>) -> nat
    decreases rank(id) + 1, 0nat,
{
    2 + cost_list(g, rank, copy_graph::parents_of(g, id), rank(id))
}

spec fn cost_list(
    g: GraphView,
    rank: spec_fn(Seq<u8>) -> nat,
    list: Seq<Seq<u8>>,
    limit: nat,
) -> nat
    decreases limit, list.len(),
{
    if list.len() == 0 {
        0
    } else {
        cost_list(g, rank, list.drop_last(), limit) + if rank(list.last()) < limit {
            cost(g, rank, list.last())
        } else {
            0
        }
    }
}

/// How many steps it takes at most to work off the stack.
spec fn stack_cost(
    g: GraphView,
    rank: spec_fn(Seq<u8>) -> nat,
    stack: Seq<(Seq<u8>, bool)>,
) -> nat
    decreases stack.len(),
{
    if stack.len() == 0 {
        0
    } else {
        stack_cost(g, rank, stack.drop_last()) + if stack.last().1 {
            1
        } else {
            cost(g, rank, stack.last().0)
        }
    }
}

proof fn lemma_stack_cost_list(
    g: GraphView,
    rank: spec_fn(Seq<u8>) -> nat,
    stack: Seq<(Seq<u8>, bool)>,
    list: Seq<Seq<u8>>,
    limit: nat,
)
    requires
        forall|j: int| 0 <= j < list.len() ==> rank(#[trigger] list[j]) < limit,
    ensures
        stack_cost(g, rank, with_ids(stack, list)) == stack_cost(g, rank, stack) + cost_list(
            g,
            rank,
            list,
            limit,
        ),
    decreases list.len(),
{
    let all = with_ids(stack, list);
    if list.len() == 0 {
        assert(all =~= stack);
    } else {
        let rest = list.drop_last();
        assert(all.drop_last() =~= with_ids(stack, rest));
        assert(all.last() == (list.last(), false));
        assert(list.last() == list[list.len() - 1]);
        assert forall|j: int| 0 <= j < rest.len() implies rank(#[trigger] rest[j]) < limit by {
            assert(rest[j] == list[j]);
        }
        lemma_stack_cost_list(g, rank, stack, rest, limit);
    }
}

/// The bytes of each of the IDs on the stack.
broadcast proof fn lemma_stack_deep_view(stack: Vec<(Vec<u8>, bool)>)
    ensures
        #[trigger] stack.deep_view() == Seq::new(
            stack@.len(),
            |i: int| (stack@[i].0@, stack@[i].1),
        ),
{
    assert(stack.deep_view() =~= Seq::new(stack@.len(), |i: int| (stack@[i].0@, stack@[i].1))) by {
        assert forall|i: int| 0 <= i < stack@.len() implies stack.deep_view()[i] == (
            stack@[i].0@,
            stack@[i].1,
        ) by {
            assert(stack@[i].0.deep_view() =~= stack@[i].0@);
        }
    }
}

/// All IDs of the graph, parents before children.
pub fn topo_order_forward(copies: &CopyGraph) -> (r: IdSet)
    requires
        copy_graph::is_closed(copies@),
        copy_graph::is_acyclic(copies@),
    ensures
        id_collections::set_items(r) == topo_order(copies@),
{
    broadcast use lemma_ids_deep_view;
    broadcast use lemma_stack_deep_view;

    let ghost g = copies@;
    let ghost rank = some_rank(g);
    let roots = heads(copies);
    let n = roots.len();
    let mut stack: Vec<(Vec<u8>, bool)> = Vec::new();
    let mut emitted = id_collections::new_set();
    let ghost all = topo_order(g);
    let ghost list = roots.deep_view();
    assert(stack.deep_view() =~= with_ids(Seq::empty(), list.take(0)));
    for i in 0..n
        invariant
            n == roots.len(),
            list == roots.deep_view(),
            stack.deep_view() == with_ids(Seq::empty(), list.take(i as int)),
    {
        broadcast use crate::value::lemma_bytes_deep_view;

        let ghost before = stack.deep_view();
        stack.push((roots[i].dup(), false));
        assert(stack.deep_view() =~= before.push((list[i as int], false)));
        assert(stack.deep_view() =~= with_ids(Seq::empty(), list.take(i + 1)));
    }
    proof {
        assert(list.take(n as int) =~= list);
        lemma_unwound_roots(g, rank, list, Seq::empty());
        assert(list == sorted_heads(g));
        lemma_sorted_heads(g);
        assert forall|i: int| 0 <= i < stack.deep_view().len() implies copy_graph::has_id(
            g,
            (#[trigger] stack.deep_view()[i]).0,
        ) by {
            assert(stack.deep_view()[i].0 == list[i]);
            assert(sorted_heads(g).contains(list[i]));
        }
        assert(parents_first(g, Seq::empty()));
    }
    while stack.len() > 0
        invariant
            g == copies@,
            rank == some_rank(g),
            copy_graph::is_rank(g, rank),
            copy_graph::is_closed(g),
            all == topo_order(g),
            forall|i: int|
                0 <= i < stack.deep_view().len() ==> copy_graph::has_id(
                    g,
                    (#[trigger] stack.deep_view()[i]).0,
                ),
            parents_first(g, id_collections::set_items(emitted)),
            forall|i: int|
                0 <= i < stack.deep_view().len() && (#[trigger] stack.deep_view()[i]).1
                    ==> parents_ready(g, rank, stack.deep_view(), i, id_collections::set_items(
                    emitted,
                )),
            unwound(g, rank, stack.deep_view(), id_collections::set_items(emitted)) == all,
        decreases stack_cost(g, rank, stack.deep_view()),
    {
        broadcast use lemma_stack_deep_view;

        let ghost before = stack.deep_view();
        let ghost done = id_collections::set_items(emitted);
        let popped = stack.pop();
        let (node, neighbors_visited) = match popped {
            Some(top) => top,
            None => {
                assert(false);
                return emitted;
            },
        };
        let ghost id = node@;
        proof {
            assert(before.last() == (id, neighbors_visited));
            assert(before[before.len() - 1] == (id, neighbors_visited));
            assert(stack.deep_view() =~= before.drop_last());
            assert forall|i: int| 0 <= i < stack.deep_view().len() implies #[trigger] stack.deep_view()[i]
                == before[i] by {}
        }
        if id_collections::set_contains(&emitted, node.as_slice()) {
            proof {
                lemma_ready_popped(g, rank, before, done, done);
            }
        } else if !neighbors_visited {
            let history = match copies.get_bytes(node.as_slice()) {
                Some(history) => history,
                None => {
                    assert(false);
                    return emitted;
                },
            };
            let m = history.parents.len();
            let ghost parents = copy_graph::parents_of(g, id);
            stack.push((node, true));
            let ghost base = stack.deep_view();
            assert(base =~= before.drop_last().push((id, true)));
            assert(base =~= with_ids(base, parents.take(0)));
            for j in 0..m
                invariant
                    m == history.parents.len(),
                    parents == history@.parents,
                    stack.deep_view() == with_ids(base, parents.take(j as int)),
            {
                let ghost prior = stack.deep_view();
                stack.push((history.parents[j].to_bytes(), false));
                proof {
                    broadcast use lemma_stack_deep_view;

                    assert(parents[j as int] == history.parents@[j as int]@);
                    assert(stack.deep_view() =~= prior.push((parents[j as int], false)));
                    assert(stack.deep_view() =~= with_ids(base, parents.take(j + 1)));
                }
            }
            proof {
                assert(parents.take(m as int) =~= parents);
                lemma_expanded(g, rank, before, parents, id, done);
            }
        } else {
            id_collections::set_insert(&mut emitted, node);
            proof {
                assert(parents_ready(g, rank, before, before.len() - 1, done));
                lemma_emitted(g, rank, before, id, done);
            }
        }
    }
    emitted
}

/// Whether the parents of an ID on the stack are done, or will be by the time
/// the stack is worked off down to the ID.
spec fn parents_ready(
    g: GraphView,
    rank: spec_fn(Seq<u8>) -> nat,
    stack: Seq<(Seq<u8>, bool)>,
    i: int,
    done: Seq<Seq<u8>>,
) -> bool {
    let id = stack[i].0;
    forall|j: int|
        0 <= j < copy_graph::parents_of(g, id).len() ==> done.contains(
            #[trigger] copy_graph::parents_of(g, id)[j],
        ) || is_above(stack, i, copy_graph::parents_of(g, id)[j])
}

/// Whether an ID is on the stack above the place `i`.
spec fn is_above(stack: Seq<(Seq<u8>, bool)>, i: int, id: Seq<u8>) -> bool {
    exists|k: int| i < k < stack.len() && (#[trigger] stack[k]).0 == id
}

/// The top of the stack is gone, and it is done.
proof fn lemma_ready_popped(
    g: GraphView,
    rank: spec_fn(Seq<u8>) -> nat,
    before: Seq<(Seq<u8>, bool)>,
    done: Seq<Seq<u8>>,
    now: Seq<Seq<u8>>,
)
    requires
        before.len() > 0,
        forall|x: Seq<u8>| #[trigger] done.contains(x) ==> now.contains(x),
        now.contains(before.last().0),
        forall|i: int|
            0 <= i < before.len() && (#[trigger] before[i]).1 ==> parents_ready(
                g,
                rank,
                before,
                i,
                done,
            ),
    ensures
        forall|i: int|
            0 <= i < before.drop_last().len() && (#[trigger] before.drop_last()[i]).1
                ==> parents_ready(g, rank, before.drop_last(), i, now),
        done == now ==> unwound(g, rank, before, done) == unwound(g, rank, before.drop_last(), now),
        stack_cost(g, rank, before.drop_last()) < stack_cost(g, rank, before),
{
    let after = before.drop_last();
    assert forall|i: int| 0 <= i < after.len() && (#[trigger] after[i]).1 implies parents_ready(
        g,
        rank,
        after,
        i,
        now,
    ) by {
        assert(after[i] == before[i]);
        let id = after[i].0;
        assert forall|j: int| 0 <= j < copy_graph::parents_of(g, id).len() implies now.contains(
            #[trigger] copy_graph::parents_of(g, id)[j],
        ) || is_above(after, i, copy_graph::parents_of(g, id)[j]) by {
            let parent = copy_graph::parents_of(g, id)[j];
            if done.contains(parent) {
            } else {
                let k = choose|k: int| i < k < before.len() && (#[trigger] before[k]).0 == parent;
                if k < after.len() {
                    assert(after[k].0 == parent);
                }
            }
        }
    }
}

/// The top of the stack has been expanded: its parents are above it.
proof fn lemma_expanded(
    g: GraphView,
    rank: spec_fn(Seq<u8>) -> nat,
    before: Seq<(Seq<u8>, bool)>,
    parents: Seq<Seq<u8>>,
    id: Seq<u8>,
    done: Seq<Seq<u8>>,
)
    requires
        copy_graph::is_closed(g),
        copy_graph::is_rank(g, rank),
        parents_first(g, done),
        before.len() > 0,
        before.last() == (id, false),
        copy_graph::has_id(g, id),
        parents == copy_graph::parents_of(g, id),
        !done.contains(id),
        forall|i: int| 0 <= i < before.len() ==> copy_graph::has_id(g, (#[trigger] before[i]).0),
        forall|i: int|
            0 <= i < before.len() && (#[trigger] before[i]).1 ==> parents_ready(
                g,
                rank,
                before,
                i,
                done,
            ),
    ensures
        ({
            let after = with_ids(before.drop_last().push((id, true)), parents);
            &&& unwound(g, rank, after, done) == unwound(g, rank, before, done)
            &&& stack_cost(g, rank, after) < stack_cost(g, rank, before)
            &&& forall|i: int|
                0 <= i < after.len() ==> copy_graph::has_id(g, (#[trigger] after[i]).0)
            &&& forall|i: int|
                0 <= i < after.len() && (#[trigger] after[i]).1 ==> parents_ready(
                    g,
                    rank,
                    after,
                    i,
                    done,
                )
        }),
{
    let rest = before.drop_last();
    let base = rest.push((id, true));
    let after = with_ids(base, parents);
    let limit = rank(id);
    assert forall|j: int| 0 <= j < parents.len() implies rank(#[trigger] parents[j]) < limit
        && copy_graph::has_id(g, parents[j]) by {
        assert(parents[j] == copy_graph::parents_of(g, id)[j]);
    }
    lemma_unwound_list(g, rank, base, parents, limit, done);
    lemma_visit_list(g, rank, parents, limit, done);
    let visited = visit_list(g, rank, parents, limit, done);
    assert(!visited.contains(id));
    assert(base.drop_last() =~= rest);
    assert(base.last() == (id, true));
    lemma_stack_cost_list(g, rank, base, parents, limit);
    assert forall|i: int| 0 <= i < after.len() implies copy_graph::has_id(
        g,
        (#[trigger] after[i]).0,
    ) by {
        if i < rest.len() {
            assert(after[i] == before[i]);
        } else if i > rest.len() {
            assert(after[i].0 == parents[i - base.len()]);
        }
    }
    assert forall|i: int| 0 <= i < after.len() && (#[trigger] after[i]).1 implies parents_ready(
        g,
        rank,
        after,
        i,
        done,
    ) by {
        let x = after[i].0;
        assert forall|j: int| 0 <= j < copy_graph::parents_of(g, x).len() implies done.contains(
            #[trigger] copy_graph::parents_of(g, x)[j],
        ) || is_above(after, i, copy_graph::parents_of(g, x)[j]) by {
            let parent = copy_graph::parents_of(g, x)[j];
            if i < rest.len() {
                assert(after[i] == before[i]);
                assert(parents_ready(g, rank, before, i, done));
                if !done.contains(parent) {
                    let k = choose|k: int|
                        i < k < before.len() && (#[trigger] before[k]).0 == parent;
                    if k < rest.len() {
                        assert(after[k] == before[k]);
                    } else {
                        assert(after[k] == (id, true));
                    }
                    assert(after[k].0 == parent);
                }
            } else {
                assert(i == rest.len());
                assert(after[base.len() + j] == (parents[j], false));
                assert(after[base.len() + j].0 == parent);
            }
        }
    }
}

/// The top of the stack has been emitted, after its parents.
proof fn lemma_emitted(
    g: GraphView,
    rank: spec_fn(Seq<u8>) -> nat,
    before: Seq<(Seq<u8>, bool)>,
    id: Seq<u8>,
    done: Seq<Seq<u8>>,
)
    requires
        parents_first(g, done),
        before.len() > 0,
        before.last() == (id, true),
        copy_graph::has_id(g, id),
        !done.contains(id),
        parents_ready(g, rank, before, before.len() - 1, done),
        forall|i: int|
            0 <= i < before.len() && (#[trigger] before[i]).1 ==> parents_ready(
                g,
                rank,
                before,
                i,
                done,
            ),
    ensures
        ({
            let after = before.drop_last();
            let now = id_collections::with_item(done, id);
            &&& parents_first(g, now)
            &&& unwound(g, rank, after, now) == unwound(g, rank, before, done)
            &&& stack_cost(g, rank, after) < stack_cost(g, rank, before)
            &&& forall|i: int|
                0 <= i < after.len() && (#[trigger] after[i]).1 ==> parents_ready(
                    g,
                    rank,
                    after,
                    i,
                    now,
                )
        }),
{
    let now = id_collections::with_item(done, id);
    copy_graph::lemma_with_item(done, id);
    assert forall|j: int| 0 <= j < copy_graph::parents_of(g, id).len() implies done.contains(
        #[trigger] copy_graph::parents_of(g, id)[j],
    ) by {
        let parent = copy_graph::parents_of(g, before[before.len() - 1].0)[j];
        if !done.contains(parent) {
            let k = choose|k: int|
                before.len() - 1 < k < before.len() && (#[trigger] before[k]).0 == parent;
        }
    }
    lemma_push_parents_first(g, done, id);
    lemma_ready_popped(g, rank, before, done, now);
}

/// Whether the graph has all parents of its histories and no history is its own
/// ancestor.
pub fn has_topo_order(copies: &CopyGraph) -> (r: bool)
    ensures
        r == (copy_graph::is_closed(copies@) && copy_graph::is_acyclic(copies@)),
{
    let ghost g = copies@;
    let n = copies.len();
    let mut done = id_collections::new_set();
    loop
        invariant
            n == g.len(),
            g == copies@,
            copy_graph::distinct_ids(g),
            parents_first(g, id_collections::set_items(done)),
        decreases n + 1 - id_collections::set_items(done).len(),
    {
        let before = id_collections::set_len(&done);
        let ghost start = id_collections::set_items(done);
        if before == n {
            proof {
                lemma_complete(g, start);
            }
            return true;
        }
        for i in 0..n
            invariant
                n == g.len(),
                g == copies@,
                copy_graph::distinct_ids(g),
                parents_first(g, id_collections::set_items(done)),
                id_collections::set_items(done) == start || id_collections::set_items(done).len()
                    > start.len(),
                id_collections::set_items(done) == start ==> forall|k: int|
                    0 <= k < i ==> start.contains((#[trigger] g[k]).0) || has_undone_parent(
                        g,
                        start,
                        g[k].0,
                    ),
        {
            if let Some((id, history)) = copies.get_index(i) {
                let ghost items = id_collections::set_items(done);
                proof {
                    copy_walk::lemma_lookup_distinct(g, i as int);
                }
                if !id_collections::set_contains(&done, id.as_slice()) {
                    let m = history.parents.len();
                    let ghost parents = history@.parents;
                    let mut ready = true;
                    for j in 0..m
                        invariant
                            m == history.parents.len(),
                            parents == history@.parents,
                            items == id_collections::set_items(done),
                            ready ==> forall|k: int|
                                0 <= k < j ==> items.contains(#[trigger] parents[k]),
                            !ready ==> exists|k: int|
                                0 <= k < parents.len() && !items.contains(#[trigger] parents[k]),
                    {
                        assert(history.parents@[j as int]@ == parents[j as int]);
                        if !id_collections::set_contains(&done, history.parents[j].as_bytes()) {
                            ready = false;
                        }
                    }
                    if ready {
                        proof {
                            lemma_push_parents_first(g, items, id@);
                        }
                        id_collections::set_insert(&mut done, id.dup());
                        proof {
                            broadcast use crate::value::lemma_bytes_deep_view;

                            assert(id_collections::set_items(done) == items.push(id@));
                        }
                    } else {
                        assert(has_undone_parent(g, items, id@));
                    }
                }
            }
        }
        if id_collections::set_len(&done) == before {
            proof {
                lemma_stuck(g, start);
            }
            return false;
        }
        proof {
            copy_graph::lemma_distinct_bound(id_collections::set_items(done), g);
        }
    }
}

/// Whether a parent of the ID is not in the list.
spec fn has_undone_parent(g: GraphView, done: Seq<Seq<u8>>, id: Seq<u8>) -> bool {
    exists|j: int|
        0 <= j < copy_graph::parents_of(g, id).len() && !done.contains(
            #[trigger] copy_graph::parents_of(g, id)[j],
        )
}

proof fn lemma_complete(g: GraphView, done: Seq<Seq<u8>>)
    requires
        parents_first(g, done),
        done.len() == g.len(),
    ensures
        copy_graph::is_closed(g),
        copy_graph::is_acyclic(g),
{
    assert forall|id: Seq<u8>| #[trigger] copy_graph::has_id(g, id) implies done.contains(id) by {
        if !done.contains(id) {
            let more = done.push(id);
            assert forall|i: int, j: int| 0 <= i < j < more.len() implies #[trigger] more[i]
                != #[trigger] more[j] by {
                assert(more[i] == done[i]);
                assert(done.contains(done[i]));
                if j < done.len() {
                    assert(more[j] == done[j]);
                }
            }
            assert forall|i: int| 0 <= i < more.len() implies listing::lookup(
                g,
                #[trigger] more[i],
            ) is Some by {
                if i < done.len() {
                    assert(copy_graph::has_id(g, done[i]));
                }
            }
            copy_graph::lemma_distinct_bound(more, g);
        }
    }
    let rank = |id: Seq<u8>| -> nat { done.index_of(id) as nat };
    assert forall|id: Seq<u8>, j: int|
        0 <= j < copy_graph::parents_of(g, id).len() implies copy_graph::has_id(
        g,
        #[trigger] copy_graph::parents_of(g, id)[j],
    ) && rank(copy_graph::parents_of(g, id)[j]) < rank(id) by {
        assert(copy_graph::has_id(g, id));
        assert(done.contains(id));
        let k = done.index_of(id);
        assert(done[k] == id);
        let parent = copy_graph::parents_of(g, done[k])[j];
        assert(done.take(k).contains(parent));
        let l = choose|l: int| 0 <= l < k && done.take(k)[l] == parent;
        assert(done[l] == parent);
        assert(done.contains(parent));
        let m = done.index_of(parent);
        assert(done[m] == parent);
        if m < l {
            assert(done[m] != done[l]);
        } else if l < m {
            assert(done[l] != done[m]);
        }
    }
    assert(copy_graph::is_rank(g, rank));
}

proof fn lemma_stuck(g: GraphView, done: Seq<Seq<u8>>)
    requires
        parents_first(g, done),
        done.len() != g.len(),
        copy_graph::distinct_ids(g),
        forall|k: int|
            0 <= k < g.len() ==> done.contains((#[trigger] g[k]).0) || has_undone_parent(
                g,
                done,
                g[k].0,
            ),
    ensures
        !(copy_graph::is_closed(g) && copy_graph::is_acyclic(g)),
{
    if copy_graph::is_closed(g) && copy_graph::is_acyclic(g) {
        let rank = some_rank(g);
        copy_graph::lemma_distinct_bound(done, g);
        let ids = Seq::new(g.len(), |i: int| g[i].0);
        if forall|k: int| 0 <= k < g.len() ==> done.contains((#[trigger] g[k]).0) {
            assert(done.len() >= g.len()) by {
                let marks = Seq::new(done.len(), |i: int| (done[i], ()));
                assert forall|i: int| 0 <= i < ids.len() implies listing::lookup(
                    marks,
                    #[trigger] ids[i],
                ) is Some by {
                    assert(done.contains(g[i].0));
                    let l = choose|l: int| 0 <= l < done.len() && done[l] == g[i].0;
                    assert(marks[l].0 == ids[i]);
                    if listing::lookup(marks, ids[i]) is None {
                        listing::lemma_lookup_none(marks, ids[i]);
                    }
                }
                assert forall|i: int, j: int| 0 <= i < j < ids.len() implies #[trigger] ids[i]
                    != #[trigger] ids[j] by {
                    assert(g[i].0 != g[j].0);
                }
                copy_graph::lemma_distinct_bound(ids, marks);
            }
            assert(false);
        }
        let k = choose|k: int| 0 <= k < g.len() && !done.contains((#[trigger] g[k]).0);
        lemma_descent(g, rank, done, g[k].0);
    }
}

proof fn lemma_descent(
    g: GraphView,
    rank: spec_fn(Seq<u8>) -> nat,
    done: Seq<Seq<u8>>,
    id: Seq<u8>,
)
    requires
        copy_graph::is_closed(g),
        copy_graph::is_rank(g, rank),
        copy_graph::has_id(g, id),
        forall|k: int|
            0 <= k < g.len() ==> done.contains((#[trigger] g[k]).0) || has_undone_parent(
                g,
                done,
                g[k].0,
            ),
    ensures
        done.contains(id),
    decreases rank(id),
{
    let k = listing::lemma_lookup_some(g, id);
    assert(g[k].0 == id);
    if !done.contains(id) {
        assert(has_undone_parent(g, done, id));
        let j = choose|j: int|
            0 <= j < copy_graph::parents_of(g, id).len() && !done.contains(
                #[trigger] copy_graph::parents_of(g, id)[j],
            );
        lemma_descent(g, rank, done, copy_graph::parents_of(g, id)[j]);
    }
}

} // verus!
