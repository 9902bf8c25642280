//! The graph of copy histories.

use crate::backend::CopyHistory;
use crate::backend::CopyHistoryView;
use crate::backend::CopyId;
use crate::backend::RelatedCopy;
use crate::id_collections;
use crate::id_collections::IdMap;
use crate::listing;
use crate::value::Value;
use crate::vectors;
use vstd::prelude::*;

verus! {

/// The model of a copy graph: the histories with their IDs, in order.
pub type GraphView = Seq<(Seq<u8>, CopyHistoryView)>;

/// Whether no ID occurs twice.
pub open spec fn distinct_ids<V>(g: Seq<(Seq<u8>, V)>) -> bool {
    forall|i: int, j: int| 0 <= i < j < g.len() ==> (#[trigger] g[i]).0 != (#[trigger] g[j]).0
}

/// Whether the graph has a history with the given ID.
pub open spec fn has_id(g: GraphView, id: Seq<u8>) -> bool {
    listing::lookup(g, id) is Some
}

/// The parents of an ID.
pub open spec fn parents_of(g: GraphView, id: Seq<u8>) -> Seq<Seq<u8>> {
    match listing::lookup(g, id) {
        Some(history) => history.parents,
        None => Seq::empty(),
    }
}

/// Whether the graph has all parents of its histories.
pub open spec fn is_closed(g: GraphView) -> bool {
    forall|id: Seq<u8>, j: int|
        0 <= j < parents_of(g, id).len() ==> has_id(g, #[trigger] parents_of(g, id)[j])
}

/// Whether the parents of an ID always have a lower rank.
pub open spec fn is_rank(g: GraphView, rank: spec_fn(Seq<u8>) -> nat) -> bool {
    forall|id: Seq<u8>, j: int|
        0 <= j < parents_of(g, id).len() ==> rank(#[trigger] parents_of(g, id)[j]) < rank(id)
}

/// Whether no history is its own ancestor.
pub open spec fn is_acyclic(g: GraphView) -> bool {
    exists|rank: spec_fn(Seq<u8>) -> nat| is_rank(g, rank)
}

/// Whether going from an ID to a parent, the given number of times, can lead to
/// `ancestor`.
pub open spec fn reaches_in(g: GraphView, id: Seq<u8>, ancestor: Seq<u8>, steps: nat) -> bool
    decreases steps,
{
    if steps == 0 {
        id == ancestor
    } else {
        exists|j: int|
            0 <= j < parents_of(g, id).len() && reaches_in(
                g,
                #[trigger] parents_of(g, id)[j],
                ancestor,
                (steps - 1) as nat,
            )
    }
}

/// Whether `ancestor` is the given ID or one of its ancestors.
pub open spec fn is_reachable(g: GraphView, id: Seq<u8>, ancestor: Seq<u8>) -> bool {
    exists|steps: nat| reaches_in(g, id, ancestor, steps)
}

/// Whether `ancestor` is an ancestor of one of the parents of the given ID, or
/// one of them.
pub open spec fn is_proper_ancestor(g: GraphView, id: Seq<u8>, ancestor: Seq<u8>) -> bool {
    exists|j: int|
        0 <= j < parents_of(g, id).len() && is_reachable(
            g,
            #[trigger] parents_of(g, id)[j],
            ancestor,
        )
}

/// An ancestor is the ID itself or an ancestor of a parent.
pub proof fn lemma_reachable_step(g: GraphView, id: Seq<u8>, ancestor: Seq<u8>)
    ensures
        is_reachable(g, id, ancestor) == (id == ancestor || is_proper_ancestor(g, id, ancestor)),
{
    if is_reachable(g, id, ancestor) {
        let steps = choose|steps: nat| reaches_in(g, id, ancestor, steps);
        if steps > 0 {
            let j = choose|j: int|
                0 <= j < parents_of(g, id).len() && reaches_in(
                    g,
                    #[trigger] parents_of(g, id)[j],
                    ancestor,
                    (steps - 1) as nat,
                );
            assert(is_reachable(g, parents_of(g, id)[j], ancestor));
        }
    }
    if id == ancestor {
        assert(reaches_in(g, id, ancestor, 0));
    }
    if is_proper_ancestor(g, id, ancestor) {
        let j = choose|j: int|
            0 <= j < parents_of(g, id).len() && is_reachable(
                g,
                #[trigger] parents_of(g, id)[j],
                ancestor,
            );
        let steps = choose|steps: nat| reaches_in(g, parents_of(g, id)[j], ancestor, steps);
        assert(reaches_in(g, id, ancestor, steps + 1));
    }
}

proof fn lemma_reaches_trans(
    g: GraphView,
    a: Seq<u8>,
    b: Seq<u8>,
    c: Seq<u8>,
    m: nat,
    n: nat,
)
    requires
        reaches_in(g, a, b, m),
        reaches_in(g, b, c, n),
    ensures
        reaches_in(g, a, c, m + n),
    decreases m,
{
    if m > 0 {
        let j = choose|j: int|
            0 <= j < parents_of(g, a).len() && reaches_in(
                g,
                #[trigger] parents_of(g, a)[j],
                b,
                (m - 1) as nat,
            );
        lemma_reaches_trans(g, parents_of(g, a)[j], b, c, (m - 1) as nat, n);
        assert(reaches_in(g, parents_of(g, a)[j], c, (m + n - 1) as nat));
    }
}

/// Every ID is counted among its own ancestors, and the ancestors of an ancestor
/// are ancestors.
pub proof fn law_ancestors(g: GraphView, a: Seq<u8>, b: Seq<u8>, c: Seq<u8>)
    ensures
        is_reachable(g, a, a),
        is_reachable(g, a, b) && is_reachable(g, b, c) ==> is_reachable(g, a, c),
{
    assert(reaches_in(g, a, a, 0));
    if is_reachable(g, a, b) && is_reachable(g, b, c) {
        let m = choose|steps: nat| reaches_in(g, a, b, steps);
        let n = choose|steps: nat| reaches_in(g, b, c, steps);
        lemma_reaches_trans(g, a, b, c, m, n);
    }
}

/// A parent is an ancestor.
pub proof fn lemma_parent_reachable(g: GraphView, id: Seq<u8>, ancestor: Seq<u8>, j: int)
    requires
        is_reachable(g, id, ancestor),
        0 <= j < parents_of(g, ancestor).len(),
    ensures
        is_reachable(g, id, parents_of(g, ancestor)[j]),
{
    let parent = parents_of(g, ancestor)[j];
    assert(reaches_in(g, parent, parent, 0));
    assert(reaches_in(g, ancestor, parent, 1));
    law_ancestors(g, id, ancestor, parent);
}

/// All ancestors lie in a set that has the parents of its members.
proof fn lemma_reachable_inside(
    g: GraphView,
    inside: Seq<Seq<u8>>,
    id: Seq<u8>,
    ancestor: Seq<u8>,
    steps: nat,
)
    requires
        inside.contains(id),
        reaches_in(g, id, ancestor, steps),
        forall|x: Seq<u8>, j: int|
            inside.contains(x) && 0 <= j < parents_of(g, x).len() ==> inside.contains(
                #[trigger] parents_of(g, x)[j],
            ),
    ensures
        inside.contains(ancestor),
    decreases steps,
{
    if steps > 0 {
        let j = choose|j: int|
            0 <= j < parents_of(g, id).len() && reaches_in(
                g,
                #[trigger] parents_of(g, id)[j],
                ancestor,
                (steps - 1) as nat,
            );
        lemma_reachable_inside(g, inside, parents_of(g, id)[j], ancestor, (steps - 1) as nat);
    }
}

/// Ancestors have lower ranks.
pub proof fn lemma_rank_decreases(
    g: GraphView,
    rank: spec_fn(Seq<u8>) -> nat,
    id: Seq<u8>,
    ancestor: Seq<u8>,
)
    requires
        is_rank(g, rank),
        is_reachable(g, id, ancestor),
    ensures
        rank(ancestor) <= rank(id),
        id != ancestor ==> rank(ancestor) < rank(id),
{
    let steps = choose|steps: nat| reaches_in(g, id, ancestor, steps);
    lemma_rank_steps(g, rank, id, ancestor, steps);
}

proof fn lemma_rank_steps(
    g: GraphView,
    rank: spec_fn(Seq<u8>) -> nat,
    id: Seq<u8>,
    ancestor: Seq<u8>,
    steps: nat,
)
    requires
        is_rank(g, rank),
        reaches_in(g, id, ancestor, steps),
    ensures
        rank(ancestor) + steps <= rank(id),
    decreases steps,
{
    if steps > 0 {
        let j = choose|j: int|
            0 <= j < parents_of(g, id).len() && reaches_in(
                g,
                #[trigger] parents_of(g, id)[j],
                ancestor,
                (steps - 1) as nat,
            );
        lemma_rank_steps(g, rank, parents_of(g, id)[j], ancestor, (steps - 1) as nat);
    }
}

/// Whether no item occurs twice.
pub open spec fn distinct_items(items: Seq<Seq<u8>>) -> bool {
    forall|i: int, j: int| 0 <= i < j < items.len() ==> #[trigger] items[i] != #[trigger] items[j]
}

/// Distinct IDs of a graph are not more than it has.
pub proof fn lemma_distinct_bound<V>(items: Seq<Seq<u8>>, g: Seq<(Seq<u8>, V)>)
    requires
        distinct_items(items),
        forall|i: int|
            0 <= i < items.len() ==> listing::lookup(g, #[trigger] items[i]) is Some,
    ensures
        items.len() <= g.len(),
{
    let keys = Seq::new(g.len(), |i: int| g[i].0);
    assert(items.no_duplicates()) by {
        assert forall|i: int, j: int| 0 <= i < items.len() && 0 <= j < items.len() && i
            != j implies items[i] != items[j] by {
            if i < j {
                assert(items[i] != items[j]);
            } else {
                assert(items[j] != items[i]);
            }
        }
    }
    items.unique_seq_to_set();
    vstd::seq_lib::seq_to_set_is_finite(keys);
    assert(items.to_set().subset_of(keys.to_set())) by {
        assert forall|x: Seq<u8>| items.to_set().contains(x) implies keys.to_set().contains(x) by {
            let i = choose|i: int| 0 <= i < items.len() && items[i] == x;
            assert(listing::lookup(g, items[i]) is Some);
            let k = listing::lemma_lookup_some(g, x);
            assert(keys[k] == x);
        }
    }
    vstd::set_lib::lemma_len_subset(items.to_set(), keys.to_set());
    keys.lemma_cardinality_of_set();
}

/// Maps `CopyId`s to `CopyHistory`s
#[derive(Debug)]
pub struct CopyGraph {
    ids: IdMap,
    histories: Vec<CopyHistory>,
}

impl View for CopyGraph {
    type V = GraphView;

    closed spec fn view(&self) -> GraphView {
        graph_view(id_collections::map_entries(self.ids), self.histories@)
    }
}

spec fn graph_view(entries: Seq<(Seq<u8>, usize)>, histories: Seq<CopyHistory>) -> GraphView {
    Seq::new(entries.len(), |i: int| (entries[i].0, histories[entries[i].1 as int]@))
}

/// The graph of related copies: of several with the same ID the last one counts,
/// at the place of the first.
pub open spec fn collected(related: Seq<RelatedCopy>) -> GraphView
    decreases related.len(),
{
    if related.len() == 0 {
        Seq::empty()
    } else {
        id_collections::with_key(
            collected(related.drop_last()),
            related.last().id@,
            related.last().history@,
        )
    }
}

impl CopyGraph {
    #[verifier::type_invariant]
    spec fn type_inv(self) -> bool {
        valid_graph(id_collections::map_entries(self.ids), self.histories@)
    }

    /// The graph of the given copies.
    pub fn from_related_copies(related: Vec<RelatedCopy>) -> (r: Self)
        ensures
            r@ == collected(related@),
            distinct_ids(r@),
    {
        let n = related.len();
        let ghost all = related@;
        let mut rest = vectors::reversed(related);
        let mut ids = id_collections::new_map();
        let mut histories: Vec<CopyHistory> = Vec::new();
        assert(all.skip(0) =~= all);
        assert(all.take(0) =~= Seq::empty());
        assert(graph_view(id_collections::map_entries(ids), histories@) =~= Seq::empty());
        for i in 0..n
            invariant
                n == all.len(),
                rest@ == all.skip(i as int).reverse(),
                valid_graph(id_collections::map_entries(ids), histories@),
                graph_view(id_collections::map_entries(ids), histories@) == collected(
                    all.take(i as int),
                ),
        {
            let ghost before = rest@;
            assert(before.len() > 0);
            let next = rest.pop();
            proof {
                assert(next == Some(all[i as int]));
                assert(rest@ =~= all.skip(i + 1).reverse());
                assert(all.take(i + 1).drop_last() =~= all.take(i as int));
                assert(all.take(i + 1).last() == all[i as int]);
            }
            if let Some(copy) = next {
                let place = histories.len();
                let ghost entries = id_collections::map_entries(ids);
                let ghost old_histories = histories@;
                id_collections::map_insert(&mut ids, copy.id.to_bytes(), place);
                histories.push(copy.history);
                proof {
                    lemma_graph_insert(
                        entries,
                        old_histories,
                        copy.id@,
                        place,
                        copy.history,
                    );
                }
            }
        }
        assert(all.take(n as int) =~= all);
        let r = CopyGraph { ids, histories };
        assert(distinct_ids(r@)) by {
            let entries = id_collections::map_entries(ids);
            assert forall|i: int, j: int| 0 <= i < j < r@.len() implies (#[trigger] r@[i]).0 != (
            #[trigger] r@[j]).0 by {
                assert(entries[i].0 != entries[j].0);
            }
        }
        r
    }

    /// The number of histories.
    pub fn len(&self) -> (r: usize)
        ensures
            r == self@.len(),
            distinct_ids(self@),
    {
        proof {
            use_type_invariant(self);
            let entries = id_collections::map_entries(self.ids);
            assert forall|i: int, j: int| 0 <= i < j < self@.len() implies (#[trigger] self@[i]).0
                != (#[trigger] self@[j]).0 by {
                assert(entries[i].0 != entries[j].0);
            }
        }
        id_collections::map_len(&self.ids)
    }

    /// The ID and the history with the given index, in order.
    pub fn get_index(&self, index: usize) -> (r: Option<(&Vec<u8>, &CopyHistory)>)
        ensures
            match r {
                Some((id, history)) => index < self@.len() && self@[index as int] == (
                    id@,
                    history@,
                ),
                None => index >= self@.len(),
            },
    {
        proof {
            use_type_invariant(self);
        }
        match id_collections::map_get_index(&self.ids, index) {
            Some((id, place)) => Some((id, &self.histories[place])),
            None => None,
        }
    }

    /// The history with the given ID.
    pub fn get(&self, id: &CopyId) -> (r: Option<&CopyHistory>)
        ensures
            match r {
                Some(history) => listing::lookup(self@, id@) == Some(history@),
                None => listing::lookup(self@, id@) is None,
            },
    {
        self.get_bytes(id.as_bytes())
    }

    /// The history with the given bytes as its ID.
    pub(crate) fn get_bytes(&self, id: &[u8]) -> (r: Option<&CopyHistory>)
        ensures
            match r {
                Some(history) => listing::lookup(self@, id@) == Some(history@),
                None => listing::lookup(self@, id@) is None,
            },
    {
        proof {
            use_type_invariant(self);
            lemma_graph_lookup(id_collections::map_entries(self.ids), self.histories@, id@);
        }
        match id_collections::map_get(&self.ids, id) {
            Some(place) => Some(&self.histories[place]),
            None => None,
        }
    }
}

spec fn valid_graph(entries: Seq<(Seq<u8>, usize)>, histories: Seq<CopyHistory>) -> bool {
    &&& distinct_ids(entries)
    &&& forall|i: int| 0 <= i < entries.len() ==> (#[trigger] entries[i]).1 < histories.len()
}

proof fn lemma_graph_lookup(
    entries: Seq<(Seq<u8>, usize)>,
    histories: Seq<CopyHistory>,
    id: Seq<u8>,
)
    requires
        valid_graph(entries, histories),
    ensures
        match listing::lookup(entries, id) {
            Some(place) => place < histories.len() && listing::lookup(
                graph_view(entries, histories),
                id,
            ) == Some(histories[place as int]@),
            None => listing::lookup(graph_view(entries, histories), id) is None,
        },
{
    let g = graph_view(entries, histories);
    if listing::lookup(entries, id) is Some {
        let i = listing::lemma_lookup_some(entries, id);
        assert(g[i].0 == id);
        let j = listing::lemma_lookup_some(g, id);
        if i < j {
            assert(entries[i].0 != entries[j].0);
        } else if j < i {
            assert(entries[j].0 != entries[i].0);
        }
    } else if listing::lookup(g, id) is Some {
        let j = listing::lemma_lookup_some(g, id);
        assert(entries[j].0 == id);
    }
}

proof fn lemma_graph_insert(
    entries: Seq<(Seq<u8>, usize)>,
    histories: Seq<CopyHistory>,
    id: Seq<u8>,
    place: usize,
    history: CopyHistory,
)
    requires
        valid_graph(entries, histories),
        place == histories.len(),
    ensures
        ({
            let next = id_collections::with_key(entries, id, place);
            &&& valid_graph(next, histories.push(history))
            &&& graph_view(next, histories.push(history)) == id_collections::with_key(
                graph_view(entries, histories),
                id,
                history@,
            )
        }),
{
    let next = id_collections::with_key(entries, id, place);
    let more = histories.push(history);
    let g = graph_view(entries, histories);
    let target = id_collections::with_key(g, id, history@);
    if exists|i: int| 0 <= i < entries.len() && (#[trigger] entries[i]).0 == id {
        let i = choose|i: int| 0 <= i < entries.len() && (#[trigger] entries[i]).0 == id;
        assert(g[i].0 == id);
        let j = choose|j: int| 0 <= j < g.len() && (#[trigger] g[j]).0 == id;
        assert(entries[j].0 == id);
        if i < j {
            assert(entries[i].0 != entries[j].0);
        } else if j < i {
            assert(entries[j].0 != entries[i].0);
        }
        assert forall|k: int| 0 <= k < next.len() implies (#[trigger] next[k]).1 < more.len()
            && next[k].0 == entries[k].0 by {
            if k != i {
                assert(next[k] == entries[k]);
            }
        }
        assert forall|a: int, b: int| 0 <= a < b < next.len() implies (#[trigger] next[a]).0 != (
        #[trigger] next[b]).0 by {
            assert(entries[a].0 != entries[b].0);
        }
        assert forall|k: int| 0 <= k < next.len() implies graph_view(next, more)[k]
            == #[trigger] target[k] by {
            if k != i {
                assert(next[k] == entries[k]);
            }
        }
        assert(graph_view(next, more) =~= target);
    } else {
        assert(!exists|j: int| 0 <= j < g.len() && (#[trigger] g[j]).0 == id) by {
            if exists|j: int| 0 <= j < g.len() && (#[trigger] g[j]).0 == id {
                let j = choose|j: int| 0 <= j < g.len() && (#[trigger] g[j]).0 == id;
                assert(entries[j].0 == id);
            }
        }
        assert forall|k: int| 0 <= k < next.len() implies (#[trigger] next[k]).1 < more.len() by {
            if k < entries.len() {
                assert(next[k] == entries[k]);
            }
        }
        assert forall|a: int, b: int| 0 <= a < b < next.len() implies (#[trigger] next[a]).0 != (
        #[trigger] next[b]).0 by {
            assert(next[a] == entries[a]);
            if b < entries.len() {
                assert(next[b] == entries[b]);
            }
        }
        assert(graph_view(next, more) =~= target);
    }
}

/// Adds an item to a set without duplicates.
pub proof fn lemma_with_item(items: Seq<Seq<u8>>, item: Seq<u8>)
    requires
        distinct_items(items),
    ensures
        distinct_items(id_collections::with_item(items, item)),
        forall|x: Seq<u8>| #[trigger]
            id_collections::with_item(items, item).contains(x) == (items.contains(x) || x == item),
{
    let next = id_collections::with_item(items, item);
    if !items.contains(item) {
        assert forall|i: int, j: int| 0 <= i < j < next.len() implies #[trigger] next[i]
            != #[trigger] next[j] by {
            if j == items.len() {
                assert(items.contains(items[i]));
            }
        }
        assert forall|x: Seq<u8>| #[trigger] next.contains(x) == (items.contains(x) || x
            == item) by {
            if items.contains(x) {
                let i = choose|i: int| 0 <= i < items.len() && items[i] == x;
                assert(next[i] == x);
            }
            if x == item {
                assert(next[items.len() as int] == x);
            }
            if next.contains(x) && x != item {
                let i = choose|i: int| 0 <= i < next.len() && next[i] == x;
                assert(items[i] == x);
            }
        }
    }
}

/// Whether the graph has all parents of an ID and of its ancestors.
pub open spec fn is_closed_from(g: GraphView, start: Seq<u8>) -> bool {
    forall|id: Seq<u8>, j: int|
        is_reachable(g, start, id) && 0 <= j < parents_of(g, id).len() ==> has_id(
            g,
            #[trigger] parents_of(g, id)[j],
        )
}

/// Returns whether `descendant` is a descendant of `ancestor`
pub fn is_ancestor(copies: &CopyGraph, ancestor: &CopyId, descendant: &CopyId) -> (r: bool)
    requires
        has_id(copies@, descendant@),
        is_closed_from(copies@, descendant@),
    ensures
        r == is_reachable(copies@, descendant@, ancestor@),
{
    let ghost g = copies@;
    let ghost start = descendant@;
    let mut work: Vec<Vec<u8>> = Vec::new();
    work.push(descendant.to_bytes());
    let mut visited = id_collections::new_set();
    proof {
        assert(reaches_in(g, start, start, 0));
        assert(work.deep_view()[0] == start) by {
            broadcast use crate::value::lemma_bytes_deep_view;

        }
        assert(work.deep_view().contains(start));
    }
    while work.len() > 0
        invariant
            g == copies@,
            start == descendant@,
            is_closed_from(g, start),
            forall|w: Seq<u8>| #[trigger]
                work.deep_view().contains(w) ==> is_reachable(g, start, w) && has_id(g, w),
            distinct_items(id_collections::set_items(visited)),
            forall|v: Seq<u8>| #[trigger]
                id_collections::set_items(visited).contains(v) ==> is_reachable(g, start, v)
                    && has_id(g, v) && v != ancestor@,
            forall|v: Seq<u8>, j: int|
                id_collections::set_items(visited).contains(v) && 0 <= j < parents_of(g, v).len()
                    ==> id_collections::set_items(visited).contains(
                    #[trigger] parents_of(g, v)[j],
                ) || work.deep_view().contains(parents_of(g, v)[j]),
            id_collections::set_items(visited).contains(start) || work.deep_view().contains(start),
        decreases g.len() - id_collections::set_items(visited).len(), work.len(),
    {
        let ghost before = work.deep_view();
        let ghost seen = id_collections::set_items(visited);
        let popped = work.pop();
        let current = match popped {
            Some(current) => current,
            None => {
                assert(false);
                return false;
            },
        };
        let ghost id = current@;
        proof {
            broadcast use crate::value::lemma_bytes_deep_view;

            assert(before.last() == id);
            assert(before[before.len() - 1] == id);
            assert(before.contains(id));
            assert(work.deep_view() =~= before.drop_last());
            assert forall|w: Seq<u8>| #[trigger] work.deep_view().contains(w) implies before.contains(
                w,
            ) by {
                let i = choose|i: int| 0 <= i < work.deep_view().len() && work.deep_view()[i] == w;
                assert(before[i] == w);
            }
            assert forall|w: Seq<u8>| before.contains(w) && w != id implies #[trigger] work.deep_view().contains(
                w,
            ) by {
                let i = choose|i: int| 0 <= i < before.len() && before[i] == w;
                assert(work.deep_view()[i] == w);
            }
            assert forall|i: int| 0 <= i < seen.len() implies listing::lookup(
                g,
                #[trigger] seen[i],
            ) is Some by {
                assert(seen.contains(seen[i]));
            }
            lemma_distinct_bound(seen, g);
        }
        if !id_collections::set_contains(&visited, current.as_slice()) {
            let history = match copies.get_bytes(current.as_slice()) {
                Some(history) => history,
                None => {
                    assert(false);
                    return false;
                },
            };
            let n = history.parents.len();
            let ghost rest = work.deep_view();
            for j in 0..n
                invariant
                    n == history.parents.len(),
                    history@.parents == parents_of(g, id),
                    work.deep_view() == rest + parents_of(g, id).take(j as int),
            {
                let ghost prior = work.deep_view();
                work.push(history.parents[j].to_bytes());
                proof {
                    broadcast use crate::value::lemma_bytes_deep_view;

                    assert(history@.parents[j as int] == history.parents@[j as int]@);
                    assert(work.deep_view() =~= prior.push(parents_of(g, id)[j as int]));
                    assert(work.deep_view() =~= rest + parents_of(g, id).take(j + 1));
                }
            }
            let found = current.same(&ancestor.to_bytes());
            id_collections::set_insert(&mut visited, current);
            proof {
                broadcast use crate::value::lemma_bytes_deep_view;

                let parents = parents_of(g, id);
                assert(parents.take(n as int) =~= parents);
                let after = work.deep_view();
                let now = id_collections::set_items(visited);
                lemma_with_item(seen, id);
                assert forall|i: int| 0 <= i < now.len() implies listing::lookup(
                    g,
                    #[trigger] now[i],
                ) is Some by {
                    assert(now.contains(now[i]));
                }
                lemma_distinct_bound(now, g);
                assert forall|w: Seq<u8>| #[trigger] after.contains(w) implies is_reachable(
                    g,
                    start,
                    w,
                ) && has_id(g, w) by {
                    let i = choose|i: int| 0 <= i < after.len() && after[i] == w;
                    if i < rest.len() {
                        assert(rest[i] == w);
                        assert(rest.contains(w));
                    } else {
                        let j = i - rest.len();
                        assert(parents[j] == w);
                        lemma_parent_reachable(g, start, id, j);
                    }
                }
                assert forall|w: Seq<u8>| rest.contains(w) implies #[trigger] after.contains(w) by {
                    let i = choose|i: int| 0 <= i < rest.len() && rest[i] == w;
                    assert(after[i] == w);
                }
                assert forall|v: Seq<u8>, j: int|
                    now.contains(v) && 0 <= j < parents_of(g, v).len() implies now.contains(
                    #[trigger] parents_of(g, v)[j],
                ) || after.contains(parents_of(g, v)[j]) by {
                    if v == id {
                        assert(after[rest.len() + j] == parents[j]);
                    } else {
                        assert(seen.contains(v));
                        let p = parents_of(g, v)[j];
                        assert(seen.contains(p) || before.contains(p));
                        if !seen.contains(p) && p != id {
                            assert(rest.contains(p));
                        }
                    }
                }
                assert(found == (id == ancestor@));
            }
            if found {
                return true;
            }
        }
    }
    proof {
        let seen = id_collections::set_items(visited);
        if is_reachable(g, start, ancestor@) {
            let steps = choose|steps: nat| reaches_in(g, start, ancestor@, steps);
            assert(seen.contains(start));
            lemma_reachable_inside(g, seen, start, ancestor@, steps);
        }
    }
    false
}

} // verus!
