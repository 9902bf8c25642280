//! Where a file comes from, by the histories of related copies.

use crate::ancestor_paths;
use crate::backend::BackendError;
use crate::backend::CopyHistoryView;
use crate::backend::RelatedCopy;
use crate::copy_candidates;
use crate::copy_descendants;
use crate::copy_graph;
use crate::copy_graph::GraphView;
use crate::copy_order;
use crate::copy_source::CopySourceView;
use crate::copy_source::SourcesView;
use crate::copy_trace;
use crate::copy_trace::CopyValues;
use crate::copy_trace::FoundView;
use crate::copy_trace::PathValues;
use crate::copy_walk;
use crate::id_collections;
use crate::listing;
use crate::merge;
use crate::merge::SameChange;
use crate::repo_path::PathView;
use crate::tree_value;
use crate::tree_value::MergedValueView;
use crate::tree_value::TreeValueView;
use crate::value_laws;
use vstd::prelude::*;

verus! {

/// Whether the history with the ID lists the other ID among its parents.
pub open spec fn is_parent(g: GraphView, id: Seq<u8>, parent: Seq<u8>) -> bool {
    exists|i: int, j: int|
        0 <= i < g.len() && 0 <= j < g[i].1.parents.len() && g[i].0 == id
            && #[trigger] g[i].1.parents[j] == parent
}

/// Whether all parents of marked IDs are marked.
pub open spec fn marks_parents(g: GraphView, mark: spec_fn(Seq<u8>) -> bool) -> bool {
    forall|id: Seq<u8>, parent: Seq<u8>| #[trigger]
        is_parent(g, id, parent) && mark(id) ==> mark(parent)
}

/// Whether going from an ID to parents leads to `ancestor`: it is marked whenever the ID is
/// and parents of marked IDs are. An ID descends from itself.
pub open spec fn descends_from(g: GraphView, id: Seq<u8>, ancestor: Seq<u8>) -> bool {
    forall|mark: spec_fn(Seq<u8>) -> bool| #[trigger]
        marks_parents(g, mark) && mark(id) ==> mark(ancestor)
}

/// Whether some history has the ID.
pub open spec fn is_known(g: GraphView, id: Seq<u8>) -> bool {
    exists|i: int| 0 <= i < g.len() && (#[trigger] g[i]).0 == id
}

/// The parents of an ID are those that its history lists.
pub proof fn lemma_parents(g: GraphView, id: Seq<u8>, parent: Seq<u8>)
    requires
        copy_graph::distinct_ids(g),
    ensures
        is_parent(g, id, parent) == copy_graph::parents_of(g, id).contains(parent),
{
    let parents = copy_graph::parents_of(g, id);
    if is_parent(g, id, parent) {
        let (i, j) = choose|i: int, j: int|
            0 <= i < g.len() && 0 <= j < g[i].1.parents.len() && g[i].0 == id
                && #[trigger] g[i].1.parents[j] == parent;
        law_history_of_id(g, i);
        assert(parents[j] == parent);
    }
    if parents.contains(parent) {
        let j = choose|j: int| 0 <= j < parents.len() && parents[j] == parent;
        let i = listing::lemma_lookup_some(g, id);
        assert(g[i].1.parents[j] == parent);
    }
}

/// What a graph says about the ID of one of its histories is what that history says.
pub proof fn law_history_of_id(g: GraphView, i: int)
    requires
        copy_graph::distinct_ids(g),
        0 <= i < g.len(),
    ensures
        listing::lookup(g, g[i].0) == Some(g[i].1),
        copy_graph::has_id(g, g[i].0),
        copy_graph::parents_of(g, g[i].0) == g[i].1.parents,
        copy_trace::path_of(g, g[i].0) == g[i].1.current_path,
{
    let id = g[i].0;
    assert(listing::lookup(g, id) is Some);
    let k = listing::lemma_lookup_some(g, id);
    if i < k {
        assert(g[i].0 != g[k].0);
    } else if k < i {
        assert(g[k].0 != g[i].0);
    }
}

/// A graph has an ID if and only if some history has it.
pub proof fn law_known_ids(g: GraphView, id: Seq<u8>)
    ensures
        copy_graph::has_id(g, id) == is_known(g, id),
        listing::lookup(g, id) is Some == is_known(g, id),
{
}

proof fn lemma_marked_ancestor(
    g: GraphView,
    mark: spec_fn(Seq<u8>) -> bool,
    id: Seq<u8>,
    ancestor: Seq<u8>,
    steps: nat,
)
    requires
        copy_graph::distinct_ids(g),
        marks_parents(g, mark),
        mark(id),
        copy_graph::reaches_in(g, id, ancestor, steps),
    ensures
        mark(ancestor),
    decreases steps,
{
    if steps > 0 {
        let parents = copy_graph::parents_of(g, id);
        let j = choose|j: int|
            0 <= j < parents.len() && copy_graph::reaches_in(
                g,
                #[trigger] parents[j],
                ancestor,
                (steps - 1) as nat,
            );
        assert(parents.contains(parents[j]));
        lemma_parents(g, id, parents[j]);
        lemma_marked_ancestor(g, mark, parents[j], ancestor, (steps - 1) as nat);
    }
}

/// An ID is an ancestor of another if and only if going to parents leads to it.
pub proof fn law_ancestors_by_parents(g: GraphView, id: Seq<u8>, ancestor: Seq<u8>)
    requires
        copy_graph::distinct_ids(g),
    ensures
        copy_graph::is_reachable(g, id, ancestor) == descends_from(g, id, ancestor),
        copy_trace::in_line(g, id, ancestor) == (descends_from(g, id, ancestor) || descends_from(
            g,
            ancestor,
            id,
        )),
{
    lemma_ancestors_by_parents(g, id, ancestor);
    lemma_ancestors_by_parents(g, ancestor, id);
}

proof fn lemma_ancestors_by_parents(g: GraphView, id: Seq<u8>, ancestor: Seq<u8>)
    requires
        copy_graph::distinct_ids(g),
    ensures
        copy_graph::is_reachable(g, id, ancestor) == descends_from(g, id, ancestor),
{
    if copy_graph::is_reachable(g, id, ancestor) {
        let steps = choose|steps: nat| copy_graph::reaches_in(g, id, ancestor, steps);
        assert forall|mark: spec_fn(Seq<u8>) -> bool| #[trigger]
            marks_parents(g, mark) && mark(id) implies mark(ancestor) by {
            lemma_marked_ancestor(g, mark, id, ancestor, steps);
        }
    }
    if descends_from(g, id, ancestor) {
        let mark = |x: Seq<u8>| copy_graph::is_reachable(g, id, x);
        assert(marks_parents(g, mark)) by {
            assert forall|x: Seq<u8>, parent: Seq<u8>| #[trigger]
                is_parent(g, x, parent) && mark(x) implies mark(parent) by {
                lemma_parents(g, x, parent);
                let parents = copy_graph::parents_of(g, x);
                let j = choose|j: int| 0 <= j < parents.len() && parents[j] == parent;
                copy_graph::lemma_parent_reachable(g, id, x, j);
            }
        }
        copy_graph::law_ancestors(g, id, id, id);
        assert(mark(id));
        assert(mark(ancestor));
    }
}

proof fn lemma_with_key(
    entries: GraphView,
    key: Seq<u8>,
    value: CopyHistoryView,
    entry: (Seq<u8>, CopyHistoryView),
)
    requires
        copy_graph::distinct_ids(entries),
    ensures
        copy_graph::distinct_ids(id_collections::with_key(entries, key, value)),
        id_collections::with_key(entries, key, value).contains(entry) == (entry == (key, value) || (
        entries.contains(entry) && entry.0 != key)),
{
    let all = id_collections::with_key(entries, key, value);
    if exists|i: int| 0 <= i < entries.len() && (#[trigger] entries[i]).0 == key {
        let place = choose|i: int| 0 <= i < entries.len() && (#[trigger] entries[i]).0 == key;
        assert(all == entries.update(place, (key, value)));
        assert(all[place] == (key, value));
        assert forall|i: int, j: int| 0 <= i < j < all.len() implies (#[trigger] all[i]).0 != (
        #[trigger] all[j]).0 by {
            assert(entries[i].0 != entries[j].0);
        }
        if entries.contains(entry) && entry.0 != key {
            let i = choose|i: int| 0 <= i < entries.len() && entries[i] == entry;
            assert(all[i] == entry);
        }
        if all.contains(entry) && entry != (key, value) {
            let i = choose|i: int| 0 <= i < all.len() && all[i] == entry;
            assert(entries[i] == entry);
            assert(i != place);
            if i < place {
                assert(entries[i].0 != entries[place].0);
            } else {
                assert(entries[place].0 != entries[i].0);
            }
        }
    } else {
        assert(all == entries.push((key, value)));
        assert(all[entries.len() as int] == (key, value));
        assert forall|i: int, j: int| 0 <= i < j < all.len() implies (#[trigger] all[i]).0 != (
        #[trigger] all[j]).0 by {
            assert(all[i] == entries[i]);
            if j < entries.len() {
                assert(all[j] == entries[j]);
            }
        }
        if entries.contains(entry) {
            let i = choose|i: int| 0 <= i < entries.len() && entries[i] == entry;
            assert(all[i] == entry);
        }
        if all.contains(entry) && entry != (key, value) {
            let i = choose|i: int| 0 <= i < all.len() && all[i] == entry;
            assert(entries[i] == entry);
        }
    }
}

/// Whether no later copy has the ID of the one at a place.
pub open spec fn is_last_copy(related: Seq<RelatedCopy>, place: int) -> bool {
    &&& 0 <= place < related.len()
    &&& forall|j: int|
        place < j < related.len() ==> (#[trigger] related[j]).id@ != related[place].id@
}

/// The graph of related copies has no ID twice, and it has the history of the last copy
/// with each ID, and nothing else.
pub proof fn law_collected(related: Seq<RelatedCopy>, entry: (Seq<u8>, CopyHistoryView))
    ensures
        copy_graph::distinct_ids(copy_graph::collected(related)),
        copy_graph::collected(related).contains(entry) == exists|i: int| #[trigger]
            is_last_copy(related, i) && related[i].id@ == entry.0 && related[i].history@
                == entry.1,
    decreases related.len(),
{
    let all = copy_graph::collected(related);
    if related.len() == 0 {
        assert(all =~= Seq::empty());
    } else {
        let fewer = related.drop_last();
        let last = related.last();
        let n = related.len() - 1;
        law_collected(fewer, entry);
        lemma_with_key(copy_graph::collected(fewer), last.id@, last.history@, entry);
        assert(related[n] == last);
        assert(is_last_copy(related, n));
        if copy_graph::collected(fewer).contains(entry) && entry.0 != last.id@ {
            let i = choose|i: int| #[trigger]
                is_last_copy(fewer, i) && fewer[i].id@ == entry.0 && fewer[i].history@ == entry.1;
            assert(related[i] == fewer[i]);
            assert forall|j: int| i < j < related.len() implies (#[trigger] related[j]).id@
                != related[i].id@ by {
                if j < n {
                    assert(related[j] == fewer[j]);
                }
            }
            assert(is_last_copy(related, i));
        }
        if exists|i: int| #[trigger]
            is_last_copy(related, i) && related[i].id@ == entry.0 && related[i].history@
                == entry.1 {
            let i = choose|i: int| #[trigger]
                is_last_copy(related, i) && related[i].id@ == entry.0 && related[i].history@
                    == entry.1;
            if i < n {
                assert(related[n].id@ != related[i].id@);
                assert(fewer[i] == related[i]);
                assert forall|j: int| i < j < fewer.len() implies (#[trigger] fewer[j]).id@
                    != fewer[i].id@ by {
                    assert(related[j] == fewer[j]);
                }
                assert(is_last_copy(fewer, i));
            }
        }
    }
}

proof fn lemma_descendant_places(
    g: GraphView,
    list: Seq<Seq<u8>>,
    id: Seq<u8>,
    n: nat,
    i: int,
    j: int,
) -> (r: (int, int))
    requires
        n <= list.len(),
        0 <= i < j < copy_descendants::descendants_among(g, list, id, n).len(),
    ensures
        0 <= r.0 < r.1 < n,
        list[r.0] == copy_descendants::descendants_among(g, list, id, n)[i],
        list[r.1] == copy_descendants::descendants_among(g, list, id, n)[j],
    decreases n,
{
    let fewer = (n - 1) as nat;
    let before = copy_descendants::descendants_among(g, list, id, fewer);
    if j < before.len() {
        lemma_descendant_places(g, list, id, fewer, i, j)
    } else {
        let a = lemma_descendant_place(g, list, id, fewer, i);
        (a, n - 1)
    }
}

proof fn lemma_descendant_place(
    g: GraphView,
    list: Seq<Seq<u8>>,
    id: Seq<u8>,
    n: nat,
    i: int,
) -> (r: int)
    requires
        n <= list.len(),
        0 <= i < copy_descendants::descendants_among(g, list, id, n).len(),
    ensures
        0 <= r < n,
        list[r] == copy_descendants::descendants_among(g, list, id, n)[i],
    decreases n,
{
    let fewer = (n - 1) as nat;
    let before = copy_descendants::descendants_among(g, list, id, fewer);
    if i < before.len() {
        lemma_descendant_place(g, list, id, fewer, i)
    } else {
        n - 1
    }
}

/// The descendants of an ID are those that descend from it, without the ID itself. They
/// come in an order in which none descends from a later one.
pub proof fn law_descendants_in_order(g: GraphView, id: Seq<u8>)
    requires
        copy_graph::distinct_ids(g),
        copy_graph::is_closed(g),
        copy_graph::is_acyclic(g),
        is_known(g, id),
    ensures
        forall|x: Seq<u8>| #[trigger]
            copy_descendants::descendants_of(g, id).contains(x) == (x != id && is_known(g, x)
                && descends_from(g, x, id)),
        forall|i: int, j: int|
            0 <= i < j < copy_descendants::descendants_of(g, id).len() ==> !descends_from(
                g,
                #[trigger] copy_descendants::descendants_of(g, id)[i],
                #[trigger] copy_descendants::descendants_of(g, id)[j],
            ),
{
    let list = copy_descendants::descendants_of(g, id);
    let all = copy_order::topo_order(g);
    law_known_ids(g, id);
    assert forall|x: Seq<u8>| #[trigger] list.contains(x) == (x != id && is_known(g, x)
        && descends_from(g, x, id)) by {
        copy_descendants::law_descendants(g, id, x);
        law_known_ids(g, x);
        law_ancestors_by_parents(g, x, id);
    }
    copy_order::law_topo_order(g);
    assert forall|i: int, j: int| 0 <= i < j < list.len() implies !descends_from(
        g,
        #[trigger] list[i],
        #[trigger] list[j],
    ) by {
        let (a, b) = lemma_descendant_places(g, all, id, all.len(), i, j);
        lemma_topo_places(g, a, b);
    }
}

proof fn lemma_topo_places(g: GraphView, a: int, b: int)
    requires
        copy_graph::distinct_ids(g),
        copy_graph::is_closed(g),
        copy_graph::is_acyclic(g),
        0 <= a < b < copy_order::topo_order(g).len(),
    ensures
        !descends_from(g, copy_order::topo_order(g)[a], copy_order::topo_order(g)[b]),
{
    let all = copy_order::topo_order(g);
    copy_order::law_topo_order(g);
    let head = all.take(a + 1);
    let mark = |x: Seq<u8>| head.contains(x);
    assert(marks_parents(g, mark)) by {
        assert forall|x: Seq<u8>, parent: Seq<u8>| #[trigger]
            is_parent(g, x, parent) && mark(x) implies mark(parent) by {
            let k = choose|k: int| 0 <= k < head.len() && head[k] == x;
            assert(all[k] == x);
            lemma_parents(g, x, parent);
            let parents = copy_graph::parents_of(g, all[k]);
            let j = choose|j: int| 0 <= j < parents.len() && parents[j] == parent;
            assert(all.take(k).contains(copy_graph::parents_of(g, all[k])[j]));
            let earlier = all.take(k);
            let m = choose|m: int| 0 <= m < earlier.len() && earlier[m] == parent;
            assert(head[m] == parent);
        }
    }
    assert(head[a] == all[a]);
    assert(mark(all[a]));
    if descends_from(g, all[a], all[b]) {
        assert(mark(all[b]));
        let k = choose|k: int| 0 <= k < head.len() && head[k] == all[b];
        assert(all[k] == all[b]);
    }
}

/// The topological order has each ID once, and no ID in it descends from a later one.
pub proof fn law_order_of_ids(g: GraphView, a: int, b: int)
    requires
        copy_graph::distinct_ids(g),
        copy_graph::is_closed(g),
        copy_graph::is_acyclic(g),
        0 <= a < b < copy_order::topo_order(g).len(),
    ensures
        copy_order::topo_order(g)[a] != copy_order::topo_order(g)[b],
        !descends_from(g, copy_order::topo_order(g)[a], copy_order::topo_order(g)[b]),
        is_known(g, copy_order::topo_order(g)[a]),
        forall|id: Seq<u8>| #[trigger] copy_order::topo_order(g).contains(id) == is_known(g, id),
{
    let all = copy_order::topo_order(g);
    copy_order::law_topo_order(g);
    lemma_topo_places(g, a, b);
    assert(all.contains(all[a]));
    assert forall|id: Seq<u8>| #[trigger] all.contains(id) == is_known(g, id) by {
        law_known_ids(g, id);
    }
}

proof fn lemma_contains_concat(a: Seq<Seq<u8>>, b: Seq<Seq<u8>>, x: Seq<u8>)
    ensures
        (a + b).contains(x) == (a.contains(x) || b.contains(x)),
{
    let all = a + b;
    if a.contains(x) {
        let i = choose|i: int| 0 <= i < a.len() && a[i] == x;
        assert(all[i] == x);
    }
    if b.contains(x) {
        let i = choose|i: int| 0 <= i < b.len() && b[i] == x;
        assert(all[a.len() + i] == x);
    }
    if all.contains(x) {
        let i = choose|i: int| 0 <= i < all.len() && all[i] == x;
        if i < a.len() {
            assert(a[i] == x);
        } else {
            assert(b[i - a.len()] == x);
        }
    }
}

proof fn lemma_filter_contains(
    list: Seq<Seq<u8>>,
    keep: spec_fn(Seq<u8>) -> bool,
    x: Seq<u8>,
)
    ensures
        list.filter(keep).contains(x) == (list.contains(x) && keep(x)),
    decreases list.len(),
{
    reveal(Seq::filter);
    if list.len() == 0 {
        assert(list.filter(keep) =~= Seq::empty());
    } else {
        let fewer = list.drop_last();
        lemma_filter_contains(fewer, keep, x);
        assert(list =~= fewer + seq![list.last()]);
        lemma_contains_concat(fewer, seq![list.last()], x);
        assert(seq![list.last()].contains(x) == (x == list.last())) by {
            assert(seq![list.last()][0] == list.last());
        }
        if keep(list.last()) {
            assert(list.filter(keep) =~= fewer.filter(keep) + seq![list.last()]);
            lemma_contains_concat(fewer.filter(keep), seq![list.last()], x);
        }
    }
}

/// Whether an ID descends from the other, and is not the same.
pub open spec fn is_below(g: GraphView, id: Seq<u8>, ancestor: Seq<u8>) -> bool {
    id != ancestor && is_known(g, id) && descends_from(g, id, ancestor)
}

proof fn lemma_side_branches(
    g: GraphView,
    parent: Seq<u8>,
    ancestors: Seq<Seq<u8>>,
    x: Seq<u8>,
)
    requires
        copy_graph::distinct_ids(g),
        copy_graph::is_closed(g),
        copy_graph::is_acyclic(g),
        is_known(g, parent),
        forall|i: int| 0 <= i < ancestors.len() ==> is_known(g, #[trigger] ancestors[i]),
    ensures
        copy_candidates::side_branches(g, parent, ancestors).contains(x) == (!is_below(
            g,
            x,
            parent,
        ) && exists|i: int| 0 <= i < ancestors.len() && is_below(g, x, #[trigger] ancestors[i])),
    decreases ancestors.len(),
{
    if ancestors.len() > 0 {
        let fewer = ancestors.drop_last();
        let last = ancestors.len() - 1;
        assert forall|i: int| 0 <= i < fewer.len() implies is_known(g, #[trigger] fewer[i]) by {
            assert(fewer[i] == ancestors[i]);
        }
        lemma_side_branches(g, parent, fewer, x);
        assert(ancestors[last] == ancestors.last());
        law_descendants_in_order(g, ancestors.last());
        law_descendants_in_order(g, parent);
        let keep = |id: Seq<u8>| !copy_descendants::descendants_of(g, parent).contains(id);
        let more = copy_descendants::descendants_of(g, ancestors.last());
        lemma_filter_contains(more, keep, x);
        lemma_contains_concat(
            copy_candidates::side_branches(g, parent, fewer),
            more.filter(keep),
            x,
        );
        if exists|i: int| 0 <= i < fewer.len() && is_below(g, x, #[trigger] fewer[i]) {
            let i = choose|i: int| 0 <= i < fewer.len() && is_below(g, x, #[trigger] fewer[i]);
            assert(is_below(g, x, ancestors[i]));
        }
        if exists|i: int| 0 <= i < ancestors.len() && is_below(g, x, #[trigger] ancestors[i]) {
            let i = choose|i: int|
                0 <= i < ancestors.len() && is_below(g, x, #[trigger] ancestors[i]);
            if i < last {
                assert(is_below(g, x, fewer[i]));
            }
        }
    } else {
        assert(copy_candidates::side_branches(g, parent, ancestors) =~= Seq::empty());
    }
}

/// A file without parents in its history can come from any of its descendants, and there
/// is one list of these. Otherwise there is one list for each parent, in their order. In
/// it come first the parent and its ancestors, as they are in the graph, then its
/// descendants, and then all others that descend from one of the ancestors, that is the
/// relatives by way of the parent.
pub proof fn law_candidates(g: GraphView, place: int)
    requires
        copy_graph::distinct_ids(g),
        copy_graph::is_closed(g),
        copy_graph::is_acyclic(g),
        copy_walk::children_first(g),
        0 <= place < g.len(),
    ensures
        ({
            let id = g[place].0;
            let parents = g[place].1.parents;
            let lists = copy_candidates::candidates(g, id);
            if parents.len() == 0 {
                lists.len() == 1 && forall|x: Seq<u8>| #[trigger]
                    lists[0].contains(x) == is_below(g, x, id)
            } else {
                lists.len() == parents.len() && forall|k: int|
                    0 <= k < parents.len() ==> lists_relatives(g, #[trigger] parents[k], lists[k])
            }
        }),
{
    let id = g[place].0;
    law_history_of_id(g, place);
    assert(is_known(g, id));
    law_known_ids(g, id);
    let parents = g[place].1.parents;
    let lists = copy_candidates::candidates(g, id);
    if parents.len() == 0 {
        law_descendants_in_order(g, id);
    } else {
        assert forall|k: int| 0 <= k < parents.len() implies lists_relatives(
            g,
            #[trigger] parents[k],
            lists[k],
        ) by {
            assert(copy_graph::has_id(g, copy_graph::parents_of(g, id)[k]));
            law_known_ids(g, parents[k]);
            lemma_relatives(g, parents[k]);
        }
    }
}

/// Whether a list has the relatives by way of a parent in order.
pub open spec fn lists_relatives(g: GraphView, parent: Seq<u8>, list: Seq<Seq<u8>>) -> bool {
    let ids = Seq::new(g.len(), |i: int| g[i].0);
    let line = ids.filter(|x: Seq<u8>| descends_from(g, parent, x));
    exists|end: int|
        {
            &&& line.len() <= end <= list.len()
            &&& list.take(line.len() as int) == line
            &&& forall|x: Seq<u8>|
                (#[trigger] list.subrange(line.len() as int, end)).contains(x) == is_below(
                    g,
                    x,
                    parent,
                )
            &&& forall|x: Seq<u8>|
                (#[trigger] list.skip(end)).contains(x) == (!is_below(g, x, parent) && exists|
                    c: Seq<u8>,
                | #[trigger]
                    descends_from(g, parent, c) && is_known(g, c) && is_below(g, x, c))
        }
}

proof fn lemma_relatives(g: GraphView, parent: Seq<u8>)
    requires
        copy_graph::distinct_ids(g),
        copy_graph::is_closed(g),
        copy_graph::is_acyclic(g),
        copy_walk::children_first(g),
        is_known(g, parent),
    ensures
        lists_relatives(g, parent, copy_candidates::relatives(g, parent)),
{
    let ids = Seq::new(g.len(), |i: int| g[i].0);
    let by_parents = |x: Seq<u8>| descends_from(g, parent, x);
    let line = ids.filter(by_parents);
    copy_walk::law_iterate_ancestors(g, parent, g.len());
    let reaches = |x: Seq<u8>| copy_graph::is_reachable(g, parent, x);
    assert forall|x: Seq<u8>| #[trigger] by_parents(x) == reaches(x) by {
        law_ancestors_by_parents(g, parent, x);
    }
    assert(by_parents =~= reaches);
    let ancestors = copy_walk::listed_ancestors(g, parent, g.len());
    assert(ancestors == line);
    let own = copy_descendants::descendants_of(g, parent);
    let side = copy_candidates::side_branches(g, parent, ancestors);
    let list = copy_candidates::relatives(g, parent);
    let end = (line.len() + own.len()) as int;
    assert(list.take(line.len() as int) =~= line);
    assert(list.subrange(line.len() as int, end) =~= own);
    assert(list.skip(end) =~= side);
    law_descendants_in_order(g, parent);
    assert forall|x: Seq<u8>| line.contains(x) == (is_known(g, x) && descends_from(g, parent, x)) by {
        lemma_filter_contains(ids, by_parents, x);
        if ids.contains(x) {
            let i = choose|i: int| 0 <= i < ids.len() && ids[i] == x;
            assert(g[i].0 == x);
        }
        if is_known(g, x) {
            let i = choose|i: int| 0 <= i < g.len() && (#[trigger] g[i]).0 == x;
            assert(ids[i] == x);
        }
    }
    assert forall|i: int| 0 <= i < ancestors.len() implies is_known(g, #[trigger] ancestors[i]) by {
        assert(line.contains(line[i]));
    }
    assert forall|x: Seq<u8>| side.contains(x) == (!is_below(g, x, parent) && exists|c: Seq<u8>|
     #[trigger]
        descends_from(g, parent, c) && is_known(g, c) && is_below(g, x, c)) by {
        lemma_side_branches(g, parent, ancestors, x);
        if exists|i: int| 0 <= i < ancestors.len() && is_below(g, x, #[trigger] ancestors[i]) {
            let i = choose|i: int|
                0 <= i < ancestors.len() && is_below(g, x, #[trigger] ancestors[i]);
            assert(line.contains(line[i]));
            assert(descends_from(g, parent, ancestors[i]));
        }
        if exists|c: Seq<u8>| #[trigger]
            descends_from(g, parent, c) && is_known(g, c) && is_below(g, x, c) {
            let c = choose|c: Seq<u8>| #[trigger]
                descends_from(g, parent, c) && is_known(g, c) && is_below(g, x, c);
            assert(line.contains(c));
            let i = choose|i: int| 0 <= i < line.len() && line[i] == c;
            assert(is_below(g, x, ancestors[i]));
        }
    }
}

/// Whether the file of the ID at a place is there, and those of the IDs before it are not.
pub open spec fn is_first_file(
    ids: Seq<Seq<u8>>,
    values: CopyValues,
    place: int,
    file: TreeValueView,
) -> bool {
    &&& 0 <= place < ids.len()
    &&& values(ids[place]) == Ok::<Option<TreeValueView>, BackendError>(Some(file))
    &&& forall|i: int|
        0 <= i < place ==> values(#[trigger] ids[i]) == Ok::<Option<TreeValueView>, BackendError>(
            None,
        )
}

/// Whether the file of the ID at a place is not known, and those of the IDs before it are
/// not there.
pub open spec fn is_first_failure(
    ids: Seq<Seq<u8>>,
    values: CopyValues,
    place: int,
    err: BackendError,
) -> bool {
    &&& 0 <= place < ids.len()
    &&& values(ids[place]) == Err::<Option<TreeValueView>, BackendError>(err)
    &&& forall|i: int|
        0 <= i < place ==> values(#[trigger] ids[i]) == Ok::<Option<TreeValueView>, BackendError>(
            None,
        )
}

proof fn lemma_first_present(ids: Seq<Seq<u8>>, values: CopyValues) -> (place: int)
    ensures
        match copy_trace::first_present(ids, values) {
            Ok(Some((id, file))) => is_first_file(ids, values, place, file) && ids[place] == id,
            Ok(None) => forall|i: int|
                0 <= i < ids.len() ==> values(#[trigger] ids[i]) == Ok::<
                    Option<TreeValueView>,
                    BackendError,
                >(None),
            Err(err) => is_first_failure(ids, values, place, err),
        },
    decreases ids.len(),
{
    if ids.len() == 0 {
        0
    } else {
        let fewer = ids.drop_last();
        let place = lemma_first_present(fewer, values);
        assert forall|i: int| 0 <= i < fewer.len() implies fewer[i] == #[trigger] ids[i] by {}
        match copy_trace::first_present(fewer, values) {
            Ok(None) => {
                assert forall|i: int| 0 <= i < fewer.len() implies values(#[trigger] ids[i])
                    == Ok::<Option<TreeValueView>, BackendError>(None) by {
                    assert(values(fewer[i]) == Ok::<Option<TreeValueView>, BackendError>(None));
                }
                ids.len() - 1
            },
            _ => {
                assert forall|i: int| 0 <= i < place implies values(#[trigger] ids[i]) == Ok::<
                    Option<TreeValueView>,
                    BackendError,
                >(None) by {
                    assert(values(fewer[i]) == Ok::<Option<TreeValueView>, BackendError>(None));
                }
                place
            },
        }
    }
}

/// The sources come from the lists one after the other. A list adds the file of the first
/// of its IDs that is there, with the path of its history, and nothing if none is. The
/// first lookup that fails decides.
pub proof fn law_sources_in_turn(
    g: GraphView,
    lists: Seq<Seq<Seq<u8>>>,
    list: Seq<Seq<u8>>,
    values: CopyValues,
    place: int,
    file: TreeValueView,
    err: BackendError,
)
    ensures
        copy_trace::found_sources(g, Seq::empty(), values) == Ok::<FoundView, BackendError>(
            Seq::empty(),
        ),
        ({
            let before = copy_trace::found_sources(g, lists, values);
            let all = copy_trace::found_sources(g, lists.push(list), values);
            &&& before is Err ==> all == before
            &&& before is Ok && is_first_file(list, values, place, file) && is_known(
                g,
                list[place],
            ) ==> all is Ok && all->Ok_0.len() == before->Ok_0.len() + 1 && all->Ok_0.drop_last()
                == before->Ok_0 && all->Ok_0.last().1 == file && has_path(
                g,
                list[place],
                all->Ok_0.last().0,
            )
            &&& before is Ok && is_first_failure(list, values, place, err) ==> all == Err::<
                FoundView,
                BackendError,
            >(err)
            &&& before is Ok && (forall|i: int|
                0 <= i < list.len() ==> values(#[trigger] list[i]) == Ok::<
                    Option<TreeValueView>,
                    BackendError,
                >(None)) ==> all == before
        }),
{
    let more = lists.push(list);
    assert(more.drop_last() =~= lists);
    assert(more.last() == list);
    let found = lemma_first_present(list, values);
    let before = copy_trace::found_sources(g, lists, values);
    let all = copy_trace::found_sources(g, more, values);
    if before is Ok && is_first_file(list, values, place, file) {
        if found < place {
            assert(values(list[found]) == Ok::<Option<TreeValueView>, BackendError>(None));
        } else if place < found {
            assert(values(list[place]) == Ok::<Option<TreeValueView>, BackendError>(None));
        }
        assert(all->Ok_0.drop_last() =~= before->Ok_0);
        if is_known(g, list[place]) {
            let k = listing::lemma_lookup_some(g, list[place]);
            assert(g[k].0 == list[place]);
        }
    }
    if before is Ok && is_first_failure(list, values, place, err) {
        if found < place {
            assert(values(list[found]) == Ok::<Option<TreeValueView>, BackendError>(None));
        } else if place < found {
            assert(values(list[place]) == Ok::<Option<TreeValueView>, BackendError>(None));
        }
    }
}

/// Whether a history with the ID has the path.
pub open spec fn has_path(g: GraphView, id: Seq<u8>, path: PathView) -> bool {
    exists|i: int|
        0 <= i < g.len() && (#[trigger] g[i]).0 == id && g[i].1.current_path == path
}

/// The copy IDs of the files of a merged value, where there are files.
pub open spec fn file_copy_ids(value: MergedValueView) -> Seq<Option<Seq<u8>>> {
    Seq::new(
        value.len(),
        |i: int|
            match value[i] {
                Some(TreeValueView::File { copy_id, .. }) => Some(copy_id),
                _ => None,
            },
    )
}

/// Whether what is at a path still has a file in line with a history: it has nothing but
/// files, and the copy IDs of these come to one that is an ancestor or a descendant of the
/// history, or the history itself.
pub open spec fn is_still_there(g: GraphView, before: Seq<u8>, value: MergedValueView) -> bool {
    &&& forall|i: int|
        0 <= i < value.len() ==> (#[trigger] value[i] is None || value[i]->0 is File)
    &&& match merge::trivial_resolution(file_copy_ids(value), SameChange::Accept) {
        Some(Some(id)) => descends_from(g, before, id) || descends_from(g, id, before),
        _ => false,
    }
}

/// The sources that were found are used in turn. One at the path of the file itself, in
/// line with its history, is the file before the change. Another was copied if a file in
/// line with its history is still at its path, and renamed if not. Each has the file that
/// was found as its value.
pub proof fn law_use_of_source(
    g: GraphView,
    place: int,
    found: FoundView,
    path: PathView,
    file: TreeValueView,
    values: PathValues,
)
    requires
        copy_graph::distinct_ids(g),
        0 <= place < g.len(),
        file is File,
        values(path) is Ok ==> values(path)->Ok_0.len() > 0,
    ensures
        ({
            let id = g[place].0;
            let before = copy_trace::classified(g, id, found, values);
            let all = copy_trace::classified(g, id, found.push((path, file)), values);
            let copy_id = file->File_copy_id;
            let is_same = path == g[place].1.current_path && (descends_from(g, id, copy_id)
                || descends_from(g, copy_id, id));
            match before {
                Err(_) => all == before,
                Ok(sources) => if is_same {
                    all is Ok && all->Ok_0 == sources.push(
                        (CopySourceView::Normal, seq![Some(file)]),
                    )
                } else {
                    match values(path) {
                        Err(err) => all is Err && all->Err_0 == err,
                        Ok(value) => all is Ok && all->Ok_0 == sources.push(
                            (
                                if is_still_there(g, copy_id, value) {
                                    CopySourceView::Copy(path)
                                } else {
                                    CopySourceView::Rename(path)
                                },
                                seq![Some(file)],
                            ),
                        ),
                    }
                },
            }
        }),
        copy_trace::classified(g, g[place].0, Seq::empty(), values) is Ok,
        copy_trace::classified(g, g[place].0, Seq::empty(), values)->Ok_0.len() == 0,
{
    let id = g[place].0;
    let more = found.push((path, file));
    assert(more.drop_last() =~= found);
    assert(more.last() == (path, file));
    let copy_id = file->File_copy_id;
    law_history_of_id(g, place);
    law_ancestors_by_parents(g, id, copy_id);
    if let Ok(value) = values(path) {
        value_laws::law_kinds_of_values(value);
        if tree_value::only_files(value) {
            assert forall|i: int| 0 <= i < value.len() implies (#[trigger] value[i] is None
                || value[i]->0 is File) by {}
            assert(tree_value::copy_ids(value) =~= file_copy_ids(value));
            if let Some(Some(kept)) = merge::trivial_resolution(
                file_copy_ids(value),
                SameChange::Accept,
            ) {
                law_ancestors_by_parents(g, copy_id, kept);
            }
        } else {
            let i = choose|i: int|
                0 <= i < value.len() && !match #[trigger] value[i] {
                    Some(TreeValueView::File { .. }) => true,
                    Some(_) => false,
                    None => true,
                };
            assert(!(value[i] is None || value[i]->0 is File));
        }
    }
}

/// A value can be traced if it is resolved to a file with a copy ID that is not the
/// placeholder, and it is traced by that.
pub proof fn law_traceable_values(value: MergedValueView)
    ensures
        ancestor_paths::traceable_id(value) == if value.len() == 1 && value[0] is Some
            && value[0]->0 is File && value[0]->0->File_copy_id.len() > 0 {
            Some(value[0]->0->File_copy_id)
        } else {
            None
        },
{
    if value.len() == 1 && value[0] is Some && value[0]->0 is File {
        let id = value[0]->0->File_copy_id;
        assert(id.len() == 0 ==> id =~= Seq::<u8>::empty());
    }
}

/// The paths of the ancestors of a path in the terms of a merge. What counts is the value
/// in the first term where the path is present. If that is no file that can be traced, or
/// if there is no such term, there are none. Otherwise they are the paths of the
/// histories, in the order of the graph, from which the file descends, other than its
/// own, and whose files are in some term.
pub proof fn law_paths_of_ancestors(
    presence: Seq<Set<PathView>>,
    values: ancestor_paths::TermValues,
    copies: ancestor_paths::RelatedCopies,
    files: ancestor_paths::TermFiles,
    path: PathView,
    term: int,
    file: TreeValueView,
)
    ensures
        (forall|j: int| 0 <= j < presence.len() ==> !(#[trigger] presence[j]).contains(path))
            ==> ancestor_paths::ancestor_list(presence, values, copies, files, path).len() == 0,
        ({
            let is_first = {
                &&& 0 <= term < presence.len()
                &&& presence[term].contains(path)
                &&& forall|j: int| 0 <= j < term ==> !(#[trigger] presence[j]).contains(path)
            };
            let value = values(term, path);
            let id = file->File_copy_id;
            let g = copies(id);
            let list = ancestor_paths::ancestor_list(presence, values, copies, files, path);
            let traced = file is File && id.len() > 0;
            &&& is_first && (value.len() != 1 || value[0] is None || value[0] == Some(file))
                && !(value == seq![Some(file)] && traced) ==> list.len() == 0
            &&& is_first && value == seq![Some(file)] && traced && copy_graph::distinct_ids(g)
                && copy_walk::children_first(g) ==> list == Seq::new(
                g.len(),
                |i: int| g[i].0,
            ).filter(|a: Seq<u8>| a != id && descends_from(g, id, a)).filter(
                |a: Seq<u8>| exists|j: int| 0 <= j < presence.len() && #[trigger] files(j, a),
            ).map_values(|a: Seq<u8>| copy_trace::path_of(g, a))
        }),
{
    let is_first = {
        &&& 0 <= term < presence.len()
        &&& presence[term].contains(path)
        &&& forall|j: int| 0 <= j < term ==> !(#[trigger] presence[j]).contains(path)
    };
    if is_first {
        assert(ancestor_paths::is_first_term(presence, path, term));
        ancestor_paths::lemma_first_term(presence, path, term);
        let value = values(term, path);
        let id = file->File_copy_id;
        let g = copies(id);
        law_traceable_values(value);
        if value.len() == 1 {
            assert(value =~= seq![value[0]]);
        }
        if value == seq![Some(file)] && file is File && id.len() > 0 && copy_graph::distinct_ids(g)
            && copy_walk::children_first(g) {
            assert(value[0] == Some(file));
            ancestor_paths::law_listed_ancestors(presence, values, copies, files, path, term, id);
            let a = |x: Seq<u8>| x != id && copy_graph::is_reachable(g, id, x);
            let b = |x: Seq<u8>| x != id && descends_from(g, id, x);
            assert forall|x: Seq<u8>| #[trigger] a(x) == b(x) by {
                law_ancestors_by_parents(g, id, x);
            }
            assert(a =~= b);
            let c = |x: Seq<u8>|
                ancestor_paths::in_some_term(files, presence.len() as int, x);
            let d = |x: Seq<u8>| exists|j: int| 0 <= j < presence.len() && #[trigger] files(j, x);
            assert(c =~= d);
        }
    }
}

/// What is now at the path of a source tells how it was used if it has nothing but files,
/// and if the copy IDs of these come to none at all or to one that is known.
pub proof fn law_telling_values(g: GraphView, value: MergedValueView)
    requires
        value.len() > 0,
    ensures
        copy_trace::tells_source(g, value) == {
            &&& forall|i: int|
                0 <= i < value.len() ==> (#[trigger] value[i] is None || value[i]->0 is File)
            &&& match merge::trivial_resolution(file_copy_ids(value), SameChange::Accept) {
                Some(Some(id)) => is_known(g, id),
                Some(None) => true,
                None => false,
            }
        },
{
    value_laws::law_kinds_of_values(value);
    if tree_value::only_files(value) {
        assert forall|i: int| 0 <= i < value.len() implies (#[trigger] value[i] is None
            || value[i]->0 is File) by {}
        assert(tree_value::copy_ids(value) =~= file_copy_ids(value));
    } else {
        let i = choose|i: int|
            0 <= i < value.len() && !match #[trigger] value[i] {
                Some(TreeValueView::File { .. }) => true,
                Some(_) => false,
                None => true,
            };
        assert(!(value[i] is None || value[i]->0 is File));
    }
}

/// The difference that a traced file makes has one term, with the file as its target.
pub proof fn law_traced_file(file: TreeValueView, sources: SourcesView)
    ensures
        copy_trace::traced_terms(file, sources).len() == 1,
        copy_trace::traced_terms(file, sources)[0].target_value == Some(file),
        copy_trace::traced_terms(file, sources)[0].sources == sources,
{
}

} // verus!
