//! The histories that a file can have been copied or renamed from.

use crate::backend::CopyId;
use crate::copy_descendants;
use crate::copy_descendants::CopyDescendants;
use crate::copy_graph;
use crate::copy_graph::CopyGraph;
use crate::copy_graph::GraphView;
use crate::copy_order;
use crate::copy_walk;
use crate::id_collections;
use crate::listing;
use crate::value::Value;
use vstd::prelude::*;

verus! {

/// The descendants of the given ancestors that are not descendants of `parent`,
/// ancestor by ancestor.
pub open spec fn side_branches(g: GraphView, parent: Seq<u8>, ancestors: Seq<Seq<u8>>) -> Seq<
    Seq<u8>,
>
    decreases ancestors.len(),
{
    if ancestors.len() == 0 {
        Seq::empty()
    } else {
        side_branches(g, parent, ancestors.drop_last()) + copy_descendants::descendants_of(
            g,
            ancestors.last(),
        ).filter(|id: Seq<u8>| !copy_descendants::descendants_of(g, parent).contains(id))
    }
}

/// The histories that a file can come from by way of a parent, in the order in
/// which they are tried: the parent and its ancestors, its descendants, and the
/// other descendants of the ancestors.
pub open spec fn relatives(g: GraphView, parent: Seq<u8>) -> Seq<Seq<u8>> {
    let ancestors = copy_walk::listed_ancestors(g, parent, g.len());
    ancestors + copy_descendants::descendants_of(g, parent) + side_branches(g, parent, ancestors)
}

/// The histories that a file can come from: of each list, the first one that is
/// there. There is a list for each parent. Without parents, there is one with the
/// descendants, which handles the reverse of a rename.
pub open spec fn candidates(g: GraphView, id: Seq<u8>) -> Seq<Seq<Seq<u8>>> {
    let parents = copy_graph::parents_of(g, id);
    if parents.len() == 0 {
        seq![copy_descendants::descendants_of(g, id)]
    } else {
        Seq::new(parents.len(), |i: int| relatives(g, parents[i]))
    }
}

/// Whether the graph has all IDs of a list.
pub open spec fn all_in_graph(g: GraphView, ids: Seq<Seq<u8>>) -> bool {
    forall|i: int| 0 <= i < ids.len() ==> copy_graph::has_id(g, #[trigger] ids[i])
}

proof fn lemma_ancestors_in_graph(g: GraphView, initial: Seq<u8>, n: nat)
    requires
        copy_graph::distinct_ids(g),
        n <= g.len(),
    ensures
        all_in_graph(g, copy_walk::listed_ancestors(g, initial, n)),
    decreases n,
{
    if n > 0 {
        lemma_ancestors_in_graph(g, initial, (n - 1) as nat);
        copy_walk::lemma_lookup_distinct(g, n - 1);
    }
}

proof fn lemma_descendants_in_graph(g: GraphView, id: Seq<u8>)
    requires
        copy_graph::is_closed(g),
        copy_graph::is_acyclic(g),
    ensures
        all_in_graph(g, copy_descendants::descendants_of(g, id)),
{
    let all = copy_order::topo_order(g);
    copy_order::law_topo_order(g);
    lemma_descendants_among_in_graph(g, all, id, all.len());
}

proof fn lemma_descendants_among_in_graph(
    g: GraphView,
    list: Seq<Seq<u8>>,
    id: Seq<u8>,
    n: nat,
)
    requires
        n <= list.len(),
        all_in_graph(g, list),
    ensures
        all_in_graph(g, copy_descendants::descendants_among(g, list, id, n)),
    decreases n,
{
    if n > 0 {
        lemma_descendants_among_in_graph(g, list, id, (n - 1) as nat);
    }
}

proof fn lemma_filter_in_graph(
    g: GraphView,
    ids: Seq<Seq<u8>>,
    keep: spec_fn(Seq<u8>) -> bool,
)
    requires
        all_in_graph(g, ids),
    ensures
        all_in_graph(g, ids.filter(keep)),
    decreases ids.len(),
{
    reveal(Seq::filter);
    if ids.len() > 0 {
        lemma_filter_in_graph(g, ids.drop_last(), keep);
    }
}

proof fn lemma_side_branches_in_graph(g: GraphView, parent: Seq<u8>, ancestors: Seq<Seq<u8>>)
    requires
        copy_graph::is_closed(g),
        copy_graph::is_acyclic(g),
    ensures
        all_in_graph(g, side_branches(g, parent, ancestors)),
    decreases ancestors.len(),
{
    if ancestors.len() > 0 {
        lemma_side_branches_in_graph(g, parent, ancestors.drop_last());
        lemma_descendants_in_graph(g, ancestors.last());
        lemma_filter_in_graph(
            g,
            copy_descendants::descendants_of(g, ancestors.last()),
            |id: Seq<u8>| !copy_descendants::descendants_of(g, parent).contains(id),
        );
    }
}

/// Every history that is tried is in the graph.
pub proof fn law_candidates_in_graph(g: GraphView, id: Seq<u8>)
    requires
        copy_graph::is_closed(g),
        copy_graph::is_acyclic(g),
        copy_graph::distinct_ids(g),
    ensures
        forall|i: int|
            0 <= i < candidates(g, id).len() ==> all_in_graph(g, #[trigger] candidates(g, id)[i]),
{
    let parents = copy_graph::parents_of(g, id);
    lemma_descendants_in_graph(g, id);
    assert forall|i: int| 0 <= i < candidates(g, id).len() implies all_in_graph(
        g,
        #[trigger] candidates(g, id)[i],
    ) by {
        if parents.len() > 0 {
            let ancestors = copy_walk::listed_ancestors(g, parents[i], g.len());
            lemma_ancestors_in_graph(g, parents[i], g.len());
            lemma_descendants_in_graph(g, parents[i]);
            lemma_side_branches_in_graph(g, parents[i], ancestors);
        }
    }
}

fn push_ids(out: &mut Vec<CopyId>, ids: Vec<Vec<u8>>)
    ensures
        final(out).deep_view() == old(out).deep_view() + ids.deep_view(),
{
    let ghost before = out.deep_view();
    let n = ids.len();
    assert(ids.deep_view().take(0) =~= Seq::empty());
    for i in 0..n
        invariant
            n == ids.len(),
            out.deep_view() == before + ids.deep_view().take(i as int),
    {
        broadcast use crate::value::lemma_bytes_deep_view;

        let ghost now = out.deep_view();
        out.push(CopyId::new(ids[i].dup()));
        assert(out.deep_view() =~= now.push(ids.deep_view()[i as int]));
        assert(ids.deep_view().take(i + 1) =~= ids.deep_view().take(i as int).push(
            ids.deep_view()[i as int],
        ));
    }
    assert(ids.deep_view().take(n as int) =~= ids.deep_view());
}

/// The IDs of a set, in order.
fn set_ids(set: &id_collections::IdSet) -> (r: Vec<CopyId>)
    ensures
        r.deep_view() == id_collections::set_items(*set),
{
    let ghost items = id_collections::set_items(*set);
    let n = id_collections::set_len(set);
    let mut out: Vec<CopyId> = Vec::new();
    for i in 0..n
        invariant
            items == id_collections::set_items(*set),
            n == items.len(),
            out.deep_view() == items.take(i as int),
    {
        broadcast use crate::value::lemma_bytes_deep_view;

        let ghost now = out.deep_view();
        if let Some(item) = id_collections::set_get_index(set, i) {
            out.push(CopyId::new(item.dup()));
            assert(out.deep_view() =~= now.push(items[i as int]));
            assert(items.take(i + 1) =~= items.take(i as int).push(items[i as int]));
        }
    }
    assert(items.take(n as int) =~= items);
    out
}

fn find_relatives(copies: &CopyGraph, descendants: &CopyDescendants, parent: &CopyId) -> (r: Vec<
    CopyId,
>)
    requires
        copy_graph::is_closed(copies@),
        copy_graph::is_acyclic(copies@),
        copy_graph::has_id(copies@, parent@),
        copy_descendants::lists_descendants(descendants@, copies@),
    ensures
        r.deep_view() == relatives(copies@, parent@),
{
    let ghost g = copies@;
    let _n = copies.len();
    // First, try to find the parent or a direct ancestor in the tree
    let mut out = copy_walk::iterate_ancestors(copies, parent);
    let ancestors = out.dup();
    let ghost list = ancestors.deep_view();
    proof {
        lemma_ancestors_in_graph(g, parent@, g.len());
        assert(listing::lookup(descendants@, parent@) == Some(
            copy_descendants::descendants_of(g, parent@),
        ));
    }
    let own = match descendants.get(parent) {
        Some(own) => own,
        None => {
            assert(false);
            return out;
        },
    };
    // If not, then try descendants of the parent
    let own_ids = set_ids(own);
    let ghost before = out.deep_view();
    let mut i: usize = 0;
    while i < own_ids.len()
        invariant
            i <= own_ids.len(),
            out.deep_view() == before + own_ids.deep_view().take(i as int),
        decreases own_ids.len() - i,
    {
        let ghost now = out.deep_view();
        out.push(own_ids[i].dup());
        proof {
            assert(out.deep_view() =~= now.push(own_ids.deep_view()[i as int]));
            assert(own_ids.deep_view().take(i + 1) =~= own_ids.deep_view().take(i as int).push(
                own_ids.deep_view()[i as int],
            ));
        }
        i = i + 1;
    }
    assert(own_ids.deep_view().take(i as int) =~= own_ids.deep_view());
    // Finally, try descendants of any ancestor
    let m = ancestors.len();
    let ghost start = out.deep_view();
    assert(side_branches(g, parent@, list.take(0)) =~= Seq::empty());
    for k in 0..m
        invariant
            g == copies@,
            m == ancestors.len(),
            list == ancestors.deep_view(),
            all_in_graph(g, list),
            id_collections::set_items(*own) == copy_descendants::descendants_of(g, parent@),
            copy_descendants::lists_descendants(descendants@, g),
            out.deep_view() == start + side_branches(g, parent@, list.take(k as int)),
    {
        let ghost ancestor = list[k as int];
        proof {
            assert(ancestor == ancestors@[k as int]@);
            assert(copy_graph::has_id(g, list[k as int]));
            assert(listing::lookup(descendants@, ancestor) == Some(
                copy_descendants::descendants_of(g, ancestor),
            ));
        }
        if let Some(others) = descendants.get(&ancestors[k]) {
            let ghost now = out.deep_view();
            let more = id_collections::set_difference(others, own);
            push_ids(&mut out, more);
            proof {
                let prefix = list.take(k + 1);
                assert(prefix.drop_last() =~= list.take(k as int));
                assert(prefix.last() == ancestor);
                assert((|item: Seq<u8>| !id_collections::set_items(*own).contains(item))
                    =~= (|id: Seq<u8>|
                    !copy_descendants::descendants_of(g, parent@).contains(id)));
                assert(out.deep_view() =~= start + side_branches(g, parent@, prefix));
            }
        }
    }
    assert(list.take(m as int) =~= list);
    assert(out.deep_view() =~= relatives(g, parent@));
    out
}

pub(crate) fn find_candidates(copies: &CopyGraph, descendants: &CopyDescendants, id: &CopyId) -> (r: Vec<
    Vec<CopyId>,
>)
    requires
        copy_graph::is_closed(copies@),
        copy_graph::is_acyclic(copies@),
        copy_graph::has_id(copies@, id@),
        copy_descendants::lists_descendants(descendants@, copies@),
    ensures
        r.deep_view() == candidates(copies@, id@),
{
    let ghost g = copies@;
    let mut out: Vec<Vec<CopyId>> = Vec::new();
    let history = match copies.get(id) {
        Some(history) => history,
        None => {
            assert(false);
            return out;
        },
    };
    let n = history.parents.len();
    let ghost parents = copy_graph::parents_of(g, id@);
    assert(parents == history@.parents);
    if n == 0 {
        assert(listing::lookup(descendants@, id@) is Some);
        if let Some(own) = descendants.get(id) {
            out.push(set_ids(own));
        }
        assert(out.deep_view() =~= candidates(g, id@));
        return out;
    }
    for i in 0..n
        invariant
            g == copies@,
            n == history.parents.len(),
            parents == history@.parents,
            parents == copy_graph::parents_of(g, id@),
            copy_graph::is_closed(g),
            copy_graph::is_acyclic(g),
            copy_descendants::lists_descendants(descendants@, g),
            out.len() == i,
            forall|j: int|
                0 <= j < i ==> (#[trigger] out@[j]).deep_view() == relatives(g, parents[j]),
    {
        assert(history.parents@[i as int]@ == parents[i as int]);
        assert(copy_graph::has_id(g, copy_graph::parents_of(g, id@)[i as int]));
        out.push(find_relatives(copies, descendants, &history.parents[i]));
    }
    assert(out.deep_view() =~= candidates(g, id@));
    out
}

} // verus!
