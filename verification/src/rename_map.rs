//! Renames between the terms of a merge.

use crate::merge;
use crate::merge::Merge;
use crate::order;
use crate::path_groups;
use crate::path_groups::LinkView;
use crate::path_map::PathMap;
use crate::path_map::PathSet;
use crate::presence_fill;
use crate::presence_fill::PresenceFill;
use crate::rename_scan;
use crate::rename_scan::RenameFacts;
use crate::rename_scan::RenameFactsModel;
use crate::rename_scan::RenameMap;
use crate::repo_path::PathView;
use crate::repo_path::RepoPathBuf;
use crate::value::Value;
use vstd::prelude::*;

verus! {

/// In how many merge terms something was renamed from the path.
pub open spec fn rename_count(renamed_from: Seq<Set<PathView>>, path: PathView) -> nat
    decreases renamed_from.len(),
{
    if renamed_from.len() == 0 {
        0
    } else {
        let before = rename_count(renamed_from.drop_last(), path);
        if renamed_from.last().contains(path) {
            before + 1
        } else {
            before
        }
    }
}

/// Whether the path is present in one of the positive terms and nothing was
/// renamed from it. Active paths are the candidates for existing in the merged
/// output.
pub open spec fn is_active(facts: RenameFactsModel, path: PathView) -> bool {
    &&& rename_count(facts.renamed_from, path) == 0
    &&& exists|j: int|
        0 <= j < facts.presence.len() && j % 2 == 0 && (#[trigger] facts.presence[j]).contains(
            path,
        )
}

/// Whether both paths are mentioned and related to each other.
pub open spec fn in_same_group(facts: RenameFactsModel, a: PathView, b: PathView) -> bool {
    &&& facts.mentioned.contains(a)
    &&& facts.mentioned.contains(b)
    &&& path_groups::label(facts.links, a) == path_groups::label(facts.links, b)
}

/// Whether there are other paths in the group of a path.
pub open spec fn has_relatives(facts: RenameFactsModel, path: PathView) -> bool {
    exists|q: PathView| q != path && #[trigger] in_same_group(facts, path, q)
}

/// Whether a path of the group was renamed from in several terms.
pub open spec fn has_divergent_rename(facts: RenameFactsModel, path: PathView) -> bool {
    exists|q: PathView| #[trigger]
        in_same_group(facts, path, q) && rename_count(facts.renamed_from, q) >= 2
}

/// The first of the paths that is in the set.
pub open spec fn first_in(paths: Seq<PathView>, set: Set<PathView>) -> Option<PathView>
    decreases paths.len(),
{
    if paths.len() == 0 {
        None
    } else {
        match first_in(paths.drop_last(), set) {
            Some(path) => Some(path),
            None => if set.contains(paths.last()) {
                Some(paths.last())
            } else {
                None
            },
        }
    }
}

/// Whether `first` is the first path of the group of `path` that is present in the
/// term.
pub open spec fn is_first_in_group(
    facts: RenameFactsModel,
    path: PathView,
    term: int,
    first: PathView,
) -> bool {
    &&& in_same_group(facts, path, first)
    &&& facts.presence[term].contains(first)
    &&& forall|q: PathView| #[trigger]
        in_same_group(facts, path, q) && facts.presence[term].contains(q) ==> q == first
            || order::path_less(first, q)
}

/// The first path of the group of `path` that is present in the term.
pub open spec fn first_in_group(facts: RenameFactsModel, path: PathView, term: int) -> Option<
    PathView,
> {
    if exists|first: PathView| is_first_in_group(facts, path, term, first) {
        Some(choose|first: PathView| is_first_in_group(facts, path, term, first))
    } else {
        None
    }
}

/// The path that an active path has in a term: the path itself if it is present.
/// If there are divergent renames, else the first of its ancestors that is present,
/// and if not, the first path of its group that is present.
pub open spec fn path_in_term(
    facts: RenameFactsModel,
    ancestors: Seq<PathView>,
    path: PathView,
    term: int,
) -> Option<PathView> {
    if facts.presence[term].contains(path) {
        Some(path)
    } else if has_divergent_rename(facts, path) {
        first_in(ancestors, facts.presence[term])
    } else {
        first_in_group(facts, path, term)
    }
}

/// What a path is mapped to: an active path to its path in each term, and another
/// path to nothing. A path without relatives is not mapped.
pub open spec fn rename_entry(
    facts: RenameFactsModel,
    ancestors: Seq<PathView>,
    path: PathView,
) -> Option<Seq<Option<PathView>>> {
    if !has_relatives(facts, path) {
        None
    } else if is_active(facts, path) {
        Some(
            Seq::new(
                facts.presence.len(),
                |j: int| path_in_term(facts, ancestors, path, j),
            ),
        )
    } else {
        Some(merge::absent_terms())
    }
}

/// The paths with the given label among the first `n` paths.
pub open spec fn members(
    links: Seq<LinkView>,
    paths: Seq<PathView>,
    root: PathView,
    n: nat,
) -> Seq<PathView>
    decreases n,
{
    if n == 0 {
        Seq::empty()
    } else {
        let before = members(links, paths, root, (n - 1) as nat);
        if path_groups::label(links, paths[n - 1]) == root {
            before.push(paths[n - 1])
        } else {
            before
        }
    }
}

proof fn lemma_members(links: Seq<LinkView>, paths: Seq<PathView>, root: PathView, n: nat)
    requires
        n <= paths.len(),
        forall|i: int, j: int|
            0 <= i < j < paths.len() ==> order::path_less(
                #[trigger] paths[i],
                #[trigger] paths[j],
            ),
    ensures
        forall|p: PathView| #[trigger]
            members(links, paths, root, n).contains(p) == (path_groups::label(links, p) == root
                && paths.take(n as int).contains(p)),
        forall|i: int, j: int|
            0 <= i < j < members(links, paths, root, n).len() ==> order::path_less(
                #[trigger] members(links, paths, root, n)[i],
                #[trigger] members(links, paths, root, n)[j],
            ),
    decreases n,
{
    if n > 0 {
        let fewer = (n - 1) as nat;
        lemma_members(links, paths, root, fewer);
        let before = members(links, paths, root, fewer);
        let after = members(links, paths, root, n);
        let last = paths[n - 1];
        assert forall|p: PathView| #[trigger] after.contains(p) == (path_groups::label(links, p)
            == root && paths.take(n as int).contains(p)) by {
            assert(before.contains(p) == (path_groups::label(links, p) == root && paths.take(
                fewer as int,
            ).contains(p)));
            if before.contains(p) {
                let i = choose|i: int| 0 <= i < before.len() && before[i] == p;
                assert(after[i] == p);
            }
            if paths.take(fewer as int).contains(p) {
                let i = choose|i: int| 0 <= i < fewer && paths.take(fewer as int)[i] == p;
                assert(paths.take(n as int)[i] == p);
            }
            if paths.take(n as int).contains(p) {
                let i = choose|i: int| 0 <= i < n && paths.take(n as int)[i] == p;
                if i < fewer {
                    assert(paths.take(fewer as int)[i] == p);
                } else {
                    assert(p == last);
                    if path_groups::label(links, p) == root {
                        assert(after[after.len() - 1] == p);
                    }
                }
            }
            if after.contains(p) && !before.contains(p) {
                let i = choose|i: int| 0 <= i < after.len() && after[i] == p;
                if i < before.len() {
                    assert(before[i] == p);
                }
                assert(p == last);
                assert(paths.take(n as int)[n - 1] == p);
            }
        }
        assert forall|i: int, j: int| 0 <= i < j < after.len() implies order::path_less(
            #[trigger] after[i],
            #[trigger] after[j],
        ) by {
            assert(after[i] == before[i]);
            if j < before.len() {
                assert(after[j] == before[j]);
            } else {
                assert(before.contains(before[i]));
                let k = choose|k: int|
                    0 <= k < fewer && paths.take(fewer as int)[k] == before[i];
                assert(paths[k] == before[i]);
                assert(order::path_less(paths[k], paths[n - 1]));
            }
        }
    }
}

/// The members of the groups of the first `n` paths.
spec fn has_groups(
    groups: Map<PathView, Vec<RepoPathBuf>>,
    links: Seq<LinkView>,
    paths: Seq<PathView>,
    n: nat,
) -> bool {
    forall|root: PathView|
        if #[trigger] groups.dom().contains(root) {
            groups[root].deep_view() == members(links, paths, root, n)
        } else {
            members(links, paths, root, n).len() == 0
        }
}

/// The mentioned paths by their groups, in order.
fn group_paths(facts: &RenameFacts) -> (r: PathMap<Vec<RepoPathBuf>>)
    ensures
        has_groups(
            r@,
            facts@.links,
            facts.mentioned.listing(),
            facts.mentioned.listing().len(),
        ),
{
    let ghost links = facts@.links;
    let ghost paths = facts.mentioned.listing();
    let n = facts.mentioned.len();
    let mut groups: PathMap<Vec<RepoPathBuf>> = PathMap::new();
    for i in 0..n
        invariant
            n == paths.len(),
            paths == facts.mentioned.listing(),
            links == facts.groups@,
            has_groups(groups@, links, paths, i as nat),
    {
        let path = facts.mentioned.get_index(i);
        let root = facts.groups.find(path).dup();
        let ghost before = groups@;
        let mut list = match groups.remove(&root) {
            Some(list) => list,
            None => Vec::new(),
        };
        let ghost old_list = list.deep_view();
        proof {
            assert(before.dom().contains(root@) || !before.dom().contains(root@));
            assert(old_list =~= members(links, paths, root@, i as nat));
        }
        list.push(path.dup());
        assert(list.deep_view() =~= old_list.push(path@));
        groups.insert(root, list);
        proof {
            assert forall|r: PathView|
                if #[trigger] groups@.dom().contains(r) {
                    groups@[r].deep_view() == members(links, paths, r, (i + 1) as nat)
                } else {
                    members(links, paths, r, (i + 1) as nat).len() == 0
                } by {
                if r != root@ {
                    assert(groups@.dom().contains(r) == before.dom().contains(r));
                }
            }
        }
    }
    groups
}

fn count_renames(renamed_from: &Vec<PathSet>, path: &RepoPathBuf) -> (r: usize)
    ensures
        r == rename_count(rename_scan::sets_view(renamed_from@), path@),
{
    let n = renamed_from.len();
    let ghost sets = rename_scan::sets_view(renamed_from@);
    let mut count: usize = 0;
    assert(sets.take(0) =~= Seq::empty());
    for j in 0..n
        invariant
            n == renamed_from.len(),
            sets == rename_scan::sets_view(renamed_from@),
            count <= j,
            count == rename_count(sets.take(j as int), path@),
    {
        let ghost next = sets.take(j + 1);
        assert(next.drop_last() =~= sets.take(j as int));
        assert(next.last() == renamed_from@[j as int]@);
        if renamed_from[j].contains(path) {
            count = count + 1;
        }
    }
    assert(sets.take(n as int) =~= sets);
    count
}

fn check_active(facts: &RenameFacts, path: &RepoPathBuf) -> (r: bool)
    ensures
        r == is_active(facts@, path@),
{
    if count_renames(&facts.renamed_from, path) > 0 {
        return false;
    }
    let n = facts.presence.len();
    let ghost presence = facts@.presence;
    for j in 0..n
        invariant
            n == facts.presence.len(),
            presence == facts@.presence,
            rename_count(facts@.renamed_from, path@) == 0,
            forall|k: int|
                0 <= k < j && k % 2 == 0 ==> !(#[trigger] presence[k]).contains(path@),
    {
        assert(presence[j as int] == facts.presence@[j as int]@);
        if j % 2 == 0 && facts.presence[j].contains(path) {
            return true;
        }
    }
    false
}

/// Whether the ancestors of a path are needed.
pub open spec fn needs_ancestors(facts: RenameFactsModel, path: PathView) -> bool {
    has_relatives(facts, path) && has_divergent_rename(facts, path) && is_active(facts, path)
}

/// The paths among the first `n` whose ancestors are needed.
pub open spec fn traced_paths(facts: RenameFactsModel, paths: Seq<PathView>, n: nat) -> Seq<
    PathView,
>
    decreases n,
{
    if n == 0 {
        Seq::empty()
    } else {
        let before = traced_paths(facts, paths, (n - 1) as nat);
        if needs_ancestors(facts, paths[n - 1]) {
            before.push(paths[n - 1])
        } else {
            before
        }
    }
}

/// The model of the groups of paths.
pub ghost struct RenameGroupsModel {
    /// What is known.
    pub facts: RenameFactsModel,
    /// The paths whose ancestors are needed.
    pub traced: Seq<PathView>,
    /// Of how many of them the ancestors are known.
    pub place: int,
    /// The ancestors that are known.
    pub ancestors: Map<PathView, Seq<PathView>>,
}

impl RenameGroupsModel {
    /// The path whose ancestors are needed next.
    pub open spec fn next_path(self) -> Option<PathView> {
        if self.place < self.traced.len() {
            Some(self.traced[self.place])
        } else {
            None
        }
    }

    /// The ancestors of a path that are known.
    pub open spec fn ancestors_of(self, path: PathView) -> Seq<PathView> {
        if self.ancestors.dom().contains(path) {
            self.ancestors[path]
        } else {
            Seq::empty()
        }
    }

    /// What a path is mapped to.
    pub open spec fn entry(self, path: PathView) -> Option<Seq<Option<PathView>>> {
        rename_entry(self.facts, self.ancestors_of(path), path)
    }
}

/// Whether the map maps a path to the given terms, or has no entry for it.
pub open spec fn maps_to(
    map: Map<PathView, Merge<Option<RepoPathBuf>>>,
    path: PathView,
    entry: Option<Seq<Option<PathView>>>,
) -> bool {
    match entry {
        Some(terms) => map.dom().contains(path) && map[path]@ == terms,
        None => !map.dom().contains(path),
    }
}

/// The groups of related paths.
pub struct RenameGroups {
    facts: RenameFacts,
    groups: PathMap<Vec<RepoPathBuf>>,
    divergent: PathSet,
    traced: Vec<RepoPathBuf>,
    place: usize,
    ancestors: PathMap<Vec<RepoPathBuf>>,
}

spec fn lists_view(lists: Map<PathView, Vec<RepoPathBuf>>) -> Map<PathView, Seq<PathView>> {
    Map::new(|p: PathView| lists.dom().contains(p), |p: PathView| lists[p].deep_view())
}

impl View for RenameGroups {
    type V = RenameGroupsModel;

    closed spec fn view(&self) -> RenameGroupsModel {
        RenameGroupsModel {
            facts: self.facts@,
            traced: self.traced.deep_view(),
            place: self.place as int,
            ancestors: lists_view(self.ancestors@),
        }
    }
}

proof fn lemma_group(facts: RenameFactsModel, paths: Seq<PathView>, path: PathView)
    requires
        presence_fill::lists_paths(paths, facts.mentioned),
        facts.mentioned.contains(path),
    ensures
        ({
            let group = members(
                facts.links,
                paths,
                path_groups::label(facts.links, path),
                paths.len(),
            );
            &&& forall|q: PathView| #[trigger] group.contains(q) == in_same_group(facts, path, q)
            &&& has_relatives(facts, path) == (group.len() > 1)
            &&& group.len() > 0
            &&& forall|i: int, j: int|
                0 <= i < j < group.len() ==> order::path_less(
                    #[trigger] group[i],
                    #[trigger] group[j],
                )
        }),
{
    let root = path_groups::label(facts.links, path);
    let group = members(facts.links, paths, root, paths.len());
    lemma_members(facts.links, paths, root, paths.len());
    assert(paths.take(paths.len() as int) =~= paths);
    assert forall|q: PathView| #[trigger] group.contains(q) == in_same_group(facts, path, q) by {
        if paths.contains(q) {
            let i = choose|i: int| 0 <= i < paths.len() && paths[i] == q;
            assert(facts.mentioned.contains(paths[i]));
        }
    }
    assert(group.contains(path));
    let k = choose|k: int| 0 <= k < group.len() && group[k] == path;
    order::lemma_path_order();
    let less = order::path_order();
    if group.len() > 1 {
        let other = if k == 0 {
            group[1]
        } else {
            group[0]
        };
        assert(!less(path, path));
        if k == 0 {
            assert(order::path_less(group[0], group[1]));
        } else {
            assert(order::path_less(group[0], group[k]));
        }
        assert(other != path);
        assert(group.contains(other));
        assert(in_same_group(facts, path, other));
    }
    if has_relatives(facts, path) {
        let q = choose|q: PathView| q != path && #[trigger] in_same_group(facts, path, q);
        assert(group.contains(q));
        let l = choose|l: int| 0 <= l < group.len() && group[l] == q;
        assert(l != k);
    }
}

/// The place of the first path that is in the set.
pub proof fn lemma_first_in(paths: Seq<PathView>, set: Set<PathView>) -> (i: int)
    ensures
        match first_in(paths, set) {
            Some(path) => 0 <= i < paths.len() && paths[i] == path && set.contains(path)
                && forall|j: int| 0 <= j < i ==> !set.contains(#[trigger] paths[j]),
            None => forall|j: int| 0 <= j < paths.len() ==> !set.contains(#[trigger] paths[j]),
        },
    decreases paths.len(),
{
    if paths.len() == 0 {
        0
    } else {
        let before = paths.drop_last();
        let i = lemma_first_in(before, set);
        assert forall|j: int| 0 <= j < before.len() implies before[j] == #[trigger] paths[j] by {}
        if first_in(before, set) is Some {
            i
        } else {
            paths.len() - 1
        }
    }
}

proof fn lemma_first_in_group(
    facts: RenameFactsModel,
    paths: Seq<PathView>,
    path: PathView,
    term: int,
)
    requires
        presence_fill::lists_paths(paths, facts.mentioned),
        facts.mentioned.contains(path),
    ensures
        first_in(
            members(facts.links, paths, path_groups::label(facts.links, path), paths.len()),
            facts.presence[term],
        ) == first_in_group(facts, path, term),
{
    let root = path_groups::label(facts.links, path);
    let group = members(facts.links, paths, root, paths.len());
    let set = facts.presence[term];
    lemma_group(facts, paths, path);
    let i = lemma_first_in(group, set);
    order::lemma_path_order();
    let less = order::path_order();
    match first_in(group, set) {
        Some(found) => {
            assert(group.contains(found));
            assert forall|q: PathView| #[trigger]
                in_same_group(facts, path, q) && set.contains(q) implies q == found
                || order::path_less(found, q) by {
                assert(group.contains(q));
                let j = choose|j: int| 0 <= j < group.len() && group[j] == q;
                if i < j {
                    assert(order::path_less(group[i], group[j]));
                }
            }
            assert(is_first_in_group(facts, path, term, found));
            let first = choose|first: PathView| is_first_in_group(facts, path, term, first);
            assert(is_first_in_group(facts, path, term, first));
            if first != found {
                assert(order::path_less(first, found));
                assert(order::path_less(found, first));
                assert(less(first, found) && less(found, first));
                assert(less(first, first));
            }
        },
        None => {
            if exists|first: PathView| is_first_in_group(facts, path, term, first) {
                let first = choose|first: PathView| is_first_in_group(facts, path, term, first);
                assert(group.contains(first));
                let j = choose|j: int| 0 <= j < group.len() && group[j] == first;
                assert(!set.contains(group[j]));
            }
        },
    }
}

fn find_first(paths: &Vec<RepoPathBuf>, set: &PathSet) -> (r: Option<RepoPathBuf>)
    ensures
        r.deep_view() == first_in(paths.deep_view(), set@),
{
    let n = paths.len();
    let ghost list = paths.deep_view();
    assert(list.take(0) =~= Seq::empty());
    for i in 0..n
        invariant
            n == paths.len(),
            list == paths.deep_view(),
            first_in(list.take(i as int), set@) is None,
    {
        let ghost next = list.take(i + 1);
        assert(next.drop_last() =~= list.take(i as int));
        assert(next.last() == paths@[i as int]@);
        if set.contains(&paths[i]) {
            proof {
                lemma_first_stays(list, set@, i + 1);
            }
            return Some(paths[i].dup());
        }
    }
    assert(list.take(n as int) =~= list);
    None
}

proof fn lemma_first_stays(paths: Seq<PathView>, set: Set<PathView>, n: int)
    requires
        0 <= n <= paths.len(),
        first_in(paths.take(n), set) is Some,
    ensures
        first_in(paths, set) == first_in(paths.take(n), set),
    decreases paths.len(),
{
    if n == paths.len() {
        assert(paths.take(n) =~= paths);
    } else {
        assert(paths.drop_last().take(n) =~= paths.take(n));
        lemma_first_stays(paths.drop_last(), set, n);
    }
}

/// Whether the set has the labels of the groups with divergent renames.
spec fn marks_divergent(
    facts: RenameFactsModel,
    paths: Seq<PathView>,
    divergent: Set<PathView>,
    n: nat,
) -> bool {
    forall|root: PathView| #[trigger]
        divergent.contains(root) == exists|i: int|
            0 <= i < n && path_groups::label(facts.links, #[trigger] paths[i]) == root
                && rename_count(facts.renamed_from, paths[i]) >= 2
}

fn find_divergent(facts: &RenameFacts) -> (r: PathSet)
    ensures
        marks_divergent(
            facts@,
            facts.mentioned.listing(),
            r@,
            facts.mentioned.listing().len(),
        ),
{
    let n = facts.mentioned.len();
    let ghost paths = facts.mentioned.listing();
    let ghost f = facts@;
    let mut divergent = PathSet::new();
    for k in 0..n
        invariant
            n == paths.len(),
            paths == facts.mentioned.listing(),
            f == facts@,
            marks_divergent(f, paths, divergent@, k as nat),
    {
        let path = facts.mentioned.get_index(k);
        let ghost before = divergent@;
        let many = count_renames(&facts.renamed_from, path) >= 2;
        if many {
            divergent.insert(facts.groups.find(path).dup());
        }
        proof {
            assert forall|root: PathView| #[trigger] divergent@.contains(root) == exists|i: int|
                0 <= i < k + 1 && path_groups::label(f.links, #[trigger] paths[i]) == root
                    && rename_count(f.renamed_from, paths[i]) >= 2 by {
                assert(before.contains(root) == exists|i: int|
                    0 <= i < k && path_groups::label(f.links, #[trigger] paths[i]) == root
                        && rename_count(f.renamed_from, paths[i]) >= 2);
                if before.contains(root) {
                    let i = choose|i: int|
                        0 <= i < k && path_groups::label(f.links, #[trigger] paths[i]) == root
                            && rename_count(f.renamed_from, paths[i]) >= 2;
                    assert(path_groups::label(f.links, paths[i]) == root);
                }
                if many && path_groups::label(f.links, paths[k as int]) == root {
                    assert(rename_count(f.renamed_from, paths[k as int]) >= 2);
                }
            }
        }
    }
    divergent
}

proof fn lemma_divergent(
    facts: RenameFactsModel,
    paths: Seq<PathView>,
    divergent: Set<PathView>,
    path: PathView,
)
    requires
        presence_fill::lists_paths(paths, facts.mentioned),
        facts.mentioned.contains(path),
        marks_divergent(facts, paths, divergent, paths.len()),
    ensures
        divergent.contains(path_groups::label(facts.links, path)) == has_divergent_rename(
            facts,
            path,
        ),
{
    let root = path_groups::label(facts.links, path);
    assert(divergent.contains(root) == exists|i: int|
        0 <= i < paths.len() && path_groups::label(facts.links, #[trigger] paths[i]) == root
            && rename_count(facts.renamed_from, paths[i]) >= 2);
    if divergent.contains(root) {
        let i = choose|i: int|
            0 <= i < paths.len() && path_groups::label(facts.links, #[trigger] paths[i]) == root
                && rename_count(facts.renamed_from, paths[i]) >= 2;
        assert(in_same_group(facts, path, paths[i]));
    }
    if has_divergent_rename(facts, path) {
        let q = choose|q: PathView| #[trigger]
            in_same_group(facts, path, q) && rename_count(facts.renamed_from, q) >= 2;
        assert(paths.contains(q));
        let i = choose|i: int| 0 <= i < paths.len() && paths[i] == q;
        assert(path_groups::label(facts.links, paths[i]) == root);
    }
}

impl PresenceFill {
    /// Groups the related paths, once all presence info is there.
    pub fn into_groups(self) -> (r: RenameGroups)
        requires
            self@.next() is None,
        ensures
            presence_fill::lists_paths(self@.paths, self@.facts.mentioned),
            r@ == (RenameGroupsModel {
                facts: self@.facts,
                traced: traced_paths(self@.facts, self@.paths, self@.paths.len()),
                place: 0,
                ancestors: Map::empty(),
            }),
    {
        let facts = self.into_facts();
        let ghost f = facts@;
        let groups = group_paths(&facts);
        let divergent = find_divergent(&facts);
        let n = facts.mentioned.len();
        let ghost paths = facts.mentioned.listing();
        let mut traced: Vec<RepoPathBuf> = Vec::new();
        assert(traced.deep_view() =~= Seq::empty());
        for i in 0..n
            invariant
                n == paths.len(),
                f == facts@,
                paths == facts.mentioned.listing(),
                presence_fill::lists_paths(paths, f.mentioned),
                has_groups(groups@, f.links, paths, paths.len()),
                marks_divergent(f, paths, divergent@, paths.len()),
                traced.deep_view() == traced_paths(f, paths, i as nat),
        {
            let ghost now = traced.deep_view();
            let path = facts.mentioned.get_index(i);
            assert(f.mentioned.contains(paths[i as int]));
            let root = facts.groups.find(path);
            proof {
                lemma_group(f, paths, path@);
                lemma_divergent(f, paths, divergent@, path@);
                assert(groups@.dom().contains(root@));
            }
            if let Some(group) = groups.get(root) {
                assert(group.deep_view().len() == group.len());
                if group.len() > 1 && divergent.contains(root) && check_active(&facts, path) {
                    traced.push(path.dup());
                    assert(traced.deep_view() =~= now.push(path@));
                }
            }
        }
        let ancestors: PathMap<Vec<RepoPathBuf>> = PathMap::new();
        assert(lists_view(ancestors@) =~= Map::empty());
        RenameGroups { facts, groups, divergent, traced, place: 0, ancestors }
    }
}

impl RenameGroups {
    #[verifier::type_invariant]
    spec fn type_inv(self) -> bool {
        let paths = self.facts.mentioned.listing();
        &&& self.facts@.presence.len() % 2 == 1
        &&& presence_fill::lists_paths(paths, self.facts@.mentioned)
        &&& has_groups(self.groups@, self.facts@.links, paths, paths.len())
        &&& marks_divergent(self.facts@, paths, self.divergent@, paths.len())
        &&& self.place <= self.traced@.len()
    }

    /// For each merge term, the paths that are present.
    pub fn presence(&self) -> (r: &Vec<PathSet>)
        ensures
            rename_scan::sets_view(r@) == self@.facts.presence,
    {
        &self.facts.presence
    }

    /// The path whose ancestors are needed next.
    pub fn next_path(&self) -> (r: Option<&RepoPathBuf>)
        ensures
            match r {
                Some(path) => self@.next_path() == Some(path@),
                None => self@.next_path() is None,
            },
    {
        if self.place < self.traced.len() {
            assert(self@.traced[self.place as int] == self.traced@[self.place as int]@);
            Some(&self.traced[self.place])
        } else {
            None
        }
    }

    /// Goes on with the ancestors of the path.
    pub fn answer(&mut self, ancestors: Vec<RepoPathBuf>)
        requires
            old(self)@.next_path() is Some,
        ensures
            final(self)@ == (RenameGroupsModel {
                place: old(self)@.place + 1,
                ancestors: old(self)@.ancestors.insert(
                    old(self)@.next_path()->0,
                    ancestors.deep_view(),
                ),
                ..old(self)@
            }),
    {
        proof {
            use_type_invariant(&*self);
        }
        let place = self.place;
        assert(self@.traced[place as int] == self.traced@[place as int]@);
        let path = self.traced[place].dup();
        let ghost key = path@;
        let mut known: PathMap<Vec<RepoPathBuf>> = PathMap::new();
        std::mem::swap(&mut known, &mut self.ancestors);
        let ghost before = lists_view(known@);
        known.insert(path, ancestors);
        assert(lists_view(known@) =~= before.insert(key, ancestors.deep_view()));
        self.ancestors = known;
        assert(place < self.traced.len());
        self.place = place + 1;
    }

    fn terms_of(&self, path: &RepoPathBuf, group: &Vec<RepoPathBuf>, divergent: bool) -> (r: Merge<
        Option<RepoPathBuf>,
    >)
        requires
            self@.facts.mentioned.contains(path@),
            group.deep_view() == members(
                self@.facts.links,
                self.facts.mentioned.listing(),
                path_groups::label(self@.facts.links, path@),
                self.facts.mentioned.listing().len(),
            ),
            divergent == has_divergent_rename(self@.facts, path@),
        ensures
            r@ == Seq::new(
                self@.facts.presence.len(),
                |j: int|
                    path_in_term(self@.facts, self@.ancestors_of(path@), path@, j),
            ),
    {
        proof {
            use_type_invariant(self);
        }
        let ghost f = self@.facts;
        let ghost goal = Seq::new(
            f.presence.len(),
            |j: int| path_in_term(f, self@.ancestors_of(path@), path@, j),
        );
        let n = self.facts.presence.len();
        let none: Vec<RepoPathBuf> = Vec::new();
        assert(none.deep_view() =~= Seq::empty());
        let ancestors = match self.ancestors.get(path) {
            Some(ancestors) => ancestors,
            None => &none,
        };
        assert(ancestors.deep_view() == self@.ancestors_of(path@));
        let mut terms: Vec<Option<RepoPathBuf>> = Vec::new();
        for j in 0..n
            invariant
                n == self.facts.presence.len(),
                n == goal.len(),
                f == self.facts@,
                f.mentioned.contains(path@),
                presence_fill::lists_paths(self.facts.mentioned.listing(), f.mentioned),
                group.deep_view() == members(
                    f.links,
                    self.facts.mentioned.listing(),
                    path_groups::label(f.links, path@),
                    self.facts.mentioned.listing().len(),
                ),
                divergent == has_divergent_rename(f, path@),
                ancestors.deep_view() == self@.ancestors_of(path@),
                goal == Seq::new(
                    f.presence.len(),
                    |j: int| path_in_term(f, self@.ancestors_of(path@), path@, j),
                ),
                terms.len() == j,
                forall|k: int| 0 <= k < j ==> (#[trigger] terms@[k]).deep_view() == goal[k],
        {
            assert(f.presence[j as int] == self.facts.presence@[j as int]@);
            proof {
                lemma_first_in_group(f, self.facts.mentioned.listing(), path@, j as int);
            }
            let term = if self.facts.presence[j].contains(path) {
                Some(path.dup())
            } else if divergent {
                find_first(ancestors, &self.facts.presence[j])
            } else {
                find_first(group, &self.facts.presence[j])
            };
            terms.push(term);
        }
        let r = Merge::from_vec(terms);
        assert(r@ =~= goal);
        r
    }

    /// The rename map.
    pub fn finish(self) -> (r: RenameMap)
        requires
            self@.next_path() is None,
        ensures
            forall|path: PathView| #[trigger] maps_to(r@, path, self@.entry(path)),
    {
        proof {
            use_type_invariant(&self);
        }
        let ghost f = self@.facts;
        let ghost paths = self.facts.mentioned.listing();
        let n = self.facts.mentioned.len();
        let mut result: RenameMap = PathMap::new();
        for i in 0..n
            invariant
                n == paths.len(),
                f == self@.facts,
                f == self.facts@,
                paths == self.facts.mentioned.listing(),
                presence_fill::lists_paths(paths, f.mentioned),
                has_groups(self.groups@, f.links, paths, paths.len()),
                marks_divergent(f, paths, self.divergent@, paths.len()),
                forall|p: PathView| #[trigger]
                    result@.dom().contains(p) == (paths.take(i as int).contains(p) && self@.entry(
                        p,
                    ) is Some),
                forall|p: PathView| #[trigger]
                    result@.dom().contains(p) ==> result@[p]@ == self@.entry(p)->0,
        {
            let path = self.facts.mentioned.get_index(i);
            let ghost before = result@;
            let root = self.facts.groups.find(path);
            proof {
                assert(f.mentioned.contains(paths[i as int]));
                lemma_group(f, paths, path@);
                lemma_divergent(f, paths, self.divergent@, path@);
                assert(self.groups@.dom().contains(root@));
            }
            let ghost key = path@;
            if let Some(group) = self.groups.get(root) {
                assert(group.deep_view().len() == group.len());
                if group.len() > 1 {
                    let terms = if check_active(&self.facts, path) {
                        self.terms_of(path, group, self.divergent.contains(root))
                    } else {
                        let absent: Merge<Option<RepoPathBuf>> = Merge::absent();
                        assert(absent@ =~= merge::absent_terms());
                        absent
                    };
                    assert(Some(terms@) == self@.entry(key));
                    result.insert(path.dup(), terms);
                }
            }
            proof {
                let more = paths.take(i + 1);
                let fewer = paths.take(i as int);
                assert forall|p: PathView| #[trigger] result@.dom().contains(p) == (more.contains(
                    p,
                ) && self@.entry(p) is Some) by {
                    assert(before.dom().contains(p) == (fewer.contains(p) && self@.entry(
                        p,
                    ) is Some));
                    if fewer.contains(p) {
                        let k = choose|k: int| 0 <= k < fewer.len() && fewer[k] == p;
                        assert(more[k] == p);
                    }
                    if more.contains(p) {
                        let k = choose|k: int| 0 <= k < more.len() && more[k] == p;
                        if k < i {
                            assert(fewer[k] == p);
                        }
                    }
                    assert(more[i as int] == key);
                }
            }
        }
        proof {
            assert(paths.take(n as int) =~= paths);
            assert forall|p: PathView| #[trigger] maps_to(result@, p, self@.entry(p)) by {
                assert(result@.dom().contains(p) == (paths.take(n as int).contains(p)
                    && self@.entry(p) is Some));
                if self@.entry(p) is Some {
                    assert(has_relatives(f, p));
                    let q = choose|q: PathView| q != p && #[trigger] in_same_group(f, p, q);
                    assert(f.mentioned.contains(p));
                    assert(paths.contains(p));
                }
            }
        }
        result
    }
}

/// An active path has a path in every term of the merge, or none there. If it is
/// present itself, it is that path, and any other is present too.
pub proof fn law_active_entry(
    facts: RenameFactsModel,
    ancestors: Seq<PathView>,
    path: PathView,
    term: int,
)
    requires
        has_relatives(facts, path),
        is_active(facts, path),
        0 <= term < facts.presence.len(),
    ensures
        rename_entry(facts, ancestors, path) is Some,
        rename_entry(facts, ancestors, path)->0.len() == facts.presence.len(),
        facts.presence[term].contains(path) ==> rename_entry(facts, ancestors, path)->0[term]
            == Some(path),
        match rename_entry(facts, ancestors, path)->0[term] {
            Some(other) => facts.presence[term].contains(other),
            None => true,
        },
{
    let i = lemma_first_in(ancestors, facts.presence[term]);
}

/// A path that something was renamed from, or that is in no positive term, is not
/// in the output: it is mapped to nothing.
pub proof fn law_inactive_entry(
    facts: RenameFactsModel,
    ancestors: Seq<PathView>,
    path: PathView,
)
    requires
        has_relatives(facts, path),
        !is_active(facts, path),
    ensures
        rename_entry(facts, ancestors, path) == Some(merge::absent_terms::<PathView>()),
{
}

/// Without divergent renames, an active path has a path in each term where some
/// path of its group is present.
pub proof fn law_path_of_group(
    facts: RenameFactsModel,
    ancestors: Seq<PathView>,
    path: PathView,
    other: PathView,
    term: int,
    paths: Seq<PathView>,
)
    requires
        presence_fill::lists_paths(paths, facts.mentioned),
        in_same_group(facts, path, other),
        !has_divergent_rename(facts, path),
        0 <= term < facts.presence.len(),
        facts.presence[term].contains(other),
    ensures
        path_in_term(facts, ancestors, path, term) is Some,
{
    let group = members(
        facts.links,
        paths,
        path_groups::label(facts.links, path),
        paths.len(),
    );
    lemma_group(facts, paths, path);
    lemma_first_in_group(facts, paths, path, term);
    let i = lemma_first_in(group, facts.presence[term]);
    assert(group.contains(other));
    let j = choose|j: int| 0 <= j < group.len() && group[j] == other;
    assert(facts.presence[term].contains(group[j]));
}

} // verus!
