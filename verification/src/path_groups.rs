//! Groups of paths that are linked to each other.

use crate::path_map::PathMap;
use crate::repo_path::PathView;
use crate::repo_path::RepoPathBuf;
use crate::value::Value;
use vstd::prelude::*;

verus! {

/// Two paths that belong to the same group.
pub type LinkView = (PathView, PathView);

/// The path that stands for the group of a path. A link makes the group of its
/// first path part of the group of its second path.
pub open spec fn label(links: Seq<LinkView>, path: PathView) -> PathView
    decreases links.len(),
{
    if links.len() == 0 {
        path
    } else {
        let before = links.drop_last();
        let (a, b) = links.last();
        if label(before, path) == label(before, a) {
            label(before, b)
        } else {
            label(before, path)
        }
    }
}

/// Whether all links are between paths for which `mark` has the same value.
pub open spec fn keeps_links<T>(links: Seq<LinkView>, mark: spec_fn(PathView) -> T) -> bool {
    forall|i: int|
        0 <= i < links.len() ==> mark((#[trigger] links[i]).0) == mark(links[i].1)
}

/// Linked paths are in the same group, and no other paths are: whatever is the
/// same for linked paths is the same for all paths of a group.
pub proof fn law_groups<T>(
    links: Seq<LinkView>,
    mark: spec_fn(PathView) -> T,
    a: PathView,
    b: PathView,
)
    ensures
        keeps_links(links, |p: PathView| label(links, p)),
        keeps_links(links, mark) && label(links, a) == label(links, b) ==> mark(a) == mark(b),
    decreases links.len(),
{
    lemma_links_kept(links);
    if keeps_links(links, mark) {
        lemma_mark_of_label(links, mark, a);
        lemma_mark_of_label(links, mark, b);
    }
}

proof fn lemma_links_kept(links: Seq<LinkView>)
    ensures
        keeps_links(links, |p: PathView| label(links, p)),
    decreases links.len(),
{
    if links.len() > 0 {
        let before = links.drop_last();
        lemma_links_kept(before);
        let kept = |p: PathView| label(before, p);
        assert forall|i: int| 0 <= i < links.len() implies label(links, (#[trigger] links[i]).0)
            == label(links, links[i].1) by {
            if i < before.len() {
                assert(links[i] == before[i]);
                assert(kept(before[i].0) == kept(before[i].1));
            }
        }
    }
}

proof fn lemma_mark_of_label<T>(links: Seq<LinkView>, mark: spec_fn(PathView) -> T, path: PathView)
    requires
        keeps_links(links, mark),
    ensures
        mark(label(links, path)) == mark(path),
    decreases links.len(),
{
    if links.len() > 0 {
        let before = links.drop_last();
        let (a, b) = links.last();
        assert forall|i: int| 0 <= i < before.len() implies mark((#[trigger] before[i]).0) == mark(
            before[i].1,
        ) by {
            assert(links[i] == before[i]);
        }
        lemma_mark_of_label(before, mark, path);
        lemma_mark_of_label(before, mark, a);
        lemma_mark_of_label(before, mark, b);
        assert(mark(links[links.len() - 1].0) == mark(links[links.len() - 1].1));
    }
}

/// Groups of paths. A path that was linked to another is mapped to one that is
/// closer to the path that stands for its group.
pub struct PathGroups {
    parents: PathMap<RepoPathBuf>,
    links: Ghost<Seq<LinkView>>,
    depths: Ghost<spec_fn(PathView) -> nat>,
}

impl View for PathGroups {
    type V = Seq<LinkView>;

    closed spec fn view(&self) -> Seq<LinkView> {
        self.links@
    }
}

spec fn leads_up(
    parents: Map<PathView, RepoPathBuf>,
    links: Seq<LinkView>,
    depths: spec_fn(PathView) -> nat,
) -> bool {
    &&& forall|p: PathView| #[trigger]
        parents.dom().contains(p) ==> {
            &&& label(links, parents[p]@) == label(links, p)
            &&& depths(parents[p]@) < depths(p)
        }
    &&& forall|p: PathView|
        !parents.dom().contains(p) ==> #[trigger] label(links, p) == p
}

impl PathGroups {
    #[verifier::type_invariant]
    spec fn type_inv(self) -> bool {
        leads_up(self.parents@, self.links@, self.depths@)
    }

    /// Every path is a group of its own.
    pub fn new() -> (r: Self)
        ensures
            r@ == Seq::<LinkView>::empty(),
    {
        PathGroups {
            parents: PathMap::new(),
            links: Ghost(Seq::empty()),
            depths: Ghost(|p: PathView| 0nat),
        }
    }

    /// The path that stands for the group of a path.
    pub fn find<'a>(&'a self, path: &'a RepoPathBuf) -> (r: &'a RepoPathBuf)
        ensures
            r@ == label(self@, path@),
    {
        proof {
            use_type_invariant(self);
        }
        let mut curr = path;
        loop
            invariant
                leads_up(self.parents@, self.links@, self.depths@),
                label(self@, curr@) == label(self@, path@),
            ensures
                curr@ == label(self@, path@),
            decreases (self.depths@)(curr@),
        {
            match self.parents.get(curr) {
                Some(next) => {
                    curr = next;
                },
                None => {
                    break ;
                },
            }
        }
        curr
    }

    /// Puts the two paths into the same group.
    pub fn union(&mut self, a: &RepoPathBuf, b: &RepoPathBuf)
        ensures
            final(self)@ == old(self)@.push((a@, b@)),
    {
        let root_a = self.find(a).dup();
        let root_b = self.find(b).dup();
        proof {
            use_type_invariant(&*self);
        }
        let ghost links = self.links@;
        let ghost depths = self.depths@;
        let ghost next = links.push((a@, b@));
        assert(next.drop_last() =~= links);
        let ghost old_parents = self.parents@;
        let same = root_a.same(&root_b);
        let mut groups = PathGroups::new();
        std::mem::swap(&mut groups, self);
        let PathGroups { parents: mut parents, links: _, depths: _ } = groups;
        let ghost new_depths = if same {
            depths
        } else {
            |p: PathView|
                if label(links, p) == root_a@ {
                    depths(p) + depths(root_b@) + 1
                } else {
                    depths(p)
                }
        };
        if same {
            proof {
                assert(parents@ == old_parents);
                assert forall|p: PathView| #[trigger] parents@.dom().contains(p) implies {
                    &&& label(next, parents@[p]@) == label(next, p)
                    &&& new_depths(parents@[p]@) < new_depths(p)
                } by {
                    assert(label(links, parents@[p]@) == label(links, p));
                }
                assert forall|p: PathView| !parents@.dom().contains(p) implies #[trigger] label(
                    next,
                    p,
                ) == p by {
                    assert(label(links, p) == p);
                }
            }
        } else {
            parents.insert(root_a, root_b);
            proof {
                lemma_label_of_label(links, a@);
                lemma_label_of_label(links, b@);
                assert forall|p: PathView| #[trigger] parents@.dom().contains(p) implies {
                    &&& label(next, parents@[p]@) == label(next, p)
                    &&& new_depths(parents@[p]@) < new_depths(p)
                } by {
                    if p != root_a@ {
                        assert(old_parents.dom().contains(p));
                        assert(parents@[p] == old_parents[p]);
                    }
                }
                assert forall|p: PathView| !parents@.dom().contains(p) implies #[trigger] label(
                    next,
                    p,
                ) == p by {
                    assert(label(links, p) == p);
                }
            }
        }
        assert(leads_up(parents@, next, new_depths));
        *self = PathGroups { parents, links: Ghost(next), depths: Ghost(new_depths) };
    }
}

/// The path that stands for a group is in it.
pub proof fn lemma_label_of_label(links: Seq<LinkView>, path: PathView)
    ensures
        label(links, label(links, path)) == label(links, path),
    decreases links.len(),
{
    if links.len() > 0 {
        let before = links.drop_last();
        let (a, b) = links.last();
        lemma_label_of_label(before, path);
        lemma_label_of_label(before, b);
    }
}

} // verus!
