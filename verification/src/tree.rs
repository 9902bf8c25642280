//! Trees at a directory, and merges of them.

use crate::backend;
use crate::backend::TreeValue;
use crate::backend::TreeView;
use crate::listing;
use crate::merge;
use crate::merge::Merge;
use crate::merge::SameChange;
use crate::repo_path::NameView;
use crate::repo_path::PathView;
use crate::repo_path::RepoPathBuf;
use crate::repo_path::RepoPathComponentBuf;
use crate::store::Store;
use crate::tree_value;
use crate::tree_value::MergedTreeVal;
use crate::tree_value::MergedValueView;
use crate::tree_value::TreeValueView;
use std::sync::Arc;
use vstd::prelude::*;

verus! {

/// The model of a tree at a directory.
#[verifier::ext_equal]
pub ghost struct TreeModel {
    /// The store that the tree was read from.
    pub store: Store,
    /// The directory.
    pub dir: PathView,
    /// The entries, sorted by name.
    pub entries: TreeView,
}

/// A tree at a directory of a repository.
#[derive(Debug)]
pub struct Tree {
    store: Arc<Store>,
    dir: RepoPathBuf,
    data: backend::Tree,
}

impl View for Tree {
    type V = TreeModel;

    closed spec fn view(&self) -> TreeModel {
        TreeModel { store: *self.store, dir: self.dir@, entries: self.data@ }
    }
}

impl DeepView for Tree {
    type V = TreeModel;

    open spec fn deep_view(&self) -> TreeModel {
        self@
    }
}

impl Tree {
    /// The given tree object at a directory.
    pub fn new(store: Arc<Store>, dir: RepoPathBuf, data: backend::Tree) -> (r: Self)
        ensures
            r@ == (TreeModel { store: *store, dir: dir@, entries: data@ }),
    {
        Tree { store, dir, data }
    }

    /// The empty tree at a directory.
    pub fn empty(store: Arc<Store>, dir: RepoPathBuf) -> (r: Self)
        ensures
            r@ == empty_tree(*store, dir@),
    {
        Tree { store, dir, data: backend::Tree::default() }
    }

    /// The store that this tree was read from.
    pub fn store(&self) -> (r: &Arc<Store>)
        ensures
            **r == self@.store,
    {
        &self.store
    }

    /// The directory of this tree.
    pub fn dir(&self) -> (r: &RepoPathBuf)
        ensures
            r@ == self@.dir,
    {
        &self.dir
    }

    /// The tree object.
    pub fn data(&self) -> (r: &backend::Tree)
        ensures
            r@ == self@.entries,
    {
        &self.data
    }

    /// The value at the given basename, if it exists.
    pub fn value(&self, basename: &RepoPathComponentBuf) -> (r: Option<&TreeValue>)
        ensures
            match r {
                Some(value) => listing::lookup(self@.entries, basename@) == Some(value@),
                None => listing::lookup(self@.entries, basename@) is None,
            },
    {
        self.data.value(basename)
    }
}

/// The model of an empty tree at a directory.
pub open spec fn empty_tree(store: Store, dir: PathView) -> TreeModel {
    TreeModel { store, dir, entries: TreeView::empty() }
}

/// The values that the trees have for `name`, one term for each tree.
pub open spec fn values_at(trees: Seq<TreeModel>, name: NameView) -> MergedValueView {
    Seq::new(trees.len(), |i: int| listing::lookup(trees[i].entries, name))
}

/// The single value that the terms cancel out to, if there is one, or else all
/// the terms.
pub open spec fn resolved_terms<A>(terms: Seq<A>, same_change: SameChange) -> Seq<A> {
    match merge::trivial_resolution(terms, same_change) {
        Some(value) => seq![value],
        None => terms,
    }
}

/// The merged value that the trees have for `name`. It can be resolved even if
/// there are several trees, which happens if the values can be trivially
/// merged.
pub open spec fn tree_value(trees: Seq<TreeModel>, name: NameView) -> MergedValueView {
    resolved_terms(values_at(trees, name), trees[0].store.options().same_change)
}

/// Whether one of the trees has an entry for `name`.
pub open spec fn has_name(trees: Seq<TreeModel>, name: NameView) -> bool {
    exists|i: int|
        0 <= i < trees.len() && (#[trigger] listing::lookup(trees[i].entries, name)) is Some
}

/// The unmerged values of the trees, for the names that they have.
pub open spec fn listed_values(trees: Seq<TreeModel>) -> spec_fn(NameView) -> Option<
    MergedValueView,
> {
    |name: NameView|
        if has_name(trees, name) {
            Some(values_at(trees, name))
        } else {
            None
        }
}

/// The merged values of the trees, for the names that they have.
pub open spec fn listed_entries(trees: Seq<TreeModel>) -> spec_fn(NameView) -> Option<
    MergedValueView,
> {
    |name: NameView|
        if has_name(trees, name) {
            Some(tree_value(trees, name))
        } else {
            None
        }
}

/// A single tree has the value of its entry.
pub proof fn lemma_single_tree_value(trees: Seq<TreeModel>, name: NameView)
    requires
        trees.len() == 1,
    ensures
        tree_value(trees, name) == seq![listing::lookup(trees[0].entries, name)],
{
    let value = listing::lookup(trees[0].entries, name);
    assert(values_at(trees, name) =~= seq![value]);
    merge::lemma_single_term_resolution(value, trees[0].store.options().same_change);
}

/// Trees that have no entry for a name have an absent value there.
pub proof fn lemma_missing_value(trees: Seq<TreeModel>, name: NameView)
    requires
        trees.len() % 2 == 1,
        !has_name(trees, name),
    ensures
        tree_value(trees, name) == merge::absent_terms::<TreeValueView>(),
{
    let terms = values_at(trees, name);
    let same_change = trees[0].store.options().same_change;
    assert forall|i: int| 0 <= i < terms.len() implies (#[trigger] terms[i]) is None by {
        assert(listing::lookup(trees[i].entries, name) is None);
    }
    lemma_net_of_equal_terms(terms, None);
    assert forall|w: Option<TreeValueView>| w != None::<TreeValueView> implies #[trigger] merge::net(
        terms,
        w,
    ) == 0 by {
        merge::lemma_net_absent(terms, w);
    }
    assert(merge::cancels_to(terms, same_change, None));
    merge::lemma_cancels_to_one(terms, same_change, None, None);
}

proof fn lemma_net_of_equal_terms<A>(terms: Seq<A>, value: A)
    requires
        forall|i: int| 0 <= i < terms.len() ==> #[trigger] terms[i] == value,
    ensures
        merge::net(terms, value) == (if terms.len() % 2 == 1 {
            1int
        } else {
            0
        }),
    decreases terms.len(),
{
    if terms.len() > 0 {
        lemma_net_of_equal_terms(terms.drop_last(), value);
    }
}

impl Merge<Tree> {
    /// The value at the given basename. The value can be resolved even if
    /// `self` is not, which happens if the values of the trees can be trivially
    /// merged.
    ///
    /// Does not recurse, so if `basename` refers to a tree, then the identifiers
    /// of that tree will be returned.
    pub fn value(&self, basename: &RepoPathComponentBuf) -> (r: MergedTreeVal<'_>)
        ensures
            r@ == tree_value(self@, basename@),
    {
        match self.as_resolved() {
            Some(tree) => {
                let r = Merge::resolved(tree.value(basename));
                proof {
                    assert(self.terms()[0] == *tree);
                    assert(self@[0] == tree@);
                    lemma_single_tree_value(self@, basename@);
                    assert(r@ =~= tree_value(self@, basename@));
                }
                r
            },
            None => {
                let trees = self.as_slice();
                let same_change = self.first().store().merge_options().same_change;
                let n = trees.len();
                let mut values: Vec<Option<&TreeValue>> = Vec::new();
                for i in 0..n
                    invariant
                        n == trees.len(),
                        trees@ == self.terms(),
                        values.len() == i,
                        forall|j: int|
                            0 <= j < i ==> (#[trigger] values@[j]).deep_view() == values_at(
                                self@,
                                basename@,
                            )[j],
                {
                    values.push(trees[i].value(basename));
                    assert(self@[i as int] == trees@[i as int]@);
                }
                let values = Merge::from_vec(values);
                assert(values@ =~= values_at(self@, basename@));
                resolve_terms(values, same_change)
            },
        }
    }
}

/// Takes the single value that the terms cancel out to, if there is one.
pub fn resolve_terms<'a>(values: MergedTreeVal<'a>, same_change: SameChange) -> (r: MergedTreeVal<'a>)
    ensures
        r@ == resolved_terms(values@, same_change),
{
    let resolved = match values.resolve_trivial(same_change) {
        Some(resolved) => Some(*resolved),
        None => None,
    };
    match resolved {
        Some(value) => {
            let r = Merge::resolved(value);
            assert(r@ =~= seq![value.deep_view()]);
            r
        },
        None => values,
    }
}

} // verus!
