//! A lazily merged view of a set of trees.

pub use crate::tree_diff::TreeDiffEntry;
pub use crate::tree_diff::TreeDiffIterator;
pub use crate::tree_diff_stream::TreeDiffStreamImpl;
pub use crate::tree_entries::all_merged_tree_entries;
pub use crate::tree_walk::TreeEntriesIterator;

use crate::backend::CopyId;
use crate::backend::TreeId;
use crate::backend::TreeValue;
use crate::conflict_labels;
use crate::conflict_labels::ConflictLabels;
use crate::merge;
use crate::merge::Merge;
use crate::repo_path::PathView;
use crate::repo_path::RepoPathBuf;
use crate::simplify;
use crate::store::Store;
use crate::tree;
use crate::tree::Tree;
use crate::tree_read;
use crate::tree_read::TreesRequest;
use crate::tree_value;
use crate::tree_value::MergedTreeValue;
use crate::tree_value::MergedValueView;
use crate::tree_value::TreeValueView;
use crate::value::Value;
use std::sync::Arc;
use vstd::prelude::*;

verus! {

/// Presents a view of a merged set of trees at the root directory, as well as
/// conflict labels.
#[derive(Debug)]
pub struct MergedTree {
    store: Arc<Store>,
    tree_ids: Merge<TreeId>,
    labels: ConflictLabels,
}

/// The model of a `MergedTree`.
#[verifier::ext_equal]
pub ghost struct MergedTreeModel {
    /// The store of the trees.
    pub store: Store,
    /// The IDs of the trees.
    pub ids: Seq<Seq<u8>>,
    /// The labels of the trees.
    pub labels: Seq<Seq<char>>,
}

impl MergedTreeModel {
    /// Whether the labels, if there are any, go with the trees.
    pub open spec fn valid(self) -> bool {
        &&& self.ids.len() % 2 == 1
        &&& self.labels.len() != 1 ==> self.labels.len() == self.ids.len()
        &&& self.labels == conflict_labels::effective_labels(self.labels)
    }

    /// A label for each tree.
    pub open spec fn labels_by_term(self, label: Seq<char>) -> Seq<Seq<char>> {
        if self.ids.len() == 1 {
            seq![label]
        } else if self.labels.len() != 1 {
            self.labels
        } else {
            Seq::new(self.ids.len(), |i: int| Seq::empty())
        }
    }
}

/// The value of the root directory, whose trees have the given IDs.
pub open spec fn root_value(ids: Seq<Seq<u8>>) -> MergedValueView {
    Seq::new(ids.len(), |i: int| Some(TreeValueView::Tree(ids[i])))
}

/// The trees of a merge of labeled trees.
pub open spec fn merged_ids(terms: Seq<(MergedTreeModel, Seq<char>)>) -> Seq<Seq<Seq<u8>>> {
    Seq::new(terms.len(), |i: int| terms[i].0.ids)
}

/// The labels for a merge of labeled trees. A tree that is conflicted keeps its
/// own labels.
pub open spec fn merged_labels(terms: Seq<(MergedTreeModel, Seq<char>)>) -> Seq<Seq<Seq<char>>> {
    Seq::new(terms.len(), |i: int| terms[i].0.labels_by_term(terms[i].1))
}

/// The merge of labeled trees: all the trees that they are merges of, and their
/// labels, without the trees that cancel out.
pub open spec fn unresolved_merge(terms: Seq<(MergedTreeModel, Seq<char>)>) -> MergedTreeModel {
    let ids = simplify::flattened(merged_ids(terms));
    let labels = conflict_labels::effective_labels(simplify::flattened(merged_labels(terms)));
    MergedTreeModel {
        store: terms[0].0.store,
        ids: simplify::simplified(ids),
        labels: conflict_labels::simplified_labels(labels, ids),
    }
}

/// A tree once its contents have been merged as far as possible into trees with
/// the given IDs: no labels if that resolved it, or else what is left of the
/// trees and their labels.
pub open spec fn resolved_merge(model: MergedTreeModel, merged: Seq<Seq<u8>>) -> MergedTreeModel {
    if merged.len() == 1 {
        MergedTreeModel {
            store: model.store,
            ids: merged,
            labels: conflict_labels::unlabeled_terms(),
        }
    } else {
        MergedTreeModel {
            store: model.store,
            ids: simplify::simplified(merged),
            labels: conflict_labels::simplified_labels(model.labels, merged),
        }
    }
}

impl View for MergedTree {
    type V = MergedTreeModel;

    closed spec fn view(&self) -> MergedTreeModel {
        MergedTreeModel { store: *self.store, ids: self.tree_ids@, labels: self.labels@ }
    }
}

impl DeepView for MergedTree {
    type V = MergedTreeModel;

    open spec fn deep_view(&self) -> MergedTreeModel {
        self@
    }
}

impl Clone for MergedTree {
    fn clone(&self) -> (r: Self)
        ensures
            r@ == self@,
    {
        proof {
            use_type_invariant(self);
        }
        MergedTree {
            store: self.store.clone(),
            tree_ids: self.tree_ids.clone(),
            labels: self.labels.clone(),
        }
    }
}

impl MergedTree {
    #[verifier::type_invariant]
    spec fn type_inv(self) -> bool {
        self@.valid()
    }

    /// Creates a `MergedTree` with the given resolved tree ID.
    pub fn resolved(store: Arc<Store>, tree_id: TreeId) -> (r: Self)
        ensures
            r@ == (MergedTreeModel {
                store: *store,
                ids: seq![tree_id@],
                labels: conflict_labels::unlabeled_terms(),
            }),
    {
        let tree_ids = Merge::resolved(tree_id);
        assert(tree_ids@ =~= seq![tree_id@]);
        MergedTree { store, tree_ids, labels: ConflictLabels::unlabeled() }
    }

    /// Creates a `MergedTree` with the given tree IDs.
    pub fn new(store: Arc<Store>, tree_ids: Merge<TreeId>, labels: ConflictLabels) -> (r: Self)
        requires
            labels@.len() != 1 ==> labels@.len() == tree_ids@.len(),
        ensures
            r@ == (MergedTreeModel { store: *store, ids: tree_ids@, labels: labels@ }),
    {
        let _num_terms = tree_ids.as_slice().len();
        let _num_labels = labels.as_merge().as_slice().len();
        MergedTree { store, tree_ids, labels }
    }

    /// The `Store` associated with this tree.
    pub fn store(&self) -> (r: &Arc<Store>)
        ensures
            **r == self@.store,
    {
        &self.store
    }

    /// The underlying tree IDs for this `MergedTree`. If there are file changes
    /// between two trees, then the tree IDs will be different.
    pub fn tree_ids(&self) -> (r: &Merge<TreeId>)
        ensures
            r@ == self@.ids,
            self@.valid(),
    {
        proof {
            use_type_invariant(self);
        }
        &self.tree_ids
    }

    /// Extracts the underlying tree IDs for this `MergedTree`, discarding any
    /// conflict labels.
    pub fn into_tree_ids(self) -> (r: Merge<TreeId>)
        ensures
            r@ == self@.ids,
    {
        self.tree_ids
    }

    /// Returns this merge's conflict labels, if any.
    pub fn labels(&self) -> (r: &ConflictLabels)
        ensures
            r@ == self@.labels,
    {
        &self.labels
    }

    /// Returns both the underlying tree IDs and any conflict labels. This can
    /// be used to check whether there are changes in files to be materialized
    /// in the working copy.
    pub fn tree_ids_and_labels(&self) -> (r: (&Merge<TreeId>, &ConflictLabels))
        ensures
            r.0@ == self@.ids,
            r.1@ == self@.labels,
    {
        (&self.tree_ids, &self.labels)
    }

    /// Extracts the underlying tree IDs and conflict labels.
    pub fn into_tree_ids_and_labels(self) -> (r: (Merge<TreeId>, ConflictLabels))
        ensures
            r.0@ == self@.ids,
            r.1@ == self@.labels,
    {
        (self.tree_ids, self.labels)
    }

    /// Asks for the merge of tree objects represented by this `MergedTree`.
    pub fn trees(&self) -> (r: TreesRequest)
        ensures
            r@ == tree_read::request_of(PathView::empty(), root_value(self@.ids)),
    {
        let value = self.to_merged_tree_value();
        TreesRequest::for_side(&RepoPathBuf::root(), &value)
    }

    /// Returns a label for each term in a merge. Resolved merges use the
    /// provided label, while conflicted merges keep their original labels.
    /// Missing labels are indicated by empty strings.
    pub fn labels_by_term<'a>(&'a self, label: &'a str) -> (r: Merge<&'a str>)
        ensures
            r@ == self@.labels_by_term(label@),
            r@.len() == self@.ids.len(),
            self@.valid(),
    {
        proof {
            use_type_invariant(self);
        }
        if self.tree_ids.is_resolved() {
            let r = Merge::resolved(label);
            assert(r@ =~= seq![label@]);
            r
        } else if self.labels.has_labels() {
            // If the merge is conflicted and it already has labels, then we want to use
            // those labels instead of the provided label. This ensures that rebasing
            // conflicted commits keeps meaningful labels.
            let labels = self.labels.as_merge().as_slice();
            let n = labels.len();
            let mut values: Vec<&'a str> = Vec::new();
            for i in 0..n
                invariant
                    n == labels.len(),
                    values.len() == i,
                    forall|j: int| 0 <= j < i ==> (#[trigger] values@[j])@ == labels@[j]@,
            {
                values.push(labels[i].as_str());
            }
            let r = Merge::from_vec(values);
            assert(r@ =~= self@.labels);
            r
        } else {
            // If the merge is conflicted but it doesn't have labels (e.g. conflicts created
            // before labels were added), then we use empty strings to indicate missing
            // labels. We could consider using `label` for all the sides instead, but it
            // might be confusing.
            let _num_terms = self.tree_ids.as_slice().len();
            proof {
                reveal_strlit("");
                assert(""@ =~= Seq::<char>::empty());
            }
            let r = Merge::repeated("", self.tree_ids.num_sides());
            assert(r@ =~= self@.labels_by_term(label@));
            r
        }
    }

    /// Leaves the rest unresolved once any conflicts that can be automatically
    /// resolved have been: `merged` holds the trees after that.
    pub fn resolve(self, merged: Merge<TreeId>) -> (r: Self)
        requires
            merged@.len() == 1 || merged@.len() == self@.ids.len(),
        ensures
            r@ == resolved_merge(self@, merged@),
    {
        proof {
            use_type_invariant(&self);
        }
        let _num_terms = merged.as_slice().len();
        // If the result can be resolved, then `merged` is a resolved merge. However,
        // the arity of conflicts that cannot be resolved is preserved. So we simplify
        // the conflict again here to possibly reduce a complex conflict to a simpler
        // one.
        let (labels, tree_ids) = if merged.is_resolved() {
            (ConflictLabels::unlabeled(), merged)
        } else {
            self.labels.simplify_with(&merged)
        };
        proof {
            if merged@.len() != 1 {
                simplify::law_simplified(merged@);
            }
        }
        MergedTree::new(self.store, tree_ids, labels)
    }

    /// Whether this tree has conflicts.
    pub fn has_conflict(&self) -> (r: bool)
        ensures
            r == (self@.ids.len() != 1),
    {
        !self.tree_ids.is_resolved()
    }

    /// The value of the root directory.
    pub fn to_merged_tree_value(&self) -> (r: MergedTreeValue)
        ensures
            r@ == root_value(self@.ids),
            tree_value::is_tree(r@),
    {
        let ids = self.tree_ids.as_slice();
        let n = ids.len();
        let mut values: Vec<Option<TreeValue>> = Vec::new();
        for i in 0..n
            invariant
                n == ids.len(),
                values.len() == i,
                forall|j: int|
                    0 <= j < i ==> (#[trigger] values@[j]).deep_view() == Some(
                        TreeValueView::Tree(ids@[j]@),
                    ),
        {
            values.push(Some(TreeValue::Tree(ids[i].clone())));
        }
        let r = Merge::from_vec(values);
        assert(r@ =~= root_value(self@.ids));
        assert(r@[0] is Some);
        r
    }

    /// Merges the provided trees into a single `MergedTree`, without attempting
    /// to resolve file conflicts.
    pub fn merge_no_resolve(merge: Merge<(MergedTree, String)>) -> (r: Self)
        requires
            forall|i: int| 0 <= i < merge@.len() ==> (#[trigger] merge@[i]).0.store
                == merge@[0].0.store,
        ensures
            r@ == unresolved_merge(merge@),
    {
        let terms = merge.as_slice();
        let store = merge.first().0.store().clone();
        let n = terms.len();
        let mut labels: Vec<Merge<&str>> = Vec::new();
        let mut ids: Vec<Merge<TreeId>> = Vec::new();
        for i in 0..n
            invariant
                n == terms.len(),
                terms@ == merge.terms(),
                labels.len() == i,
                ids.len() == i,
                forall|j: int|
                    0 <= j < i ==> (#[trigger] labels@[j])@ == merged_labels(merge@)[j],
                forall|j: int| 0 <= j < i ==> (#[trigger] ids@[j])@ == merged_ids(merge@)[j],
                forall|j: int|
                    0 <= j < i ==> (#[trigger] labels@[j])@.len() == merged_ids(merge@)[j].len(),
                forall|j: int| 0 <= j < i ==> (#[trigger] merged_ids(merge@)[j]).len() % 2 == 1,
        {
            let (tree, label) = &terms[i];
            assert(merge@[i as int] == (tree@, label@));
            labels.push(tree.labels_by_term(label.as_str()));
            ids.push(tree.tree_ids().clone());
        }
        let labels = Merge::from_vec(labels);
        let ids = Merge::from_vec(ids);
        assert(labels@ =~= merged_labels(merge@));
        assert(ids@ =~= merged_ids(merge@));
        proof {
            assert forall|i: int| 0 <= i < ids@.len() implies (#[trigger] ids@[i]).len()
                == labels@[i].len() by {
                assert(labels.terms()[i]@.len() == merged_ids(merge@)[i].len());
            }
            simplify::lemma_flattened_len(ids@, labels@);
        }
        let flattened_ids = ids.flatten();
        let _num_ids = flattened_ids.as_slice().len();
        let flattened_labels = ConflictLabels::from_merge(owned_labels(&labels.flatten()));
        let (labels, tree_ids) = flattened_labels.simplify_with(&flattened_ids);
        proof {
            simplify::law_simplified(flattened_ids@);
        }
        MergedTree::new(store, tree_ids, labels)
    }

    /// Merges the provided trees into a single `MergedTree`. Any conflicts will be
    /// resolved recursively if possible, once their contents have been merged. The
    /// provided labels are used if a conflict arises. However, if one of the input
    /// trees is already conflicted, the corresponding label will be ignored, and
    /// its existing labels will be used instead.
    pub fn merge(merge: Merge<(MergedTree, String)>) -> (r: TreeMerge)
        requires
            forall|i: int| 0 <= i < merge@.len() ==> (#[trigger] merge@[i]).0.store
                == merge@[0].0.store,
        ensures
            r@ == unresolved_merge(merge@),
    {
        TreeMerge { tree: MergedTree::merge_no_resolve(merge) }
    }

    /// Returns `value`, which was found at the expected path of the copy `id`, if
    /// it is resolved and associated with that copy.
    pub fn copy_value(id: &CopyId, value: MergedTreeValue) -> (r: Option<TreeValue>)
        ensures
            match r {
                Some(v) => copy_value_in(id@, value@) == Some(v@),
                None => copy_value_in(id@, value@) is None,
            },
    {
        match value.into_resolved() {
            Ok(Some(v)) => {
                assert(value@ =~= seq![Some(v@)]);
                let found = match v.copy_id() {
                    Some(copy_id) => copy_id.same(id),
                    None => false,
                };
                if found {
                    Some(v)
                } else {
                    None
                }
            },
            Ok(None) => {
                assert(value@ =~= seq![None]);
                None
            },
            Err(_) => None,
        }
    }
}

/// A merge of trees whose contents are to be merged.
#[derive(Debug)]
pub struct TreeMerge {
    tree: MergedTree,
}

impl View for TreeMerge {
    type V = MergedTreeModel;

    closed spec fn view(&self) -> MergedTreeModel {
        self.tree@
    }
}

impl TreeMerge {
    /// The trees whose contents are to be merged as far as possible.
    pub fn tree_ids(&self) -> (r: &Merge<TreeId>)
        ensures
            r@ == self@.ids,
    {
        self.tree.tree_ids()
    }

    /// The merge once the contents have been: `merged` holds the trees after that.
    pub fn finish(self, merged: Merge<TreeId>) -> (r: MergedTree)
        requires
            merged@.len() == 1 || merged@.len() == self@.ids.len(),
        ensures
            r@ == resolved_merge(self@, merged@),
    {
        self.tree.resolve(merged)
    }
}

/// The value of a file with the given copy ID, if that is what a merged value is
/// resolved to.
pub open spec fn copy_value_in(id: Seq<u8>, value: MergedValueView) -> Option<TreeValueView> {
    if value.len() == 1 && value[0] is Some && tree_value::copy_id_of(value[0]->0) == Some(id) {
        value[0]
    } else {
        None
    }
}

fn owned_labels(labels: &Merge<&str>) -> (r: Merge<String>)
    ensures
        r@ == labels@,
{
    let terms = labels.as_slice();
    let n = terms.len();
    let mut values: Vec<String> = Vec::new();
    for i in 0..n
        invariant
            n == terms.len(),
            terms@ == labels.terms(),
            values.len() == i,
            forall|j: int| 0 <= j < i ==> (#[trigger] values@[j])@ == terms@[j]@,
    {
        values.push(terms[i].to_owned());
    }
    let r = Merge::from_vec(values);
    assert(r@ =~= labels@);
    r
}

/// Merging trees without resolving conflicts keeps how often each tree is added
/// less how often it is removed, and no tree is both added and removed then.
pub proof fn law_unresolved_merge(terms: Seq<(MergedTreeModel, Seq<char>)>, id: Seq<u8>)
    requires
        terms.len() % 2 == 1,
        forall|i: int| 0 <= i < terms.len() ==> (#[trigger] terms[i]).0.valid(),
        simplify::flattened(merged_ids(terms)).len() <= usize::MAX,
    ensures
        unresolved_merge(terms).valid(),
        merge::net(unresolved_merge(terms).ids, id) == simplify::net_of_merges(
            merged_ids(terms),
            id,
        ),
        simplify::is_simplified(unresolved_merge(terms).ids),
{
    let ids = merged_ids(terms);
    let labels = merged_labels(terms);
    assert forall|i: int| 0 <= i < ids.len() implies (#[trigger] ids[i]).len() % 2 == 1 by {
        assert(terms[i].0.valid());
    }
    assert forall|i: int| 0 <= i < ids.len() implies (#[trigger] ids[i]).len()
        == labels[i].len() by {
        assert(terms[i].0.valid());
    }
    simplify::law_flattened(ids, id);
    simplify::lemma_flattened_len(ids, labels);
    simplify::law_simplified(simplify::flattened(ids));
}

/// Where the contents cannot be merged any further, resolving changes nothing: not
/// a tree that was resolved before, nor a merge whose trees do not cancel out.
proof fn lemma_nothing_resolved(model: MergedTreeModel)
    requires
        model.valid(),
        model.ids.len() <= usize::MAX,
        model.ids.len() == 1 ==> model.labels == conflict_labels::unlabeled_terms(),
        simplify::simplified(model.ids) == model.ids,
        simplify::simplified_mapping(model.ids) == Seq::new(
            model.ids.len(),
            |i: int| i as usize,
        ),
    ensures
        resolved_merge(model, model.ids) == model,
{
    if model.ids.len() != 1 && model.labels.len() != 1 {
        let all = Seq::new(model.ids.len(), |i: int| i as usize);
        assert(simplify::terms_at(model.labels, all) =~= model.labels);
    }
}

proof fn lemma_resolved(model: MergedTreeModel, merged: Seq<Seq<u8>>)
    requires
        model.valid(),
        model.ids.len() <= usize::MAX,
        merged.len() == 1 || merged.len() == model.ids.len(),
    ensures
        resolved_merge(model, merged).valid(),
        resolved_merge(model, merged).ids.len() <= model.ids.len(),
        resolved_merge(model, merged).ids.len() == 1 ==> resolved_merge(model, merged).labels
            == conflict_labels::unlabeled_terms(),
        resolved_merge(resolved_merge(model, merged), resolved_merge(model, merged).ids)
            == resolved_merge(model, merged),
{
    let r = resolved_merge(model, merged);
    if merged.len() != 1 {
        simplify::law_simplified(merged);
        simplify::law_simplified_twice(merged);
        lemma_nothing_resolved(r);
    }
}

/// What the merge of the contents of trees leads to: the trees with the merged
/// contents.
pub type MergedContents = spec_fn(Seq<Seq<u8>>) -> Seq<Seq<u8>>;

/// The result of resolving a tree.
pub open spec fn resolved_by(model: MergedTreeModel, contents: MergedContents) -> MergedTreeModel {
    resolved_merge(model, contents(model.ids))
}

/// Whether merging the contents of the given trees resolves them or keeps their number.
pub open spec fn keeps_arity(contents: MergedContents, ids: Seq<Seq<u8>>) -> bool {
    contents(ids).len() == 1 || contents(ids).len() == ids.len()
}

/// Resolving keeps the store and never leaves more sides, and a resolved tree has no
/// labels. Resolving again changes nothing, neither trees nor labels, if and only if
/// merging the contents of the trees that are left does not change these trees.
pub proof fn law_resolved_twice(model: MergedTreeModel, contents: MergedContents)
    requires
        model.valid(),
        model.ids.len() <= usize::MAX,
        keeps_arity(contents, model.ids),
        keeps_arity(contents, resolved_by(model, contents).ids),
    ensures
        resolved_by(model, contents).valid(),
        resolved_by(model, contents).store == model.store,
        resolved_by(model, contents).ids.len() <= model.ids.len(),
        resolved_by(model, contents).ids.len() == 1 ==> resolved_by(model, contents).labels
            == conflict_labels::unlabeled_terms(),
        (resolved_by(resolved_by(model, contents), contents) == resolved_by(model, contents)) == (
        contents(resolved_by(model, contents).ids) == resolved_by(model, contents).ids),
{
    let r = resolved_by(model, contents);
    let again = contents(r.ids);
    lemma_resolved(model, contents(model.ids));
    if again.len() != 1 {
        simplify::law_simplified(again);
    }
}

/// A merge of trees is the unresolved merge of them, resolved. Where no contents can
/// be merged, it is the unresolved merge itself.
pub proof fn law_merge(terms: Seq<(MergedTreeModel, Seq<char>)>, merged: Seq<Seq<u8>>)
    requires
        terms.len() % 2 == 1,
        forall|i: int| 0 <= i < terms.len() ==> (#[trigger] terms[i]).0.valid(),
        simplify::flattened(merged_ids(terms)).len() <= usize::MAX,
        merged.len() == 1 || merged.len() == unresolved_merge(terms).ids.len(),
    ensures
        resolved_merge(unresolved_merge(terms), merged).valid(),
        resolved_merge(unresolved_merge(terms), merged).ids.len() == 1 ==> resolved_merge(
            unresolved_merge(terms),
            merged,
        ).labels == conflict_labels::unlabeled_terms(),
        merged == unresolved_merge(terms).ids ==> resolved_merge(unresolved_merge(terms), merged)
            == unresolved_merge(terms),
{
    let unresolved = unresolved_merge(terms);
    let ids = simplify::flattened(merged_ids(terms));
    law_unresolved_merge(terms, Seq::empty());
    assert(ids.len() % 2 == 1) by {
        let all = merged_ids(terms);
        assert forall|i: int| 0 <= i < all.len() implies (#[trigger] all[i]).len() % 2 == 1 by {
            assert(terms[i].0.valid());
        }
        simplify::law_flattened(all, Seq::empty());
    }
    simplify::law_simplified(ids);
    simplify::law_simplified_twice(ids);
    lemma_resolved(unresolved, merged);
    lemma_nothing_resolved(unresolved);
}

} // verus!
