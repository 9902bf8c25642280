//! Looking up the value at a path of a merged tree.

use crate::backend::BackendError;
use crate::merge;
use crate::merge::Merge;
use crate::merged_tree;
use crate::merged_tree::MergedTree;
use crate::repo_path;
use crate::repo_path::PathView;
use crate::repo_path::RepoPathBuf;
use crate::repo_path::RepoPathComponentBuf;
use crate::store::Store;
use crate::tree;
use crate::tree::Tree;
use crate::tree_read;
use crate::tree_read::Reads;
use crate::tree_read::TreesRequest;
use crate::tree_value;
use crate::tree_value::MergedTreeValue;
use crate::tree_value::MergedValueView;
use crate::value::Value;
use std::sync::Arc;
use vstd::prelude::*;

verus! {

/// The merged value at a path, below a root directory with the given value: it
/// is found in the trees of the directory that holds it. Nothing is found in what
/// is not a directory.
pub open spec fn value_at(
    reads: Reads,
    store: Store,
    root: MergedValueView,
    path: PathView,
) -> Result<MergedValueView, BackendError>
    decreases path.len(),
{
    if path.len() == 0 {
        Ok(root)
    } else {
        let dir = path.drop_last();
        match value_at(reads, store, root, dir) {
            Err(err) => Err(err),
            Ok(value) => if !tree_value::is_tree(value) {
                Ok(merge::absent_terms())
            } else {
                match tree_read::read_trees(reads, store, dir, tree_read::tree_ids_of(value)) {
                    Err(err) => Err(err),
                    Ok(trees) => Ok(tree::tree_value(trees, path.last())),
                }
            },
        }
    }
}

/// Nothing is found below what is not a directory.
pub proof fn lemma_below_file(
    reads: Reads,
    store: Store,
    root: MergedValueView,
    base: PathView,
    path: PathView,
)
    requires
        repo_path::path_starts_with(path, base),
        path.len() > base.len(),
        value_at(reads, store, root, base) is Ok,
        !tree_value::is_tree(value_at(reads, store, root, base)->Ok_0),
    ensures
        value_at(reads, store, root, path) == Ok::<MergedValueView, BackendError>(
            merge::absent_terms(),
        ),
    decreases path.len(),
{
    let dir = path.drop_last();
    if dir.len() > base.len() {
        assert(dir.take(base.len() as int) =~= path.take(base.len() as int));
        lemma_below_file(reads, store, root, base, dir);
    } else {
        assert(dir =~= path.take(base.len() as int));
    }
}

/// Whatever lies below a path that cannot be reached cannot be reached either.
pub proof fn lemma_below_error(
    reads: Reads,
    store: Store,
    root: MergedValueView,
    base: PathView,
    path: PathView,
)
    requires
        repo_path::path_starts_with(path, base),
        value_at(reads, store, root, base) is Err,
    ensures
        value_at(reads, store, root, path) == value_at(reads, store, root, base),
    decreases path.len(),
{
    if path.len() == base.len() {
        assert(path =~= path.take(base.len() as int));
    } else {
        let dir = path.drop_last();
        assert(dir.take(base.len() as int) =~= path.take(base.len() as int));
        lemma_below_error(reads, store, root, base, dir);
    }
}

/// The model of a lookup: the value that was found for the first names of the
/// path.
#[verifier::ext_equal]
pub ghost struct PathLookupModel {
    /// The store of the tree.
    pub store: Store,
    /// The path to look up.
    pub path: PathView,
    /// How many names of it have been looked up.
    pub depth: int,
    /// The value at these names.
    pub value: MergedValueView,
}

/// What a lookup needs next.
#[derive(Debug)]
pub enum PathLookupStep {
    /// The value at the path was found.
    Done(MergedTreeValue),
    /// These trees have to be read.
    Read(TreesRequest),
}

/// Looks up the value at a path. The value can be resolved even if the tree is
/// not, which happens if the value at the path can be trivially merged.
#[derive(Debug)]
pub struct PathLookup {
    store: Arc<Store>,
    path: RepoPathBuf,
    depth: usize,
    value: MergedTreeValue,
}

impl View for PathLookup {
    type V = PathLookupModel;

    closed spec fn view(&self) -> PathLookupModel {
        PathLookupModel {
            store: *self.store,
            path: self.path@,
            depth: self.depth as int,
            value: self.value@,
        }
    }
}

impl MergedTree {
    /// Looks up the value at the given path. The value can be resolved even if
    /// `self` is a conflict, which happens if the value at the path can be
    /// trivially merged.
    pub fn path_value(&self, path: &RepoPathBuf) -> (r: PathLookup)
        ensures
            r@ == (PathLookupModel {
                store: self@.store,
                path: path@,
                depth: 0,
                value: merged_tree::root_value(self@.ids),
            }),
    {
        PathLookup {
            store: self.store().clone(),
            path: path.clone(),
            depth: 0,
            value: self.to_merged_tree_value(),
        }
    }
}

impl PathLookup {
    #[verifier::type_invariant]
    spec fn type_inv(self) -> bool {
        self.depth <= self.path@.len()
    }

    /// The store of the tree.
    pub fn store(&self) -> (r: &Arc<Store>)
        ensures
            **r == self@.store,
    {
        &self.store
    }

    /// What is needed next: the trees that hold the next name of the path, if
    /// there is one and it is looked up in a directory.
    pub fn step(&self) -> (r: PathLookupStep)
        ensures
            0 <= self@.depth <= self@.path.len(),
            match r {
                PathLookupStep::Done(value) => {
                    &&& self@.depth == self@.path.len() || !tree_value::is_tree(self@.value)
                    &&& value@ == (if self@.depth == self@.path.len() {
                        self@.value
                    } else {
                        merge::absent_terms()
                    })
                },
                PathLookupStep::Read(request) => {
                    &&& self@.depth < self@.path.len()
                    &&& tree_value::is_tree(self@.value)
                    &&& request@ == tree_read::request_of(
                        self@.path.take(self@.depth),
                        self@.value,
                    )
                },
            },
    {
        proof {
            use_type_invariant(self);
        }
        let components = self.path.components();
        let n = components.len();
        if self.depth == n {
            return PathLookupStep::Done(self.value.dup());
        }
        if !self.value.is_tree() {
            let value = Merge::absent();
            assert(value@ =~= merge::absent_terms());
            return PathLookupStep::Done(value);
        }
        let mut names: Vec<RepoPathComponentBuf> = Vec::new();
        for i in 0..self.depth
            invariant
                n == components.len(),
                self.depth <= n,
                components.deep_view() == self@.path,
                names.len() == i,
                forall|j: int| 0 <= j < i ==> (#[trigger] names@[j])@ == self@.path[j],
        {
            names.push(components[i].dup());
            assert(self@.path[i as int] == components@[i as int]@);
        }
        let dir = RepoPathBuf::from_components(names);
        assert(dir@ =~= self@.path.take(self@.depth));
        PathLookupStep::Read(TreesRequest::for_side(&dir, &self.value))
    }

    /// Goes on with the trees that were asked for.
    pub fn resume(&mut self, trees: &Merge<Tree>)
        requires
            old(self)@.depth < old(self)@.path.len(),
        ensures
            final(self)@ == (PathLookupModel {
                depth: old(self)@.depth + 1,
                value: tree::tree_value(trees@, old(self)@.path[old(self)@.depth]),
                ..old(self)@
            }),
    {
        let depth = self.depth;
        let components = self.path.components();
        let ghost path = self.path@;
        assert(depth < components.len());
        assert(path[depth as int] == components@[depth as int]@);
        let value = trees.value(&components[depth]).cloned();
        self.value = value;
        self.depth = depth + 1;
    }
}

/// A lookup that has found the values on its way so far finds the next one in
/// the trees that it asks for, and what it ends with is the value at the path.
pub proof fn law_path_lookup(reads: Reads, root: MergedValueView, lookup: PathLookupModel)
    requires
        0 <= lookup.depth <= lookup.path.len(),
        value_at(reads, lookup.store, root, lookup.path.take(lookup.depth)) == Ok::<
            MergedValueView,
            BackendError,
        >(lookup.value),
    ensures
        lookup.depth == lookup.path.len() ==> value_at(reads, lookup.store, root, lookup.path)
            == Ok::<MergedValueView, BackendError>(lookup.value),
        lookup.depth < lookup.path.len() && !tree_value::is_tree(lookup.value) ==> value_at(
            reads,
            lookup.store,
            root,
            lookup.path,
        ) == Ok::<MergedValueView, BackendError>(merge::absent_terms()),
        lookup.depth < lookup.path.len() && tree_value::is_tree(lookup.value) ==> {
            let request = tree_read::request_of(lookup.path.take(lookup.depth), lookup.value);
            match tree_read::read_trees(reads, lookup.store, request.dir, request.ids) {
                Ok(trees) => value_at(
                    reads,
                    lookup.store,
                    root,
                    lookup.path.take(lookup.depth + 1),
                ) == Ok::<MergedValueView, BackendError>(
                    tree::tree_value(trees, lookup.path[lookup.depth]),
                ),
                Err(err) => value_at(reads, lookup.store, root, lookup.path) == Err::<
                    MergedValueView,
                    BackendError,
                >(err),
            }
        },
{
    let base = lookup.path.take(lookup.depth);
    if lookup.depth == lookup.path.len() {
        assert(base =~= lookup.path);
    } else {
        assert(lookup.path.take(base.len() as int) =~= base);
        if !tree_value::is_tree(lookup.value) {
            lemma_below_file(reads, lookup.store, root, base, lookup.path);
        } else {
            let next = lookup.path.take(lookup.depth + 1);
            assert(next.drop_last() =~= base);
            assert(next.last() == lookup.path[lookup.depth]);
            if tree_read::read_trees(
                reads,
                lookup.store,
                base,
                tree_read::tree_ids_of(lookup.value),
            ) is Err {
                assert(lookup.path.take(next.len() as int) =~= next);
                lemma_below_error(reads, lookup.store, root, next, lookup.path);
            }
        }
    }
}

} // verus!
