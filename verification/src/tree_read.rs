//! Reading the trees of a merged value.

use crate::backend;
use crate::backend::BackendError;
use crate::backend::BackendResult;
use crate::backend::TreeId;
use crate::backend::TreeValue;
use crate::backend::TreeView;
use crate::merge::Merge;
use crate::repo_path::PathView;
use crate::repo_path::RepoPathBuf;
use crate::store::Store;
use crate::tree;
use crate::tree::Tree;
use crate::tree::TreeModel;
use crate::tree_value;
use crate::tree_value::MergedTreeValue;
use crate::tree_value::MergedValueView;
use crate::tree_value::TreeValueView;
use crate::vectors;
use std::sync::Arc;
use vstd::prelude::*;

verus! {

/// What a backend answers when it is asked for the tree with a given ID at a
/// given directory.
pub type Reads = spec_fn(PathView, Seq<u8>) -> Result<TreeView, BackendError>;

/// Whether all trees that the backend answers with are sorted.
pub open spec fn valid_reads(reads: Reads) -> bool {
    forall|dir: PathView, id: Seq<u8>|
        (#[trigger] reads(dir, id)) is Ok ==> backend::sorted_entries(reads(dir, id)->Ok_0)
}

/// The answers for the terms that are read. There is none for an absent term.
pub type Answers = Seq<Option<Result<TreeView, BackendError>>>;

/// The first error among the answers.
pub open spec fn first_error(answers: Answers) -> Option<BackendError>
    decreases answers.len(),
{
    if answers.len() == 0 {
        None
    } else {
        match first_error(answers.drop_last()) {
            Some(err) => Some(err),
            None => match answers.last() {
                Some(Err(err)) => Some(err),
                _ => None,
            },
        }
    }
}

/// The merge of the trees that were read: the first error, if there is one, or
/// else one tree for each term, which is empty for an absent term.
pub open spec fn merged_answers(store: Store, dir: PathView, answers: Answers) -> Result<
    Seq<TreeModel>,
    BackendError,
> {
    match first_error(answers) {
        Some(err) => Err(err),
        None => Ok(
            Seq::new(
                answers.len(),
                |i: int|
                    TreeModel {
                        store,
                        dir,
                        entries: match answers[i] {
                            Some(Ok(entries)) => entries,
                            _ => TreeView::empty(),
                        },
                    },
            ),
        ),
    }
}

/// The IDs of the terms that are trees.
pub open spec fn tree_ids_of(terms: MergedValueView) -> Seq<Option<Seq<u8>>> {
    Seq::new(
        terms.len(),
        |i: int|
            match terms[i] {
                Some(TreeValueView::Tree(id)) => Some(id),
                _ => None,
            },
    )
}

/// The IDs of the terms if they are all trees or absent, or else a single
/// absent term.
pub open spec fn tree_ids_or_absent(terms: MergedValueView) -> Seq<Option<Seq<u8>>> {
    if tree_value::only_trees(terms) {
        tree_ids_of(terms)
    } else {
        seq![None]
    }
}

/// What is read for the given IDs.
pub open spec fn answers(reads: Reads, dir: PathView, ids: Seq<Option<Seq<u8>>>) -> Answers {
    Seq::new(
        ids.len(),
        |i: int|
            match ids[i] {
                Some(id) => Some(reads(dir, id)),
                None => None,
            },
    )
}

/// The merge of the trees with the given IDs, as the backend answers.
pub open spec fn read_trees(
    reads: Reads,
    store: Store,
    dir: PathView,
    ids: Seq<Option<Seq<u8>>>,
) -> Result<Seq<TreeModel>, BackendError> {
    merged_answers(store, dir, answers(reads, dir, ids))
}

/// The trees with the given IDs have as many terms, in the same directory.
pub proof fn lemma_read_trees(
    reads: Reads,
    store: Store,
    dir: PathView,
    ids: Seq<Option<Seq<u8>>>,
)
    requires
        valid_reads(reads),
        read_trees(reads, store, dir, ids) is Ok,
    ensures
        ({
            let trees = read_trees(reads, store, dir, ids)->Ok_0;
            &&& trees.len() == ids.len()
            &&& forall|i: int|
                0 <= i < trees.len() ==> {
                    &&& (#[trigger] trees[i]).store == store
                    &&& trees[i].dir == dir
                    &&& backend::sorted_entries(trees[i].entries)
                }
        }),
{
    let all = answers(reads, dir, ids);
    let trees = read_trees(reads, store, dir, ids)->Ok_0;
    assert forall|i: int| 0 <= i < trees.len() implies {
        &&& (#[trigger] trees[i]).store == store
        &&& trees[i].dir == dir
        &&& backend::sorted_entries(trees[i].entries)
    } by {
        lemma_no_error(all, i);
        match ids[i] {
            Some(id) => {
                assert(reads(dir, id) is Ok);
            },
            None => {},
        }
    }
}

proof fn lemma_no_error(answers: Answers, i: int)
    requires
        first_error(answers) is None,
        0 <= i < answers.len(),
    ensures
        !(answers[i] matches Some(Err(_))),
    decreases answers.len(),
{
    if i < answers.len() - 1 {
        lemma_no_error(answers.drop_last(), i);
    }
}

/// A single absent term is read as an empty tree.
pub proof fn lemma_read_absent(reads: Reads, store: Store, dir: PathView)
    ensures
        read_trees(reads, store, dir, seq![None]) == Ok::<Seq<TreeModel>, BackendError>(
            seq![tree::empty_tree(store, dir)],
        ),
{
    let all = answers(reads, dir, seq![None]);
    reveal_with_fuel(first_error, 2);
    assert(first_error(all) is None);
    assert(read_trees(reads, store, dir, seq![None])->Ok_0 =~= seq![tree::empty_tree(store, dir)]);
}

/// The model of a request: the directory, and the IDs of the trees.
#[verifier::ext_equal]
pub ghost struct TreesRequestView {
    /// The directory of the trees.
    pub dir: PathView,
    /// The IDs of the terms that are present.
    pub ids: Seq<Option<Seq<u8>>>,
}

/// Asks for the trees of a merged value at a directory. Whoever drives the walk
/// reads the trees that have IDs and hands over the answers.
#[derive(Debug)]
pub struct TreesRequest {
    dir: RepoPathBuf,
    ids: Merge<Option<TreeId>>,
}

impl View for TreesRequest {
    type V = TreesRequestView;

    closed spec fn view(&self) -> TreesRequestView {
        TreesRequestView { dir: self.dir@, ids: self.ids@ }
    }
}

/// The answers that were handed over.
pub open spec fn answers_view(answers: Seq<Option<BackendResult<backend::Tree>>>) -> Answers {
    Seq::new(
        answers.len(),
        |i: int|
            match answers[i] {
                Some(Ok(data)) => Some(Ok(data@)),
                Some(Err(err)) => Some(Err(err)),
                None => None,
            },
    )
}

/// What is to be read for a merged value: its trees.
pub open spec fn request_of(dir: PathView, terms: MergedValueView) -> TreesRequestView {
    TreesRequestView { dir, ids: tree_ids_of(terms) }
}

/// What is to be read for one side of a difference: its trees, or an empty tree
/// if it is something else.
pub open spec fn side_request_of(dir: PathView, terms: MergedValueView) -> TreesRequestView {
    TreesRequestView { dir, ids: tree_ids_or_absent(terms) }
}

impl TreesRequest {
    /// Asks for the trees of `value`, if every term is a tree or absent.
    pub fn for_value(dir: &RepoPathBuf, value: &MergedTreeValue) -> (r: Option<Self>)
        ensures
            match r {
                Some(request) => tree_value::only_trees(value@) && request@ == request_of(
                    dir@,
                    value@,
                ),
                None => !tree_value::only_trees(value@),
            },
    {
        let terms = value.as_slice();
        let n = terms.len();
        let mut ids: Vec<Option<TreeId>> = Vec::new();
        for i in 0..n
            invariant
                n == terms.len(),
                terms@ == value.terms(),
                ids.len() == i,
                forall|j: int|
                    0 <= j < i ==> ((#[trigger] value@[j]) is None || value@[j]->0 is Tree),
                forall|j: int|
                    0 <= j < i ==> (#[trigger] ids@[j]).deep_view() == tree_ids_of(value@)[j],
        {
            assert(value@[i as int] == terms@[i as int].deep_view());
            match &terms[i] {
                None => {
                    ids.push(None);
                },
                Some(TreeValue::Tree(id)) => {
                    ids.push(Some(id.clone()));
                },
                _ => {
                    return None;
                },
            }
        }
        let r = TreesRequest { dir: dir.clone(), ids: Merge::from_vec(ids) };
        assert(r@.ids =~= tree_ids_of(value@));
        Some(r)
    }

    /// Asks for the trees of `value`, or for an empty tree if it has a term that
    /// is neither a tree nor absent.
    pub fn for_side(dir: &RepoPathBuf, value: &MergedTreeValue) -> (r: Self)
        ensures
            r@ == side_request_of(dir@, value@),
    {
        match Self::for_value(dir, value) {
            Some(request) => request,
            None => {
                let r = TreesRequest { dir: dir.clone(), ids: Merge::absent() };
                assert(r@.ids =~= seq![None]);
                r
            },
        }
    }

    /// The directory of the trees.
    pub fn dir(&self) -> (r: &RepoPathBuf)
        ensures
            r@ == self@.dir,
    {
        &self.dir
    }

    /// The IDs of the trees to read.
    pub fn ids(&self) -> (r: &Merge<Option<TreeId>>)
        ensures
            r@ == self@.ids,
            r@.len() % 2 == 1,
    {
        let _n = self.ids.as_slice().len();
        &self.ids
    }

    /// The merge of the trees, given what was read for each term that has an ID.
    pub fn finish(
        &self,
        store: &Arc<Store>,
        answers: Vec<Option<BackendResult<backend::Tree>>>,
    ) -> (r: BackendResult<Merge<Tree>>)
        requires
            answers.len() == self@.ids.len(),
        ensures
            match r {
                Ok(trees) => merged_answers(**store, self@.dir, answers_view(answers@)) == Ok::<
                    Seq<TreeModel>,
                    BackendError,
                >(trees@),
                Err(err) => merged_answers(**store, self@.dir, answers_view(answers@)) == Err::<
                    Seq<TreeModel>,
                    BackendError,
                >(err),
            },
    {
        let n = self.ids.as_slice().len();
        let ghost all = answers_view(answers@);
        let ghost given = answers@;
        let mut rest = vectors::reversed(answers);
        let mut trees: Vec<Tree> = Vec::new();
        assert(rest@ =~= given.reverse());
        for i in 0..n
            invariant
                n == all.len(),
                n == given.len(),
                n % 2 == 1,
                all == answers_view(given),
                given == answers@,
                rest@ =~= given.skip(i as int).reverse(),
                trees.len() == i,
                first_error(all.take(i as int)) is None,
                forall|j: int|
                    0 <= j < i ==> (#[trigger] trees@[j])@ == (TreeModel {
                        store: **store,
                        dir: self@.dir,
                        entries: match all[j] {
                            Some(Ok(entries)) => entries,
                            _ => TreeView::empty(),
                        },
                    }),
        {
            let ghost before = rest@;
            let answer = rest.pop();
            proof {
                assert(before.len() > 0);
                assert(answer == Some(given[i as int]));
                assert(rest@ =~= given.skip(i + 1).reverse());
                assert(all.take(i + 1).drop_last() =~= all.take(i as int));
                assert(all.take(i + 1).last() == all[i as int]);
            }
            match answer {
                Some(Some(Ok(data))) => {
                    trees.push(Tree::new(store.clone(), self.dir.clone(), data));
                },
                Some(Some(Err(err))) => {
                    proof {
                        lemma_first_error_prefix(all, i + 1);
                    }
                    return Err(err);
                },
                _ => {
                    trees.push(Tree::empty(store.clone(), self.dir.clone()));
                },
            }
        }
        assert(all.take(n as int) =~= all);
        let r = Merge::from_vec(trees);
        assert(r@ =~= merged_answers(**store, self@.dir, all)->Ok_0);
        Ok(r)
    }
}

proof fn lemma_first_error_prefix(answers: Answers, n: int)
    requires
        0 <= n <= answers.len(),
        first_error(answers.take(n)) is Some,
    ensures
        first_error(answers) == first_error(answers.take(n)),
    decreases answers.len() - n,
{
    if n == answers.len() {
        assert(answers.take(n) =~= answers);
    } else {
        assert(answers.take(n + 1).drop_last() =~= answers.take(n));
        lemma_first_error_prefix(answers, n + 1);
    }
}

} // verus!
