//! Differences that take copy histories into account.

use crate::backend::BackendError;
use crate::backend::BackendResult;
use crate::merge;
use crate::merge::Merge;
use crate::repo_path::PathView;
use crate::repo_path::RepoPathBuf;
use crate::tree_diff;
use crate::tree_diff::DiffResult;
use crate::tree_diff::TreeDiffEntry;
use crate::tree_value::MergedTreeValue;
use crate::tree_value::MergedValueView;
use crate::tree_value::TreeValue;
use crate::tree_value::TreeValueView;
use crate::value::Value;
use vstd::prelude::*;

verus! {

/// Describes the source of a CopyHistoryDiffTerm
#[derive(Debug, PartialEq, Eq, Hash)]
pub enum CopyHistorySource {
    /// The file was copied from a source at a different path
    Copy(RepoPathBuf),
    /// The file was renamed from a source at a different path
    Rename(RepoPathBuf),
    /// The source and target have the same path
    Normal,
}

/// The model of a `CopyHistorySource`.
#[verifier::ext_equal]
pub ghost enum CopySourceView {
    /// Copied from a different path.
    Copy(PathView),
    /// Renamed from a different path.
    Rename(PathView),
    /// At the same path.
    Normal,
}

impl View for CopyHistorySource {
    type V = CopySourceView;

    open spec fn view(&self) -> CopySourceView {
        match self {
            CopyHistorySource::Copy(path) => CopySourceView::Copy(path@),
            CopyHistorySource::Rename(path) => CopySourceView::Rename(path@),
            CopyHistorySource::Normal => CopySourceView::Normal,
        }
    }
}

impl DeepView for CopyHistorySource {
    type V = CopySourceView;

    open spec fn deep_view(&self) -> CopySourceView {
        self@
    }
}

impl Value for CopyHistorySource {
    fn same(&self, other: &Self) -> (r: bool) {
        match (self, other) {
            (CopyHistorySource::Copy(a), CopyHistorySource::Copy(b)) => a.same(b),
            (CopyHistorySource::Rename(a), CopyHistorySource::Rename(b)) => a.same(b),
            (CopyHistorySource::Normal, CopyHistorySource::Normal) => true,
            _ => false,
        }
    }

    fn dup(&self) -> (r: Self) {
        match self {
            CopyHistorySource::Copy(path) => CopyHistorySource::Copy(path.dup()),
            CopyHistorySource::Rename(path) => CopyHistorySource::Rename(path.dup()),
            CopyHistorySource::Normal => CopyHistorySource::Normal,
        }
    }
}

impl Clone for CopyHistorySource {
    fn clone(&self) -> (r: Self)
        ensures
            r@ == self@,
    {
        self.dup()
    }
}

/// The sources of a difference, with the values that they had.
pub type SourcesView = Seq<(CopySourceView, MergedValueView)>;

/// Describes a single term of a copy-aware diff
#[derive(Debug, PartialEq, Eq, Hash)]
pub struct CopyHistoryDiffTerm {
    /// The current value of the target, if present
    pub target_value: Option<TreeValue>,
    /// List of sources, whether they were copied, renamed, or neither, and the
    /// original value
    pub sources: Vec<(CopyHistorySource, MergedTreeValue)>,
}

/// The model of a `CopyHistoryDiffTerm`.
#[verifier::ext_equal]
pub ghost struct DiffTermView {
    /// The current value of the target, if present.
    pub target_value: Option<TreeValueView>,
    /// The sources.
    pub sources: SourcesView,
}

impl DeepView for CopyHistoryDiffTerm {
    type V = DiffTermView;

    open spec fn deep_view(&self) -> DiffTermView {
        DiffTermView {
            target_value: self.target_value.deep_view(),
            sources: self.sources.deep_view(),
        }
    }
}

/// The terms of a difference, or why they are not known.
pub type TermsResult = Result<Seq<DiffTermView>, BackendError>;

/// The model of the terms of a `CopyHistoryTreeDiffEntry`.
pub open spec fn terms_view(diffs: BackendResult<Merge<CopyHistoryDiffTerm>>) -> TermsResult {
    match diffs {
        Ok(terms) => Ok(terms@),
        Err(err) => Err(err),
    }
}

/// Like a `TreeDiffEntry`, but takes `CopyHistory`s into account
#[derive(Debug)]
pub struct CopyHistoryTreeDiffEntry {
    /// The final source path (after copy/rename if applicable)
    pub target_path: RepoPathBuf,
    /// The resolved values for the target and source(s), if available
    pub diffs: BackendResult<Merge<CopyHistoryDiffTerm>>,
}

/// The model of a `CopyHistoryTreeDiffEntry`.
pub type CopyEntryView = (PathView, TermsResult);

impl View for CopyHistoryTreeDiffEntry {
    type V = CopyEntryView;

    open spec fn view(&self) -> CopyEntryView {
        (self.target_path@, terms_view(self.diffs))
    }
}

/// The sources of a difference without copy tracing: what was there before, if
/// anything was.
pub open spec fn plain_sources(before: MergedValueView) -> SourcesView {
    if merge::is_absent(before) {
        Seq::empty()
    } else {
        seq![(CopySourceView::Normal, before)]
    }
}

/// The terms of a difference without copy tracing: one for each term of what is
/// there after it.
pub open spec fn plain_terms(diff: merge::Diff<MergedValueView>) -> Seq<DiffTermView> {
    Seq::new(
        diff.after.len(),
        |i: int|
            DiffTermView { target_value: diff.after[i], sources: plain_sources(diff.before) },
    )
}

/// The difference at a path without copy tracing.
pub open spec fn plain_entry(path: PathView, values: DiffResult) -> CopyEntryView {
    (
        path,
        match values {
            Ok(diff) => Ok(plain_terms(diff)),
            Err(err) => Err(err),
        },
    )
}

impl CopyHistoryTreeDiffEntry {
    /// Simple conversion case where no copy tracing is needed
    pub fn normal(diff_entry: TreeDiffEntry) -> (r: Self)
        ensures
            r@ == plain_entry(diff_entry@.0, diff_entry@.1),
    {
        let target_path = diff_entry.path;
        let diff = match diff_entry.values {
            Ok(diff) => diff,
            Err(err) => return CopyHistoryTreeDiffEntry { target_path, diffs: Err(err) },
        };
        let ghost before = diff.before@;
        let ghost after = diff.after@;
        let absent = diff.before.is_absent();
        assert(merge::is_absent(diff.before.terms()) == merge::is_absent(before)) by {
            if before.len() == 1 {
                assert(before[0] == diff.before.terms()[0].deep_view());
            }
        }
        let mut sources: Vec<(CopyHistorySource, MergedTreeValue)> = Vec::new();
        if !absent {
            sources.push((CopyHistorySource::Normal, diff.before));
        }
        assert(sources.deep_view() =~= plain_sources(before));
        let values = diff.after.into_vec();
        let n = values.len();
        let mut terms: Vec<CopyHistoryDiffTerm> = Vec::new();
        for i in 0..n
            invariant
                n == values.len(),
                n == after.len(),
                sources.deep_view() == plain_sources(before),
                forall|j: int| 0 <= j < n ==> values@[j].deep_view() == #[trigger] after[j],
                terms.len() == i,
                forall|j: int|
                    0 <= j < i ==> (#[trigger] terms@[j]).deep_view() == (DiffTermView {
                        target_value: after[j],
                        sources: plain_sources(before),
                    }),
        {
            assert(values@[i as int].deep_view() == after[i as int]);
            terms.push(
                CopyHistoryDiffTerm { target_value: values[i].dup(), sources: sources.dup() },
            );
        }
        let diffs = Merge::from_vec(terms);
        assert(diffs@ =~= plain_terms(diff_entry@.1->Ok_0));
        CopyHistoryTreeDiffEntry { target_path, diffs: Ok(diffs) }
    }
}

} // verus!
