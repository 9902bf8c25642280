//! The objects that a commit backend stores, and the errors that it reports.

use crate::listing;
use crate::merge::Merge;
pub use crate::object_id::ChangeId;
pub use crate::object_id::CommitId;
pub use crate::object_id::CopyId;
pub use crate::object_id::FileId;
pub use crate::object_id::SymlinkId;
pub use crate::object_id::TreeId;
use crate::order;
use crate::repo_path::NameView;
use crate::repo_path::PathView;
use crate::repo_path::RepoPathBuf;
use crate::repo_path::RepoPathComponentBuf;
pub use crate::timestamp::MillisSinceEpoch;
pub use crate::timestamp::Timestamp;
pub use crate::timestamp::TimestampOutOfRange;
pub use crate::tree_value::MergedTreeVal;
pub use crate::tree_value::MergedTreeValue;
pub use crate::tree_value::TreeValue;
use crate::tree_value::TreeValueView;
use crate::value::Value;
use vstd::prelude::*;

verus! {

/// Represents a person/entity and a timestamp for when they authored or
/// committed a commit.
#[derive(Hash, Debug, PartialEq, Eq)]
pub struct Signature {
    /// The name of the person/entity.
    pub name: String,
    /// The email address of the person/entity.
    pub email: String,
    /// The timestamp for when the person/entity authored or committed the
    /// commit.
    pub timestamp: Timestamp,
}

impl Clone for Signature {
    fn clone(&self) -> (r: Self)
        ensures
            r.name@ == self.name@,
            r.email@ == self.email@,
            r.timestamp == self.timestamp,
    {
        Signature {
            name: self.name.clone(),
            email: self.email.clone(),
            timestamp: self.timestamp,
        }
    }
}

/// Represents a cryptographically signed [`Commit`] signature.
#[derive(Debug, PartialEq, Eq)]
pub struct SecureSig {
    /// The raw data that was signed to produce this signature.
    pub data: Vec<u8>,
    /// The signature itself.
    pub sig: Vec<u8>,
}

impl Clone for SecureSig {
    fn clone(&self) -> (r: Self)
        ensures
            r.data@ == self.data@,
            r.sig@ == self.sig@,
    {
        broadcast use crate::value::lemma_bytes_deep_view;

        SecureSig { data: self.data.dup(), sig: self.sig.dup() }
    }
}

/// Represents a commit object, which contains a reference to the contents a
/// that point in time, along with metadata about the commit.
#[derive(Debug, PartialEq, Eq)]
pub struct Commit {
    /// The parent commits of this commit. Commits typically have one parents,
    /// but they can have any number of parents. Only the root commit has no
    /// parents.
    pub parents: Vec<CommitId>,
    /// The predecessor commits of this commit, i.e. commits that were rewritten
    /// to create this commit.
    pub predecessors: Vec<CommitId>,
    /// The tree at the root directory in this commit.
    pub root_tree: Merge<TreeId>,
    /// If resolved, must be empty string. Otherwise, must have same number of
    /// terms as `root_tree`.
    pub conflict_labels: Merge<String>,
    /// The change ID of this commit. This is a stable identifier that follows
    /// the commit when it's rewritten.
    pub change_id: ChangeId,
    /// The description (commit message).
    pub description: String,
    /// The person/entity that authored this commit.
    pub author: Signature,
    /// The person/entity that committed this commit.
    pub committer: Signature,
    /// A cryptographic signature of this commit.
    pub secure_sig: Option<SecureSig>,
}

impl Clone for Commit {
    fn clone(&self) -> (r: Self)
        ensures
            r.parents.deep_view() == self.parents.deep_view(),
            r.predecessors.deep_view() == self.predecessors.deep_view(),
            r.root_tree@ == self.root_tree@,
            r.conflict_labels@ == self.conflict_labels@,
            r.change_id@ == self.change_id@,
            r.description@ == self.description@,
            r.author.name@ == self.author.name@,
            r.author.email@ == self.author.email@,
            r.author.timestamp == self.author.timestamp,
            r.committer.name@ == self.committer.name@,
            r.committer.email@ == self.committer.email@,
            r.committer.timestamp == self.committer.timestamp,
            match (r.secure_sig, self.secure_sig) {
                (Some(a), Some(b)) => a.data@ == b.data@ && a.sig@ == b.sig@,
                (None, None) => true,
                _ => false,
            },
    {
        Commit {
            parents: self.parents.dup(),
            predecessors: self.predecessors.dup(),
            root_tree: self.root_tree.clone(),
            conflict_labels: self.conflict_labels.clone(),
            change_id: self.change_id.clone(),
            description: self.description.clone(),
            author: self.author.clone(),
            committer: self.committer.clone(),
            secure_sig: match &self.secure_sig {
                Some(sig) => Some(sig.clone()),
                None => None,
            },
        }
    }
}

/// An individual copy event, from file A -> B.
#[derive(Debug, PartialEq, Eq)]
pub struct CopyRecord {
    /// The destination of the copy, B.
    pub target: RepoPathBuf,
    /// The CommitId where the copy took place.
    pub target_commit: CommitId,
    /// The source path a target was copied from.
    ///
    /// It is not required that the source path is different than the target
    /// path. A custom backend may choose to represent 'rollbacks' as copies
    /// from a file unto itself, from a specific prior commit.
    pub source: RepoPathBuf,
    /// The file id of the source file.
    pub source_file: FileId,
    /// The source commit the target was copied from. Backends may use this
    /// field to implement 'integration' logic, where a source may be
    /// periodically merged into a target, similar to a branch, but the
    /// branching occurs at the file level rather than the repository level. It
    /// also follows naturally that any copy source targeted to a specific
    /// commit should avoid copy propagation on rebasing, which is desirable
    /// for 'fork' style copies.
    ///
    /// It is required that the commit id is an ancestor of the commit with
    /// which this copy source is associated.
    pub source_commit: CommitId,
}

impl Clone for CopyRecord {
    fn clone(&self) -> (r: Self)
        ensures
            r.target@ == self.target@,
            r.target_commit@ == self.target_commit@,
            r.source@ == self.source@,
            r.source_file@ == self.source_file@,
            r.source_commit@ == self.source_commit@,
    {
        CopyRecord {
            target: self.target.clone(),
            target_commit: self.target_commit.clone(),
            source: self.source.clone(),
            source_file: self.source_file.clone(),
            source_commit: self.source_commit.clone(),
        }
    }
}

/// Describes the copy history of a file. The copy object is unchanged when a
/// file is modified.
#[derive(Debug, PartialEq, Eq, PartialOrd, Ord)]
pub struct CopyHistory {
    /// The file's current path.
    pub current_path: RepoPathBuf,
    /// IDs of the files that became the current incarnation of this file.
    ///
    /// A newly created file has no parents. A regular copy or rename has one
    /// parent. A merge of multiple files has multiple parents.
    pub parents: Vec<CopyId>,
    /// An optional piece of data to give the Copy object a different ID. May be
    /// randomly generated. This allows a commit to say that a file was replaced
    /// by a new incarnation of it, indicating a logically distinct file
    /// taking the place of the previous file at the path.
    pub salt: Vec<u8>,
}

/// The model of a `CopyHistory`.
#[verifier::ext_equal]
pub ghost struct CopyHistoryView {
    /// The file's current path.
    pub current_path: PathView,
    /// IDs of the files that became the current incarnation of this file.
    pub parents: Seq<Seq<u8>>,
    /// The data that gives the copy object a different ID.
    pub salt: Seq<u8>,
}

impl View for CopyHistory {
    type V = CopyHistoryView;

    open spec fn view(&self) -> CopyHistoryView {
        CopyHistoryView {
            current_path: self.current_path@,
            parents: self.parents.deep_view(),
            salt: self.salt@,
        }
    }
}

impl DeepView for CopyHistory {
    type V = CopyHistoryView;

    open spec fn deep_view(&self) -> CopyHistoryView {
        self@
    }
}

impl Clone for CopyHistory {
    fn clone(&self) -> (r: Self)
        ensures
            r@ == self@,
    {
        broadcast use crate::value::lemma_bytes_deep_view;

        CopyHistory {
            current_path: self.current_path.clone(),
            parents: self.parents.dup(),
            salt: self.salt.dup(),
        }
    }
}

/// A `CopyHistory` along with its `CopyId`.
#[derive(Debug, Eq, PartialEq)]
pub struct RelatedCopy {
    /// The copy id.
    pub id: CopyId,
    /// The copy history.
    pub history: CopyHistory,
}

impl Clone for RelatedCopy {
    fn clone(&self) -> (r: Self)
        ensures
            r.id@ == self.id@,
            r.history@ == self.history@,
    {
        RelatedCopy { id: self.id.clone(), history: self.history.clone() }
    }
}

/// Error that may occur during backend initialization.
#[derive(Debug)]
pub struct BackendInitError(pub String);

/// Error that may occur during backend loading.
#[derive(Debug)]
pub struct BackendLoadError(pub String);

/// Commit-backend error that may occur after the backend is loaded. A source
/// error is given by its text.
#[derive(Debug, PartialEq, Eq)]
pub enum BackendError {
    /// The caller attempted to read an object by specifying an ID with an
    /// invalid hash length for this backend.
    InvalidHashLength {
        /// The expected length of the hash in bytes for this backend.
        expected: usize,
        /// The actual length of the hash in bytes that was provided.
        actual: usize,
        /// The type of the object that we attempted to read, e.g. "commit" or
        /// "tree".
        object_type: String,
        /// The hex hash that had an invalid length.
        hash: String,
    },
    /// The caller attempted to read an object that internally stored as invalid
    /// UTF-8, such as a symlink target with invalid UTF-8 stored in the Git
    /// backend.
    InvalidUtf8 {
        /// The type of the object that we attempted to read, e.g. "commit" or
        /// "tree".
        object_type: String,
        /// The hex hash of the object that had invalid UTF-8.
        hash: String,
        /// The source error.
        source: String,
    },
    /// The caller attempted to read an object that doesn't exist.
    ObjectNotFound {
        /// The type of the object that we attempted to read, e.g. "commit" or
        /// "tree".
        object_type: String,
        /// The hex hash of the object that was not found.
        hash: String,
        /// The source error.
        source: String,
    },
    /// Failed to read an object due to an I/O error or other unexpected error.
    ReadObject {
        /// The type of the object that we attempted to read, e.g. "commit" or
        /// "tree".
        object_type: String,
        /// The hex hash of the object that we failed to read.
        hash: String,
        /// The source error.
        source: String,
    },
    /// The caller attempted to read an object but doesn't have permission to
    /// read it.
    ReadAccessDenied {
        /// The type of the object that we attempted to read, e.g. "commit" or
        /// "tree".
        object_type: String,
        /// The hex hash of the object that the caller doesn't have permission
        /// to read.
        hash: String,
        /// The source error.
        source: String,
    },
    /// Failed to read a file's content due to an I/O error or other unexpected
    /// error.
    ReadFile {
        /// The path of the file we failed to read.
        path: RepoPathBuf,
        /// The ID of the file we failed to read.
        id: FileId,
        /// The source error.
        source: String,
    },
    /// Failed to write an object due to an I/O error or other unexpected error.
    WriteObject {
        /// The type of the object that we attempted to write, e.g. "commit" or
        /// "tree".
        object_type: String,
        /// The source error.
        source: String,
    },
    /// Some other error that doesn't fit into the above categories.
    Other(String),
    /// A valid operation was attempted, but it failed because it isn't
    /// supported by the particular backend.
    Unsupported(String),
}

/// A specialized [`Result`] type for commit backend errors.
pub type BackendResult<T> = Result<T, BackendError>;

/// An entry in a `Tree` consisting of a basename and a `TreeValue`.
#[derive(Debug, PartialEq, Eq, Clone, Copy)]
pub struct TreeEntry<'a> {
    name: &'a RepoPathComponentBuf,
    value: &'a TreeValue,
}

impl<'a> View for TreeEntry<'a> {
    type V = (NameView, TreeValueView);

    closed spec fn view(&self) -> (NameView, TreeValueView) {
        (self.name@, self.value@)
    }
}

impl<'a> TreeEntry<'a> {
    /// Creates a new `TreeEntry` with the given name and value.
    pub fn new(name: &'a RepoPathComponentBuf, value: &'a TreeValue) -> (r: Self)
        ensures
            r@ == (name@, value@),
    {
        TreeEntry { name, value }
    }

    /// Returns the basename at this path.
    pub fn name(&self) -> (r: &'a RepoPathComponentBuf)
        ensures
            r@ == self@.0,
    {
        self.name
    }

    /// Returns the tree value at this path.
    pub fn value(&self) -> (r: &'a TreeValue)
        ensures
            r@ == self@.1,
    {
        self.value
    }
}

/// The entries of a tree: names and values, sorted by name.
pub type TreeView = Seq<(NameView, TreeValueView)>;

/// Whether the entries are sorted by name, without duplicate names.
pub open spec fn sorted_entries(entries: TreeView) -> bool {
    listing::sorted_by(order::name_order(), entries)
}

/// Iterator over the direct entries in a `Tree`.
pub struct TreeEntriesNonRecursiveIterator<'a> {
    entries: &'a Vec<(RepoPathComponentBuf, TreeValue)>,
    index: usize,
}

impl<'a> TreeEntriesNonRecursiveIterator<'a> {
    #[verifier::type_invariant]
    spec fn type_inv(self) -> bool {
        self.index <= self.entries@.len()
    }

    /// The entries that are left.
    pub closed spec fn remaining(self) -> TreeView {
        self.entries.deep_view().skip(self.index as int)
    }

    /// The next entry.
    pub fn next(&mut self) -> (r: Option<TreeEntry<'a>>)
        ensures
            match r {
                Some(entry) => {
                    &&& old(self).remaining().len() > 0
                    &&& entry@ == old(self).remaining()[0]
                    &&& final(self).remaining() == old(self).remaining().drop_first()
                },
                None => {
                    &&& old(self).remaining().len() == 0
                    &&& final(self).remaining() == old(self).remaining()
                },
            },
    {
        proof {
            use_type_invariant(&*self);
        }
        let entries = self.entries;
        let index = self.index;
        assert(entries.deep_view().len() == entries@.len());
        if index < entries.len() {
            let entry = &entries[index];
            assert(entries.deep_view()[index as int] == (entry.0@, entry.1@));
            self.index = index + 1;
            assert(self.remaining() =~= old(self).remaining().drop_first());
            Some(TreeEntry { name: &entry.0, value: &entry.1 })
        } else {
            None
        }
    }
}

/// A tree object, which represents a directory. It contains the direct entries
/// of the directory. Subdirectories are represented by the `TreeValue::Tree`
/// variant. The `Tree` object associated with the root directory thus
/// represents the entire repository at a given point in time.
///
/// The entries must be sorted (by `RepoPathComponentBuf`'s ordering) and must
/// not contain duplicate names.
#[derive(PartialEq, Eq, Debug)]
pub struct Tree {
    entries: Vec<(RepoPathComponentBuf, TreeValue)>,
}

impl View for Tree {
    type V = TreeView;

    closed spec fn view(&self) -> TreeView {
        self.entries.deep_view()
    }
}

impl DeepView for Tree {
    type V = TreeView;

    open spec fn deep_view(&self) -> TreeView {
        self@
    }
}

impl Value for Tree {
    fn same(&self, other: &Self) -> (r: bool) {
        self.entries.same(&other.entries)
    }

    fn dup(&self) -> (r: Self) {
        proof {
            use_type_invariant(self);
        }
        Tree { entries: self.entries.dup() }
    }
}

impl Clone for Tree {
    fn clone(&self) -> (r: Self)
        ensures
            r@ == self@,
    {
        self.dup()
    }
}

impl Default for Tree {
    fn default() -> (r: Self)
        ensures
            r@ == TreeView::empty(),
    {
        let r = Tree { entries: Vec::new() };
        assert(r@ =~= TreeView::empty());
        r
    }
}

impl Tree {
    #[verifier::type_invariant]
    spec fn type_inv(self) -> bool {
        sorted_entries(self.entries.deep_view())
    }

    /// Creates a new `Tree` from the given entries. The entries must be sorted
    /// by name and must not contain duplicate names.
    pub fn from_sorted_entries(entries: Vec<(RepoPathComponentBuf, TreeValue)>) -> (r: Self)
        requires
            sorted_entries(entries.deep_view()),
        ensures
            r@ == entries.deep_view(),
    {
        Tree { entries }
    }

    /// Checks if this tree has no entries.
    pub fn is_empty(&self) -> (r: bool)
        ensures
            r == (self@.len() == 0),
    {
        self.entries.len() == 0
    }

    /// Returns the names of the entries in this tree.
    pub fn names(&self) -> (r: Vec<&RepoPathComponentBuf>)
        ensures
            r.len() == self@.len(),
            forall|i: int| 0 <= i < r.len() ==> (#[trigger] r@[i])@ == self@[i].0,
    {
        let n = self.entries.len();
        let mut r: Vec<&RepoPathComponentBuf> = Vec::new();
        for i in 0..n
            invariant
                n == self.entries.len(),
                r.len() == i,
                forall|j: int| 0 <= j < i ==> (#[trigger] r@[j])@ == self@[j].0,
        {
            r.push(&self.entries[i].0);
        }
        r
    }

    /// Returns an iterator over the entries in this tree.
    pub fn entries(&self) -> (r: TreeEntriesNonRecursiveIterator<'_>)
        ensures
            r.remaining() == self@,
            sorted_entries(self@),
    {
        proof {
            use_type_invariant(self);
        }
        let r = TreeEntriesNonRecursiveIterator { entries: &self.entries, index: 0 };
        assert(r.remaining() =~= self@);
        r
    }

    /// The number of entries in this tree.
    pub fn len(&self) -> (r: usize)
        ensures
            r == self@.len(),
            sorted_entries(self@),
    {
        proof {
            use_type_invariant(self);
        }
        self.entries.len()
    }

    /// Returns the entry with the given index.
    pub fn entry_at(&self, index: usize) -> (r: TreeEntry<'_>)
        requires
            index < self@.len(),
        ensures
            r@ == self@[index as int],
    {
        let entry = &self.entries[index];
        TreeEntry { name: &entry.0, value: &entry.1 }
    }

    /// Returns the entry at the given basename, if it exists.
    pub fn entry(&self, name: &RepoPathComponentBuf) -> (r: Option<TreeEntry<'_>>)
        ensures
            match r {
                Some(entry) => {
                    &&& entry@.0 == name@
                    &&& listing::lookup(self@, name@) == Some(entry@.1)
                },
                None => listing::lookup(self@, name@) is None,
            },
    {
        proof {
            use_type_invariant(self);
            order::lemma_name_order();
        }
        let ghost less = order::name_order();
        let mut low: usize = 0;
        let mut high: usize = self.entries.len();
        while low < high
            invariant
                low <= high <= self.entries.len(),
                sorted_entries(self@),
                less == order::name_order(),
                order::strict_total_order(less),
                forall|i: int| 0 <= i < low ==> less((#[trigger] self@[i]).0, name@),
                forall|i: int| high <= i < self@.len() ==> less(name@, (#[trigger] self@[i]).0),
            decreases high - low,
        {
            let middle = low + (high - low) / 2;
            let entry = &self.entries[middle];
            assert(self@[middle as int] == (entry.0@, entry.1@));
            if entry.0.same(name) {
                proof {
                    listing::lemma_lookup_at(less, self@, middle as int);
                }
                return Some(TreeEntry { name: &entry.0, value: &entry.1 });
            }
            if entry.0.is_before(name) {
                proof {
                    assert forall|i: int| 0 <= i <= middle implies less(
                        (#[trigger] self@[i]).0,
                        name@,
                    ) by {
                        assert(less(self@[middle as int].0, name@));
                        if i < middle {
                            assert(less(self@[i].0, self@[middle as int].0));
                        }
                    }
                }
                low = middle + 1;
            } else {
                proof {
                    assert(!less(self@[middle as int].0, name@));
                    assert(less(name@, self@[middle as int].0));
                    assert forall|i: int| middle <= i < self@.len() implies less(
                        name@,
                        (#[trigger] self@[i]).0,
                    ) by {
                        if middle < i {
                            assert(less(self@[middle as int].0, self@[i].0));
                        }
                    }
                }
                high = middle;
            }
        }
        proof {
            if listing::lookup(self@, name@) is Some {
                let i = listing::lemma_lookup_some(self@, name@);
                assert(!less(name@, name@));
                assert(false);
            }
        }
        None
    }

    /// Returns the value at the given basename, if it exists.
    pub fn value(&self, name: &RepoPathComponentBuf) -> (r: Option<&TreeValue>)
        ensures
            match r {
                Some(value) => listing::lookup(self@, name@) == Some(value@),
                None => listing::lookup(self@, name@) is None,
            },
    {
        match self.entry(name) {
            Some(entry) => Some(entry.value),
            None => None,
        }
    }
}

/// Looking up the name of an entry gives the value of that entry, and a name
/// that a tree gives a value for is the name of one of its entries.
pub proof fn law_tree_lookup(entries: TreeView, name: NameView)
    requires
        sorted_entries(entries),
    ensures
        forall|i: int|
            0 <= i < entries.len() ==> listing::lookup(entries, (#[trigger] entries[i]).0) == Some(
                entries[i].1,
            ),
        listing::lookup(entries, name) is Some ==> exists|i: int|
            0 <= i < entries.len() && #[trigger] entries[i] == (
                name,
                listing::lookup(entries, name)->0,
            ),
{
    order::lemma_name_order();
    assert forall|i: int| 0 <= i < entries.len() implies listing::lookup(
        entries,
        (#[trigger] entries[i]).0,
    ) == Some(entries[i].1) by {
        listing::lemma_lookup_at(order::name_order(), entries, i);
    }
    if listing::lookup(entries, name) is Some {
        let i = listing::lemma_lookup_some(entries, name);
        assert(entries[i] == (name, listing::lookup(entries, name)->0));
    }
}

/// Creates a root commit object.
pub fn make_root_commit(root_change_id: ChangeId, empty_tree_id: TreeId) -> (r: Commit)
    ensures
        r.parents@ == Seq::<CommitId>::empty(),
        r.predecessors@ == Seq::<CommitId>::empty(),
        r.root_tree@ == seq![empty_tree_id@],
        r.conflict_labels@ == seq![Seq::<char>::empty()],
        r.change_id == root_change_id,
        r.description@ == Seq::<char>::empty(),
        r.author.name@ == Seq::<char>::empty(),
        r.author.email@ == Seq::<char>::empty(),
        r.author.timestamp == (Timestamp { timestamp: MillisSinceEpoch(0), tz_offset: 0 }),
        r.committer.name@ == Seq::<char>::empty(),
        r.committer.email@ == Seq::<char>::empty(),
        r.committer.timestamp == (Timestamp { timestamp: MillisSinceEpoch(0), tz_offset: 0 }),
        r.secure_sig is None,
{
    let timestamp = Timestamp { timestamp: MillisSinceEpoch(0), tz_offset: 0 };
    let signature = Signature { name: String::new(), email: String::new(), timestamp };
    let r = Commit {
        parents: Vec::new(),
        predecessors: Vec::new(),
        root_tree: Merge::resolved(empty_tree_id),
        conflict_labels: Merge::resolved(String::new()),
        change_id: root_change_id,
        description: String::new(),
        author: signature.clone(),
        committer: signature,
        secure_sig: None,
    };
    assert(r.root_tree@ =~= seq![empty_tree_id@]);
    assert(r.conflict_labels@ =~= seq![Seq::<char>::empty()]);
    r
}

} // verus!
