//! What is found at a path of a tree.

use crate::conflict_labels;
use crate::conflict_labels::ConflictLabels;
use crate::hex_util;
use crate::merge;
use crate::merge::Merge;
use crate::object_id::CommitId;
use crate::object_id::CopyId;
use crate::object_id::FileId;
use crate::object_id::SymlinkId;
use crate::object_id::TreeId;
use crate::value::Value;
use smallvec::SmallVec;
use vstd::prelude::*;
use vstd::string::*;

verus! {

/// Identifies the content at a given path in a tree.
#[derive(Debug, PartialEq, Eq, Hash)]
pub enum TreeValue {
    /// This path is a regular file, possibly executable.
    File {
        /// The file's content ID.
        id: FileId,
        /// Whether the file is executable.
        executable: bool,
        /// The copy id.
        copy_id: CopyId,
    },
    /// This path is a symbolic link.
    Symlink(SymlinkId),
    /// This path is a directory.
    Tree(TreeId),
    /// This path is a Git submodule.
    GitSubmodule(CommitId),
}

/// The model of a `TreeValue`: the bytes of its identifiers.
#[verifier::ext_equal]
pub ghost enum TreeValueView {
    /// A regular file, possibly executable.
    File { id: Seq<u8>, executable: bool, copy_id: Seq<u8> },
    /// A symbolic link.
    Symlink(Seq<u8>),
    /// A directory.
    Tree(Seq<u8>),
    /// A Git submodule.
    GitSubmodule(Seq<u8>),
}

/// The model of a merged value: its terms.
pub type MergedValueView = Seq<Option<TreeValueView>>;

/// Borrowed `MergedTreeValue`.
pub type MergedTreeVal<'a> = Merge<Option<&'a TreeValue>>;

/// The value at a given path in a commit.
///
/// It depends on the context whether it can be absent
/// (`Merge::is_absent()`). For example, when getting the value at a
/// specific path, it may be, but when iterating over entries in a
/// tree, it shouldn't be.
pub type MergedTreeValue = Merge<Option<TreeValue>>;

impl View for TreeValue {
    type V = TreeValueView;

    open spec fn view(&self) -> TreeValueView {
        match self {
            TreeValue::File { id, executable, copy_id } => TreeValueView::File {
                id: id@,
                executable: *executable,
                copy_id: copy_id@,
            },
            TreeValue::Symlink(id) => TreeValueView::Symlink(id@),
            TreeValue::Tree(id) => TreeValueView::Tree(id@),
            TreeValue::GitSubmodule(id) => TreeValueView::GitSubmodule(id@),
        }
    }
}

impl DeepView for TreeValue {
    type V = TreeValueView;

    open spec fn deep_view(&self) -> TreeValueView {
        self@
    }
}

impl Value for TreeValue {
    fn same(&self, other: &Self) -> (r: bool) {
        match (self, other) {
            (
                TreeValue::File { id, executable, copy_id },
                TreeValue::File { id: id2, executable: executable2, copy_id: copy_id2 },
            ) => id.same(id2) && *executable == *executable2 && copy_id.same(copy_id2),
            (TreeValue::Symlink(id), TreeValue::Symlink(id2)) => id.same(id2),
            (TreeValue::Tree(id), TreeValue::Tree(id2)) => id.same(id2),
            (TreeValue::GitSubmodule(id), TreeValue::GitSubmodule(id2)) => id.same(id2),
            _ => false,
        }
    }

    fn dup(&self) -> (r: Self) {
        match self {
            TreeValue::File { id, executable, copy_id } => TreeValue::File {
                id: id.dup(),
                executable: *executable,
                copy_id: copy_id.dup(),
            },
            TreeValue::Symlink(id) => TreeValue::Symlink(id.dup()),
            TreeValue::Tree(id) => TreeValue::Tree(id.dup()),
            TreeValue::GitSubmodule(id) => TreeValue::GitSubmodule(id.dup()),
        }
    }
}

impl Clone for TreeValue {
    fn clone(&self) -> (r: Self)
        ensures
            r@ == self@,
    {
        self.dup()
    }
}

/// The copy id of a value that represents a file.
pub open spec fn copy_id_of(value: TreeValueView) -> Option<Seq<u8>> {
    match value {
        TreeValueView::File { copy_id, .. } => Some(copy_id),
        _ => None,
    }
}

impl TreeValue {
    /// The copy id if this value represents a file.
    pub fn copy_id(&self) -> (r: Option<&CopyId>)
        ensures
            match r {
                Some(id) => copy_id_of(self@) == Some(id@),
                None => copy_id_of(self@) is None,
            },
    {
        match self {
            TreeValue::File { copy_id, .. } => Some(copy_id),
            _ => None,
        }
    }
}

/// A tree value, or a reference to one.
pub trait BorrowTreeValue: DeepView<V = TreeValueView> + Sized {
    /// The tree value.
    fn borrow_tree_value(&self) -> (r: &TreeValue)
        ensures
            r@ == self.deep_view(),
    ;
}

impl BorrowTreeValue for TreeValue {
    fn borrow_tree_value(&self) -> (r: &TreeValue) {
        self
    }
}

impl<'a> BorrowTreeValue for &'a TreeValue {
    fn borrow_tree_value(&self) -> (r: &TreeValue) {
        *self
    }
}

/// Whether every term is a directory or absent.
pub open spec fn only_trees(terms: MergedValueView) -> bool {
    forall|i: int|
        0 <= i < terms.len() ==> ((#[trigger] terms[i]) is None || terms[i]->0 is Tree)
}

/// Whether the value should be recursed into when doing directory walks: it is
/// present, and every term is a directory or absent.
pub open spec fn is_tree(terms: MergedValueView) -> bool {
    !merge::is_absent(terms) && only_trees(terms)
}

/// Whether the value is present and not a tree.
pub open spec fn is_file_like(terms: MergedValueView) -> bool {
    !merge::is_absent(terms) && !is_tree(terms)
}

/// Whether every term is a file or absent.
pub open spec fn only_files(terms: MergedValueView) -> bool {
    forall|i: int|
        0 <= i < terms.len() ==> ((#[trigger] terms[i]) is None || terms[i]->0 is File)
}

/// The content IDs of terms that are files or absent.
pub open spec fn file_ids(terms: MergedValueView) -> Seq<Option<Seq<u8>>> {
    Seq::new(
        terms.len(),
        |i: int|
            match terms[i] {
                Some(TreeValueView::File { id, .. }) => Some(id),
                _ => None,
            },
    )
}

/// The executable bits of terms that are files or absent.
pub open spec fn executable_bits(terms: MergedValueView) -> Seq<Option<bool>> {
    Seq::new(
        terms.len(),
        |i: int|
            match terms[i] {
                Some(TreeValueView::File { executable, .. }) => Some(executable),
                _ => None,
            },
    )
}

/// The copy IDs of terms that are files or absent.
pub open spec fn copy_ids(terms: MergedValueView) -> Seq<Option<Seq<u8>>> {
    Seq::new(
        terms.len(),
        |i: int|
            match terms[i] {
                Some(TreeValueView::File { copy_id, .. }) => Some(copy_id),
                _ => None,
            },
    )
}

/// Whether the content ID of a term can be set to the given one: a file must
/// stay one, and an absent term may become a file.
pub open spec fn can_update(term: Option<TreeValueView>, file_id: Option<Seq<u8>>) -> bool {
    match term {
        Some(value) => value is File && file_id is Some,
        None => true,
    }
}

/// A term with the given content ID. The executable bit and the copy ID of a
/// file are kept. A new file has the default ones.
pub open spec fn updated_term(
    term: Option<TreeValueView>,
    file_id: Option<Seq<u8>>,
) -> Option<TreeValueView> {
    match file_id {
        None => None,
        Some(id) => match term {
            Some(TreeValueView::File { executable, copy_id, .. }) => Some(
                TreeValueView::File { id, executable, copy_id },
            ),
            _ => Some(TreeValueView::File { id, executable: false, copy_id: Seq::empty() }),
        },
    }
}

/// Terms with the given content IDs.
pub open spec fn updated_terms(
    terms: MergedValueView,
    ids: Seq<Option<Seq<u8>>>,
) -> MergedValueView {
    Seq::new(terms.len(), |i: int| updated_term(terms[i], ids[i]))
}

/// Setting the content IDs to what they are changes nothing.
pub proof fn law_update_with_own_file_ids(terms: MergedValueView)
    requires
        only_files(terms),
    ensures
        forall|i: int|
            0 <= i < terms.len() ==> can_update(#[trigger] terms[i], file_ids(terms)[i]),
        updated_terms(terms, file_ids(terms)) == terms,
{
    assert(updated_terms(terms, file_ids(terms)) =~= terms);
}

/// The content IDs that have been set are found again, and the executable bits
/// and copy IDs of the files are what they were.
pub proof fn law_updated_file_ids(terms: MergedValueView, ids: Seq<Option<Seq<u8>>>)
    requires
        terms.len() == ids.len(),
        forall|i: int| 0 <= i < terms.len() ==> can_update(#[trigger] terms[i], ids[i]),
    ensures
        only_files(updated_terms(terms, ids)),
        file_ids(updated_terms(terms, ids)) == ids,
        forall|i: int|
            0 <= i < terms.len() && (#[trigger] terms[i]) is Some ==> {
                &&& executable_bits(updated_terms(terms, ids))[i] == executable_bits(terms)[i]
                &&& copy_ids(updated_terms(terms, ids))[i] == copy_ids(terms)[i]
            },
{
    let updated = updated_terms(terms, ids);
    assert forall|i: int| 0 <= i < updated.len() implies ((#[trigger] updated[i]) is None
        || updated[i]->0 is File) by {
        assert(can_update(terms[i], ids[i]));
    }
    assert(file_ids(updated) =~= ids) by {
        assert forall|i: int| 0 <= i < ids.len() implies file_ids(updated)[i] == ids[i] by {
            assert(can_update(terms[i], ids[i]));
        }
    }
    assert forall|i: int| 0 <= i < terms.len() && (#[trigger] terms[i]) is Some implies {
        &&& executable_bits(updated)[i] == executable_bits(terms)[i]
        &&& copy_ids(updated)[i] == copy_ids(terms)[i]
    } by {
        assert(can_update(terms[i], ids[i]));
    }
}

/// The terms of a merge that is being built, in a buffer with room for one.
#[verifier::external_body]
pub struct TermBuffer {
    values: SmallVec<[Option<TreeValue>; 1]>,
}

/// The terms in the buffer, in order.
pub uninterp spec fn buffered_terms(buffer: TermBuffer) -> Seq<Option<TreeValueView>>;

/// Calls `SmallVec::new`: an empty buffer.
#[verifier::external_body]
fn new_term_buffer() -> (r: TermBuffer)
    ensures
        buffered_terms(r) == Seq::<Option<TreeValueView>>::empty(),
{
    TermBuffer { values: SmallVec::new() }
}

/// Calls `SmallVec::push`: the term goes to the end.
#[verifier::external_body]
fn push_term(buffer: &mut TermBuffer, term: Option<TreeValue>)
    ensures
        buffered_terms(*final(buffer)) == buffered_terms(*old(buffer)).push(term.deep_view()),
{
    buffer.values.push(term)
}

/// Calls `SmallVec::into_vec`: the terms in order.
#[verifier::external_body]
fn into_terms(buffer: TermBuffer) -> (r: Vec<Option<TreeValue>>)
    ensures
        r.deep_view() == buffered_terms(buffer),
{
    buffer.values.into_vec()
}

impl<T: BorrowTreeValue> Merge<Option<T>> {
    /// Whether this merge should be recursed into when doing directory walks.
    pub fn is_tree(&self) -> (r: bool)
        ensures
            r == is_tree(self@),
    {
        self.is_present() && self.is_only_trees()
    }

    /// Whether every term is a directory or absent.
    pub fn is_only_trees(&self) -> (r: bool)
        ensures
            r == only_trees(self@),
    {
        let terms = self.as_slice();
        let n = terms.len();
        for i in 0..n
            invariant
                n == terms.len(),
                terms@ == self.terms(),
                forall|j: int|
                    0 <= j < i ==> ((#[trigger] self@[j]) is None || self@[j]->0 is Tree),
        {
            assert(self@[i as int] == terms@[i as int].deep_view());
            match &terms[i] {
                None => {},
                Some(value) => match value.borrow_tree_value() {
                    TreeValue::Tree(_) => {},
                    _ => {
                        return false;
                    },
                },
            }
        }
        true
    }

    /// Whether this merge is present and not a tree
    pub fn is_file_like(&self) -> (r: bool)
        ensures
            r == is_file_like(self@),
    {
        self.is_present() && !self.is_tree()
    }

    /// If this merge contains only files or absent entries, returns a merge of
    /// the `FileId`s. The executable bits and copy IDs will be ignored. Use
    /// `Merge::with_new_file_ids()` to produce a new merge with the original
    /// executable bits preserved.
    pub fn to_file_merge(&self) -> (r: Option<Merge<Option<FileId>>>)
        ensures
            match r {
                Some(ids) => only_files(self@) && ids@ == file_ids(self@),
                None => !only_files(self@),
            },
    {
        let terms = self.as_slice();
        let n = terms.len();
        let mut values: Vec<Option<FileId>> = Vec::new();
        for i in 0..n
            invariant
                n == terms.len(),
                terms@ == self.terms(),
                values.len() == i,
                forall|j: int|
                    0 <= j < i ==> ((#[trigger] self@[j]) is None || self@[j]->0 is File),
                forall|j: int|
                    0 <= j < i ==> (#[trigger] values@[j]).deep_view() == file_ids(self@)[j],
        {
            assert(self@[i as int] == terms@[i as int].deep_view());
            match &terms[i] {
                None => {
                    values.push(None);
                },
                Some(value) => match value.borrow_tree_value() {
                    TreeValue::File { id, .. } => {
                        values.push(Some(id.clone()));
                    },
                    _ => {
                        return None;
                    },
                },
            }
        }
        let r = Merge::from_vec(values);
        assert(r@ =~= file_ids(self@));
        Some(r)
    }

    /// If this merge contains only files or absent entries, returns a merge of
    /// the files' executable bits.
    pub fn to_executable_merge(&self) -> (r: Option<Merge<Option<bool>>>)
        ensures
            match r {
                Some(bits) => only_files(self@) && bits@ == executable_bits(self@),
                None => !only_files(self@),
            },
    {
        let terms = self.as_slice();
        let n = terms.len();
        let mut values: Vec<Option<bool>> = Vec::new();
        for i in 0..n
            invariant
                n == terms.len(),
                terms@ == self.terms(),
                values.len() == i,
                forall|j: int|
                    0 <= j < i ==> ((#[trigger] self@[j]) is None || self@[j]->0 is File),
                forall|j: int|
                    0 <= j < i ==> (#[trigger] values@[j]).deep_view() == executable_bits(self@)[j],
        {
            assert(self@[i as int] == terms@[i as int].deep_view());
            match &terms[i] {
                None => {
                    values.push(None);
                },
                Some(value) => match value.borrow_tree_value() {
                    TreeValue::File { executable, .. } => {
                        values.push(Some(*executable));
                    },
                    _ => {
                        return None;
                    },
                },
            }
        }
        let r = Merge::from_vec(values);
        assert(r@ =~= executable_bits(self@));
        Some(r)
    }

    /// If this merge contains only files or absent entries, returns a merge of
    /// the files' copy IDs.
    pub fn to_copy_id_merge(&self) -> (r: Option<Merge<Option<CopyId>>>)
        ensures
            match r {
                Some(ids) => only_files(self@) && ids@ == copy_ids(self@),
                None => !only_files(self@),
            },
    {
        let terms = self.as_slice();
        let n = terms.len();
        let mut values: Vec<Option<CopyId>> = Vec::new();
        for i in 0..n
            invariant
                n == terms.len(),
                terms@ == self.terms(),
                values.len() == i,
                forall|j: int|
                    0 <= j < i ==> ((#[trigger] self@[j]) is None || self@[j]->0 is File),
                forall|j: int|
                    0 <= j < i ==> (#[trigger] values@[j]).deep_view() == copy_ids(self@)[j],
        {
            assert(self@[i as int] == terms@[i as int].deep_view());
            match &terms[i] {
                None => {
                    values.push(None);
                },
                Some(value) => match value.borrow_tree_value() {
                    TreeValue::File { copy_id, .. } => {
                        values.push(Some(copy_id.clone()));
                    },
                    _ => {
                        return None;
                    },
                },
            }
        }
        let r = Merge::from_vec(values);
        assert(r@ =~= copy_ids(self@));
        Some(r)
    }

    /// Creates a new merge with the file ids from the given merge. In other
    /// words, the executable bits and copy IDs from `self` will be preserved.
    ///
    /// The given `file_ids` should have the same shape as `self`. Only the
    /// `FileId` values may differ.
    pub fn with_new_file_ids(&self, file_ids: &Merge<Option<FileId>>) -> (r: MergedTreeValue)
        requires
            self@.len() == file_ids@.len(),
            forall|i: int|
                0 <= i < self@.len() ==> can_update(#[trigger] self@[i], file_ids@[i]),
        ensures
            r@ == updated_terms(self@, file_ids@),
    {
        let terms = self.as_slice();
        let ids = file_ids.as_slice();
        let n = terms.len();
        let mut values = new_term_buffer();
        for i in 0..n
            invariant
                n == terms.len(),
                n == ids.len(),
                terms@ == self.terms(),
                ids@ == file_ids.terms(),
                forall|i: int|
                    0 <= i < self@.len() ==> can_update(#[trigger] self@[i], file_ids@[i]),
                buffered_terms(values) == updated_terms(self@, file_ids@).take(i as int),
        {
            assert(self@[i as int] == terms@[i as int].deep_view());
            assert(file_ids@[i as int] == ids@[i as int].deep_view());
            let value = match &ids[i] {
                Some(id) => match &terms[i] {
                    Some(old_value) => match old_value.borrow_tree_value() {
                        TreeValue::File { executable, copy_id, .. } => Some(
                            TreeValue::File {
                                id: id.clone(),
                                executable: *executable,
                                copy_id: copy_id.clone(),
                            },
                        ),
                        _ => None,
                    },
                    // New files are populated to preserve the materialized
                    // conflict. The file won't be checked out to the disk. So
                    // the metadata is not important, and we will just use the
                    // default values.
                    None => Some(
                        TreeValue::File {
                            id: id.clone(),
                            executable: false,
                            copy_id: CopyId::placeholder(),
                        },
                    ),
                },
                None => None,
            };
            let ghost before = buffered_terms(values);
            push_term(&mut values, value);
            assert(updated_terms(self@, file_ids@).take(i + 1) =~= before.push(
                updated_terms(self@, file_ids@)[i as int],
            ));
        }
        let values = into_terms(values);
        assert(values.deep_view().len() == values@.len());
        let r = Merge::from_vec(values);
        assert(r@ =~= updated_terms(self@, file_ids@));
        r
    }

    /// Give a summary description of the conflict's "removes" and "adds"
    pub fn describe(&self, labels: &ConflictLabels) -> (r: String)
        ensures
            r@ == description(self@, labels@),
    {
        let mut buf = String::new();
        buf.append("Conflict:\n");
        let ghost title = buf@;
        assert(title =~= "Conflict:\n"@);
        let num_sides = self.num_sides();
        for i in 0..num_sides - 1
            invariant
                2 * num_sides == self@.len() + 1,
                num_sides >= 1,
                buf@ == title + term_lines("  Removing "@, self@, labels@, 1, i as nat),
        {
            let ghost before = term_lines("  Removing "@, self@, labels@, 1, i as nat);
            if let Some(Some(term)) = self.get_remove(i) {
                let term = term.borrow_tree_value();
                assert(self@[2 * i + 1] == Some(term@));
                let ghost line = term_line("  Removing "@, term@, conflict_labels::term_label(labels@, 2 * i + 1));
                describe_term(&mut buf, "  Removing ", term, labels.get_remove(i));
                assert(title + before + line =~= title + (before + line));
            } else {
                assert(self@[2 * i + 1] is None);
                assert(before + Seq::<char>::empty() =~= before);
            }
        }
        let ghost removes = buf@;
        assert(removes =~= removes + Seq::<char>::empty());
        for i in 0..num_sides
            invariant
                2 * num_sides == self@.len() + 1,
                buf@ == removes + term_lines("  Adding "@, self@, labels@, 0, i as nat),
        {
            let ghost before = term_lines("  Adding "@, self@, labels@, 0, i as nat);
            if let Some(Some(term)) = self.get_add(i) {
                let term = term.borrow_tree_value();
                assert(self@[2 * i as int] == Some(term@));
                let ghost line = term_line("  Adding "@, term@, conflict_labels::term_label(labels@, 2 * i as int));
                describe_term(&mut buf, "  Adding ", term, labels.get_add(i));
                assert(removes + before + line =~= removes + (before + line));
            } else {
                assert(self@[2 * i as int] is None);
                assert(before + Seq::<char>::empty() =~= before);
            }
        }
        buf
    }
}

/// The description of a term.
pub open spec fn term_text(value: TreeValueView) -> Seq<char> {
    match value {
        TreeValueView::File { id, executable, .. } => if executable {
            "executable file with id "@ + hex_util::spell(hex_util::hex_digits(), id)
        } else {
            "file with id "@ + hex_util::spell(hex_util::hex_digits(), id)
        },
        TreeValueView::Symlink(id) => "symlink with id "@ + hex_util::spell(
            hex_util::hex_digits(),
            id,
        ),
        TreeValueView::Tree(id) => "tree with id "@ + hex_util::spell(hex_util::hex_digits(), id),
        TreeValueView::GitSubmodule(id) => "Git submodule with id "@ + hex_util::spell(
            hex_util::hex_digits(),
            id,
        ),
    }
}

/// The line that describes a term, with its label if it has one.
pub open spec fn term_line(
    verb: Seq<char>,
    value: TreeValueView,
    label: Option<Seq<char>>,
) -> Seq<char> {
    let text = verb + term_text(value);
    match label {
        Some(label) => text + " ("@ + label + ")"@ + "\n"@,
        None => text + "\n"@,
    }
}

/// The lines that describe the terms with the places `first`, `first + 2` and
/// so on, `count` of them. Nothing is said of absent terms.
pub open spec fn term_lines(
    verb: Seq<char>,
    terms: MergedValueView,
    labels: Seq<Seq<char>>,
    first: int,
    count: nat,
) -> Seq<char>
    decreases count,
{
    if count == 0 {
        Seq::empty()
    } else {
        let place = first + 2 * (count - 1);
        term_lines(verb, terms, labels, first, (count - 1) as nat) + match terms[place] {
            Some(value) => term_line(verb, value, conflict_labels::term_label(labels, place)),
            None => Seq::empty(),
        }
    }
}

/// The description of a conflict: what it removes, and then what it adds.
pub open spec fn description(terms: MergedValueView, labels: Seq<Seq<char>>) -> Seq<char> {
    "Conflict:\n"@ + term_lines("  Removing "@, terms, labels, 1, (terms.len() / 2) as nat)
        + term_lines("  Adding "@, terms, labels, 0, ((terms.len() + 1) / 2) as nat)
}

fn describe_term(buf: &mut String, verb: &str, term: &TreeValue, label: Option<&str>)
    ensures
        final(buf)@ == old(buf)@ + term_line(
            verb@,
            term@,
            match label {
                Some(label) => Some(label@),
                None => None,
            },
        ),
{
    let ghost start = buf@;
    buf.append(verb);
    buf.append(describe_conflict_term(term).as_str());
    let ghost text = verb@ + term_text(term@);
    assert(buf@ =~= start + text);
    if let Some(label) = label {
        buf.append(" (");
        buf.append(label);
        buf.append(")");
        assert(buf@ =~= start + (text + " ("@ + label@ + ")"@));
    }
    buf.append("\n");
    assert(buf@ =~= start + term_line(
        verb@,
        term@,
        match label {
            Some(label) => Some(label@),
            None => None,
        },
    ));
}

fn describe_conflict_term(value: &TreeValue) -> (r: String)
    ensures
        r@ == term_text(value@),
{
    let mut r = String::new();
    match value {
        TreeValue::File { id, executable, .. } => {
            if *executable {
                r.append("executable file with id ");
            } else {
                r.append("file with id ");
            }
            r.append(id.hex().as_str());
        },
        TreeValue::Symlink(id) => {
            r.append("symlink with id ");
            r.append(id.hex().as_str());
        },
        TreeValue::Tree(id) => {
            r.append("tree with id ");
            r.append(id.hex().as_str());
        },
        TreeValue::GitSubmodule(id) => {
            r.append("Git submodule with id ");
            r.append(id.hex().as_str());
        },
    }
    assert(r@ =~= term_text(value@));
    r
}

} // verus!
