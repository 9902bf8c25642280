//! Identifiers of the objects that a backend stores.

use crate::hex_util;
use crate::value::Value;
use vstd::prelude::*;

verus! {

/// Identifier for a commit based on its content. When a commit is
/// rewritten, its `CommitId` changes.
#[derive(Debug, PartialEq, Eq, PartialOrd, Ord, Hash)]
pub struct CommitId(Vec<u8>);

impl View for CommitId {
    type V = Seq<u8>;

    closed spec fn view(&self) -> Seq<u8> {
        self.0@
    }
}

impl DeepView for CommitId {
    type V = Seq<u8>;

    open spec fn deep_view(&self) -> Seq<u8> {
        self@
    }
}

impl Clone for CommitId {
    fn clone(&self) -> (r: Self)
        ensures
            r@ == self@,
    {
        self.dup()
    }
}

impl Value for CommitId {
    fn same(&self, other: &Self) -> (r: bool) {
        broadcast use crate::value::lemma_bytes_deep_view;

        self.0.same(&other.0)
    }

    fn dup(&self) -> (r: Self) {
        broadcast use crate::value::lemma_bytes_deep_view;

        CommitId(self.0.dup())
    }
}

impl CommitId {
    /// The identifier with the given bytes.
    pub fn new(value: Vec<u8>) -> (r: Self)
        ensures
            r@ == value@,
    {
        CommitId(value)
    }

    /// The bytes of this identifier.
    pub fn as_bytes(&self) -> (r: &[u8])
        ensures
            r@ == self@,
    {
        self.0.as_slice()
    }

    /// The hexadecimal text of this identifier.
    pub fn hex(&self) -> (r: String)
        ensures
            r@ == hex_util::spell(hex_util::hex_digits(), self@),
    {
        hex_util::encode_hex(self.as_bytes())
    }
}

/// Stable identifier for a commit. Unlike the `CommitId`, the `ChangeId`
/// follows the commit and is not updated when the commit is rewritten.
#[derive(Debug, PartialEq, Eq, PartialOrd, Ord, Hash)]
pub struct ChangeId(Vec<u8>);

impl View for ChangeId {
    type V = Seq<u8>;

    closed spec fn view(&self) -> Seq<u8> {
        self.0@
    }
}

impl DeepView for ChangeId {
    type V = Seq<u8>;

    open spec fn deep_view(&self) -> Seq<u8> {
        self@
    }
}

impl Clone for ChangeId {
    fn clone(&self) -> (r: Self)
        ensures
            r@ == self@,
    {
        self.dup()
    }
}

impl Value for ChangeId {
    fn same(&self, other: &Self) -> (r: bool) {
        broadcast use crate::value::lemma_bytes_deep_view;

        self.0.same(&other.0)
    }

    fn dup(&self) -> (r: Self) {
        broadcast use crate::value::lemma_bytes_deep_view;

        ChangeId(self.0.dup())
    }
}

impl ChangeId {
    /// The identifier with the given bytes.
    pub fn new(value: Vec<u8>) -> (r: Self)
        ensures
            r@ == value@,
    {
        ChangeId(value)
    }

    /// The bytes of this identifier.
    pub fn as_bytes(&self) -> (r: &[u8])
        ensures
            r@ == self@,
    {
        self.0.as_slice()
    }

    /// The hexadecimal text of this identifier.
    pub fn hex(&self) -> (r: String)
        ensures
            r@ == hex_util::spell(hex_util::hex_digits(), self@),
    {
        hex_util::encode_hex(self.as_bytes())
    }
}

/// Identifier for a tree object.
#[derive(Debug, PartialEq, Eq, PartialOrd, Ord, Hash)]
pub struct TreeId(Vec<u8>);

impl View for TreeId {
    type V = Seq<u8>;

    closed spec fn view(&self) -> Seq<u8> {
        self.0@
    }
}

impl DeepView for TreeId {
    type V = Seq<u8>;

    open spec fn deep_view(&self) -> Seq<u8> {
        self@
    }
}

impl Clone for TreeId {
    fn clone(&self) -> (r: Self)
        ensures
            r@ == self@,
    {
        self.dup()
    }
}

impl Value for TreeId {
    fn same(&self, other: &Self) -> (r: bool) {
        broadcast use crate::value::lemma_bytes_deep_view;

        self.0.same(&other.0)
    }

    fn dup(&self) -> (r: Self) {
        broadcast use crate::value::lemma_bytes_deep_view;

        TreeId(self.0.dup())
    }
}

impl TreeId {
    /// The identifier with the given bytes.
    pub fn new(value: Vec<u8>) -> (r: Self)
        ensures
            r@ == value@,
    {
        TreeId(value)
    }

    /// The bytes of this identifier.
    pub fn as_bytes(&self) -> (r: &[u8])
        ensures
            r@ == self@,
    {
        self.0.as_slice()
    }

    /// The hexadecimal text of this identifier.
    pub fn hex(&self) -> (r: String)
        ensures
            r@ == hex_util::spell(hex_util::hex_digits(), self@),
    {
        hex_util::encode_hex(self.as_bytes())
    }
}

/// Identifier for a file content.
#[derive(Debug, PartialEq, Eq, PartialOrd, Ord, Hash)]
pub struct FileId(Vec<u8>);

impl View for FileId {
    type V = Seq<u8>;

    closed spec fn view(&self) -> Seq<u8> {
        self.0@
    }
}

impl DeepView for FileId {
    type V = Seq<u8>;

    open spec fn deep_view(&self) -> Seq<u8> {
        self@
    }
}

impl Clone for FileId {
    fn clone(&self) -> (r: Self)
        ensures
            r@ == self@,
    {
        self.dup()
    }
}

impl Value for FileId {
    fn same(&self, other: &Self) -> (r: bool) {
        broadcast use crate::value::lemma_bytes_deep_view;

        self.0.same(&other.0)
    }

    fn dup(&self) -> (r: Self) {
        broadcast use crate::value::lemma_bytes_deep_view;

        FileId(self.0.dup())
    }
}

impl FileId {
    /// The identifier with the given bytes.
    pub fn new(value: Vec<u8>) -> (r: Self)
        ensures
            r@ == value@,
    {
        FileId(value)
    }

    /// The bytes of this identifier.
    pub fn as_bytes(&self) -> (r: &[u8])
        ensures
            r@ == self@,
    {
        self.0.as_slice()
    }

    /// The hexadecimal text of this identifier.
    pub fn hex(&self) -> (r: String)
        ensures
            r@ == hex_util::spell(hex_util::hex_digits(), self@),
    {
        hex_util::encode_hex(self.as_bytes())
    }
}

/// Identifier for a symlink.
#[derive(Debug, PartialEq, Eq, PartialOrd, Ord, Hash)]
pub struct SymlinkId(Vec<u8>);

impl View for SymlinkId {
    type V = Seq<u8>;

    closed spec fn view(&self) -> Seq<u8> {
        self.0@
    }
}

impl DeepView for SymlinkId {
    type V = Seq<u8>;

    open spec fn deep_view(&self) -> Seq<u8> {
        self@
    }
}

impl Clone for SymlinkId {
    fn clone(&self) -> (r: Self)
        ensures
            r@ == self@,
    {
        self.dup()
    }
}

impl Value for SymlinkId {
    fn same(&self, other: &Self) -> (r: bool) {
        broadcast use crate::value::lemma_bytes_deep_view;

        self.0.same(&other.0)
    }

    fn dup(&self) -> (r: Self) {
        broadcast use crate::value::lemma_bytes_deep_view;

        SymlinkId(self.0.dup())
    }
}

impl SymlinkId {
    /// The identifier with the given bytes.
    pub fn new(value: Vec<u8>) -> (r: Self)
        ensures
            r@ == value@,
    {
        SymlinkId(value)
    }

    /// The bytes of this identifier.
    pub fn as_bytes(&self) -> (r: &[u8])
        ensures
            r@ == self@,
    {
        self.0.as_slice()
    }

    /// The hexadecimal text of this identifier.
    pub fn hex(&self) -> (r: String)
        ensures
            r@ == hex_util::spell(hex_util::hex_digits(), self@),
    {
        hex_util::encode_hex(self.as_bytes())
    }
}

/// Identifier for a copy history.
#[derive(Debug, PartialEq, Eq, PartialOrd, Ord, Hash)]
pub struct CopyId(Vec<u8>);

impl View for CopyId {
    type V = Seq<u8>;

    closed spec fn view(&self) -> Seq<u8> {
        self.0@
    }
}

impl DeepView for CopyId {
    type V = Seq<u8>;

    open spec fn deep_view(&self) -> Seq<u8> {
        self@
    }
}

impl Clone for CopyId {
    fn clone(&self) -> (r: Self)
        ensures
            r@ == self@,
    {
        self.dup()
    }
}

impl Value for CopyId {
    fn same(&self, other: &Self) -> (r: bool) {
        broadcast use crate::value::lemma_bytes_deep_view;

        self.0.same(&other.0)
    }

    fn dup(&self) -> (r: Self) {
        broadcast use crate::value::lemma_bytes_deep_view;

        CopyId(self.0.dup())
    }
}

impl CopyId {
    /// The identifier with the given bytes.
    pub fn new(value: Vec<u8>) -> (r: Self)
        ensures
            r@ == value@,
    {
        CopyId(value)
    }

    /// The bytes of this identifier.
    pub fn as_bytes(&self) -> (r: &[u8])
        ensures
            r@ == self@,
    {
        self.0.as_slice()
    }

    /// The hexadecimal text of this identifier.
    pub fn hex(&self) -> (r: String)
        ensures
            r@ == hex_util::spell(hex_util::hex_digits(), self@),
    {
        hex_util::encode_hex(self.as_bytes())
    }
}

impl ChangeId {
    /// Parses the given "reverse" hex string into a `ChangeId`.
    pub fn try_from_reverse_hex(hex: &[u8]) -> (r: Option<Self>)
        ensures
            match r {
                Some(id) => hex_util::reverse_hex_decoded(hex@) == Some(id@),
                None => hex_util::reverse_hex_decoded(hex@) is None,
            },
    {
        match hex_util::decode_reverse_hex(hex) {
            Some(bytes) => Some(ChangeId(bytes)),
            None => None,
        }
    }

    /// Returns the hex string representation of this ID, which uses `z-k`
    /// "digits" instead of `0-9a-f`.
    pub fn reverse_hex(&self) -> (r: String)
        ensures
            r@ == hex_util::spell(hex_util::reverse_hex_digits(), self@),
    {
        hex_util::encode_reverse_hex(self.as_bytes())
    }
}

impl CopyId {
    /// Returns a placeholder copy id to be used when we don't have a real copy
    /// id yet.
    pub fn placeholder() -> (r: Self)
        ensures
            r@ == Seq::<u8>::empty(),
    {
        CopyId(Vec::new())
    }

    /// The bytes of this identifier.
    pub fn to_bytes(&self) -> (r: Vec<u8>)
        ensures
            r@ == self@,
    {
        broadcast use crate::value::lemma_bytes_deep_view;

        self.0.dup()
    }

    /// Returns true if this is a placeholder copy id.
    pub fn is_placeholder(&self) -> (r: bool)
        ensures
            r == (self@ == Seq::<u8>::empty()),
    {
        assert(self@.len() == 0 ==> self@ =~= Seq::<u8>::empty());
        self.0.len() == 0
    }
}

} // verus!
