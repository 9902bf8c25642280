//! Adapters for streams of differences.

use crate::listing;
use crate::merge;
use crate::merge::Diff;
use crate::merge::Merge;
use crate::order;
use crate::repo_path;
use crate::repo_path::PathView;
use crate::tree_diff;
use crate::tree_diff::DiffResult;
use crate::tree_diff::TreeDiffEntry;
use crate::tree_value;
use crate::tree_value::MergedTreeValue;
use crate::tree_value::MergedValueView;
use crate::tree_value::TreeValueView;
use vstd::prelude::*;

verus! {

/// A value, or nothing if it is a tree.
pub open spec fn without_tree(value: MergedValueView) -> MergedValueView {
    if tree_value::is_tree(value) {
        merge::absent_terms()
    } else {
        value
    }
}

/// What is left of a difference once its trees are left out, if anything is.
pub open spec fn values_without_trees(values: DiffResult) -> Option<DiffResult> {
    match values {
        Ok(diff) => {
            let rest = Diff { before: without_tree(diff.before), after: without_tree(diff.after) };
            if tree_diff::both_absent(rest) {
                None
            } else {
                Some(Ok(rest))
            }
        },
        Err(err) => Some(Err(err)),
    }
}

fn skip_tree(value: MergedTreeValue) -> (r: MergedTreeValue)
    ensures
        r@ == without_tree(value@),
{
    if value.is_tree() {
        let r = Merge::absent();
        assert(r@ =~= merge::absent_terms::<TreeValueView>());
        r
    } else {
        value
    }
}

/// Leaves trees out of a difference. Returns nothing if neither side is present
/// then.
pub fn without_trees(entry: TreeDiffEntry) -> (r: Option<TreeDiffEntry>)
    ensures
        match r {
            Some(rest) => {
                &&& rest@.0 == entry@.0
                &&& values_without_trees(entry@.1) == Some(rest@.1)
            },
            None => values_without_trees(entry@.1) is None,
        },
{
    match entry.values {
        Ok(diff) => {
            let rest = Diff { before: skip_tree(diff.before), after: skip_tree(diff.after) };
            if rest.before.is_present() || rest.after.is_present() {
                Some(TreeDiffEntry { path: entry.path, values: Ok(rest) })
            } else {
                None
            }
        },
        Err(err) => Some(TreeDiffEntry { path: entry.path, values: Err(err) }),
    }
}

/// The model of a difference at a path.
pub type DiffEntryView = (PathView, DiffResult);

/// Whether neither side of a difference is a file.
pub open spec fn is_skipped(values: DiffResult) -> bool {
    values matches Ok(diff) && !tree_value::is_file_like(diff.before) && !tree_value::is_file_like(
        diff.after,
    )
}

/// Whether a file takes the place of a directory.
pub open spec fn is_replaced(values: DiffResult) -> bool {
    values matches Ok(diff) && tree_value::is_tree(diff.before) && tree_value::is_file_like(
        diff.after,
    )
}

/// The values of a difference as they matter to a file system: a file that
/// takes the place of a directory is added, and one that a directory takes the
/// place of is removed.
pub open spec fn file_values(values: DiffResult) -> DiffResult {
    match values {
        Ok(diff) => if tree_value::is_tree(diff.before) {
            Ok(Diff { before: merge::absent_terms(), after: diff.after })
        } else if tree_value::is_tree(diff.after) {
            Ok(Diff { before: diff.before, after: merge::absent_terms() })
        } else {
            Ok(diff)
        },
        Err(err) => Err(err),
    }
}

/// The model of the adapter.
#[verifier::ext_equal]
pub ghost struct FileSystemModel {
    /// An entry that was taken from the inner stream and is still to be looked
    /// at.
    pub next_item: Option<DiffEntryView>,
    /// A file that waits until the directory in its place has been emptied.
    pub held_file: Option<DiffEntryView>,
}

/// What the adapter does with an entry: what it emits, if anything, and its next
/// state.
pub open spec fn file_system_step(held: Option<DiffEntryView>, next: DiffEntryView) -> (
    Option<DiffEntryView>,
    FileSystemModel,
) {
    if is_skipped(next.1) {
        (None, FileSystemModel { next_item: None, held_file: held })
    } else if held is Some && !repo_path::path_starts_with(next.0, (held->0).0) {
        (held, FileSystemModel { next_item: Some(next), held_file: None })
    } else if is_replaced(next.1) {
        (
            None,
            FileSystemModel { next_item: None, held_file: Some((next.0, file_values(next.1))) },
        )
    } else {
        (
            Some((next.0, file_values(next.1))),
            FileSystemModel { next_item: None, held_file: held },
        )
    }
}

/// Whether the adapter can take an entry: a file that takes the place of a
/// directory does not come while another one waits for a directory around it.
pub open spec fn can_take(held: Option<DiffEntryView>, next: DiffEntryView) -> bool {
    held is Some && repo_path::path_starts_with(next.0, (held->0).0) ==> !is_replaced(next.1)
}

/// Adapts a `TreeDiffStream` to emit a added file at a given path after a
/// removed directory at the same path.
#[derive(Debug)]
pub struct DiffStreamForFileSystem {
    next_item: Option<TreeDiffEntry>,
    held_file: Option<TreeDiffEntry>,
}

/// The model of an entry that may be there.
pub open spec fn optional_entry(entry: Option<TreeDiffEntry>) -> Option<DiffEntryView> {
    match entry {
        Some(entry) => Some(entry@),
        None => None,
    }
}

impl View for DiffStreamForFileSystem {
    type V = FileSystemModel;

    closed spec fn view(&self) -> FileSystemModel {
        FileSystemModel {
            next_item: optional_entry(self.next_item),
            held_file: optional_entry(self.held_file),
        }
    }
}

impl DiffStreamForFileSystem {
    /// An adapter that has not seen anything yet.
    pub fn new() -> (r: Self)
        ensures
            r@ == (FileSystemModel { next_item: None, held_file: None }),
    {
        DiffStreamForFileSystem { next_item: None, held_file: None }
    }

    /// Whether there is an entry left to look at before the inner stream is
    /// asked for the next one.
    pub fn has_next_item(&self) -> (r: bool)
        ensures
            r == (self@.next_item is Some),
    {
        self.next_item.is_some()
    }

    /// Whether the given entry can be taken. A file that takes the place of a
    /// directory must not come while another one waits for a directory around
    /// it.
    pub fn can_take(&self, next: &TreeDiffEntry) -> (r: bool)
        ensures
            r == can_take(self@.held_file, next@),
    {
        match &self.held_file {
            Some(held) => if next.path.starts_with(&held.path) {
                match &next.values {
                    Ok(diff) => !(diff.before.is_tree() && diff.after.is_file_like()),
                    Err(_) => true,
                }
            } else {
                true
            },
            None => true,
        }
    }

    /// Looks at the entry that is left, and emits an entry if one is ready.
    pub fn resume(&mut self) -> (r: Option<TreeDiffEntry>)
        requires
            old(self)@.next_item is Some,
            can_take(old(self)@.held_file, old(self)@.next_item->0),
        ensures
            (optional_entry(r), final(self)@) == file_system_step(
                old(self)@.held_file,
                old(self)@.next_item->0,
            ),
    {
        match self.next_item.take() {
            Some(next) => self.take_entry(next),
            None => None,
        }
    }

    /// Looks at the next entry of the inner stream, and emits an entry if one is
    /// ready.
    pub fn take_entry(&mut self, next: TreeDiffEntry) -> (r: Option<TreeDiffEntry>)
        requires
            old(self)@.next_item is None,
            can_take(old(self)@.held_file, next@),
        ensures
            (optional_entry(r), final(self)@) == file_system_step(old(self)@.held_file, next@),
    {
        // Filter out changes where neither side (before or after) is_file_like.
        // This ensures we only process file-level changes and transitions.
        if let Ok(diff) = &next.values {
            if !diff.before.is_file_like() && !diff.after.is_file_like() {
                return None;
            }
        }
        // If there's a held file "foo" and the next item to emit is not "foo/...", then
        // we must be done with the "foo/" directory and it's time to emit "foo" as a
        // removed file.
        let done = match &self.held_file {
            Some(held) => !next.path.starts_with(&held.path),
            None => false,
        };
        if done {
            self.next_item = Some(next);
            return self.held_file.take();
        }
        match next.values {
            Ok(diff) => {
                if diff.before.is_tree() {
                    let before: MergedTreeValue = Merge::absent();
                    assert(before@ =~= merge::absent_terms::<TreeValueView>());
                    self.held_file =
                    Some(
                        TreeDiffEntry {
                            path: next.path,
                            values: Ok(Diff::new(before, diff.after)),
                        },
                    );
                    None
                } else if diff.after.is_tree() {
                    let after: MergedTreeValue = Merge::absent();
                    assert(after@ =~= merge::absent_terms::<TreeValueView>());
                    Some(
                        TreeDiffEntry {
                            path: next.path,
                            values: Ok(Diff::new(diff.before, after)),
                        },
                    )
                } else {
                    Some(TreeDiffEntry { path: next.path, values: Ok(diff) })
                }
            },
            Err(err) => Some(TreeDiffEntry { path: next.path, values: Err(err) }),
        }
    }

    /// Emits the file that waits, once the inner stream has ended.
    pub fn finish(&mut self) -> (r: Option<TreeDiffEntry>)
        ensures
            optional_entry(r) == old(self)@.held_file,
            final(self)@ == (FileSystemModel { held_file: None, ..old(self)@ }),
    {
        self.held_file.take()
    }
}

/// All that the adapter emits for a stream of entries.
pub open spec fn file_system_run(
    held: Option<DiffEntryView>,
    entries: Seq<DiffEntryView>,
) -> Seq<DiffEntryView>
    decreases entries.len(), (if held is Some { 1int } else { 0 }),
{
    if entries.len() == 0 {
        match held {
            Some(entry) => seq![entry],
            None => Seq::empty(),
        }
    } else {
        let (emitted, next) = file_system_step(held, entries[0]);
        let rest = if next.next_item is Some && held is Some {
            file_system_run(None, entries)
        } else {
            file_system_run(next.held_file, entries.drop_first())
        };
        match emitted {
            Some(entry) => seq![entry] + rest,
            None => rest,
        }
    }
}

/// What the adapter shows of a difference.
pub open spec fn shown_values(values: Option<DiffResult>) -> Option<DiffResult> {
    match values {
        Some(values) => if is_skipped(values) {
            None
        } else {
            Some(file_values(values))
        },
        None => None,
    }
}

/// Whether the path `a` is emitted before `b`: in the order of the paths, but
/// that what lies in a directory comes before the file that takes its place.
pub open spec fn emitted_before(replaced: spec_fn(PathView) -> bool, a: PathView, b: PathView) -> bool {
    if repo_path::path_starts_with(a, b) {
        a != b && replaced(b)
    } else if repo_path::path_starts_with(b, a) {
        !replaced(a)
    } else {
        order::path_less(a, b)
    }
}

/// Whether a file takes the place of a directory at the given path.
pub open spec fn replaced_at(
    held: Option<DiffEntryView>,
    entries: Seq<DiffEntryView>,
) -> spec_fn(PathView) -> bool {
    |path: PathView|
        {
            ||| held is Some && (held->0).0 == path
            ||| listing::lookup(entries, path) is Some && is_replaced(
                listing::lookup(entries, path)->0,
            )
        }
}

/// Whether no file takes the place of a directory inside a directory that a file
/// takes the place of.
pub open spec fn replaced_apart(held: Option<DiffEntryView>, entries: Seq<DiffEntryView>) -> bool {
    &&& forall|j: int|
        0 <= j < entries.len() && held is Some && repo_path::path_starts_with(
            (#[trigger] entries[j]).0,
            (held->0).0,
        ) ==> !is_replaced(entries[j].1)
    &&& forall|i: int, j: int|
        0 <= i < j < entries.len() && repo_path::path_starts_with(
            (#[trigger] entries[j]).0,
            (#[trigger] entries[i]).0,
        ) && is_replaced(entries[i].1) ==> !is_replaced(entries[j].1)
}

/// What the adapter emits, and in which order, from a state on.
spec fn emits_in_order(
    held: Option<DiffEntryView>,
    entries: Seq<DiffEntryView>,
    out: Seq<DiffEntryView>,
) -> bool {
    &&& forall|p: PathView| #[trigger]
        listing::lookup(out, p) == (if held is Some && (held->0).0 == p {
            Some((held->0).1)
        } else {
            shown_values(listing::lookup(entries, p))
        })
    &&& forall|k: int, l: int|
        0 <= k < l < out.len() ==> emitted_before(
            replaced_at(held, entries),
            (#[trigger] out[k]).0,
            (#[trigger] out[l]).0,
        )
}

/// Whether the adapter can be in this state.
spec fn valid_state(held: Option<DiffEntryView>, entries: Seq<DiffEntryView>) -> bool {
    &&& listing::sorted_by(order::path_order(), entries)
    &&& replaced_apart(held, entries)
    &&& forall|j: int|
        0 <= j < entries.len() && held is Some ==> order::path_less(
            (held->0).0,
            (#[trigger] entries[j]).0,
        )
}

/// Emits an entry before all that comes after it.
proof fn lemma_emit_first(
    held: Option<DiffEntryView>,
    entries: Seq<DiffEntryView>,
    entry: DiffEntryView,
    next_held: Option<DiffEntryView>,
    next_entries: Seq<DiffEntryView>,
    rest: Seq<DiffEntryView>,
)
    requires
        emits_in_order(next_held, next_entries, rest),
        listing::lookup(rest, entry.0) is None,
        forall|p: PathView| #[trigger]
            listing::lookup(rest, p) is Some ==> emitted_before(
                replaced_at(held, entries),
                entry.0,
                p,
            ) && replaced_at(held, entries)(p) == replaced_at(next_held, next_entries)(p),
        forall|p: PathView|
            (if p == entry.0 {
                Some(entry.1)
            } else {
                #[trigger] listing::lookup(rest, p)
            }) == (if held is Some && (held->0).0 == p {
                Some((held->0).1)
            } else {
                shown_values(listing::lookup(entries, p))
            }),
    ensures
        emits_in_order(held, entries, seq![entry] + rest),
{
    let out = seq![entry] + rest;
    let rep = replaced_at(held, entries);
    let next_rep = replaced_at(next_held, next_entries);
    assert forall|i: int, j: int| 0 <= i < j < rest.len() implies (#[trigger] rest[i]).0 != (
    #[trigger] rest[j]).0 by {
        assert(emitted_before(next_rep, rest[i].0, rest[j].0));
        if rest[i].0 == rest[j].0 {
            assert(rest[i].0.take(rest[i].0.len() as int) =~= rest[i].0);
        }
    }
    listing::lemma_lookup_cons(entry.0, entry.1, rest);
    assert forall|p: PathView| #[trigger]
        listing::lookup(out, p) == (if held is Some && (held->0).0 == p {
            Some((held->0).1)
        } else {
            shown_values(listing::lookup(entries, p))
        }) by {
    }
    assert forall|k: int, l: int| 0 <= k < l < out.len() implies emitted_before(
        rep,
        (#[trigger] out[k]).0,
        (#[trigger] out[l]).0,
    ) by {
        assert(out[l] == rest[l - 1]);
        lemma_key_found(rest, l - 1);
        if k > 0 {
            assert(out[k] == rest[k - 1]);
            lemma_key_found(rest, k - 1);
            assert(emitted_before(next_rep, rest[k - 1].0, rest[l - 1].0));
        }
    }
}

proof fn lemma_key_found(s: Seq<DiffEntryView>, i: int)
    requires
        0 <= i < s.len(),
    ensures
        listing::lookup(s, s[i].0) is Some,
{
    assert(s[i].0 == s[i].0);
}

proof fn lemma_file_system_run(held: Option<DiffEntryView>, entries: Seq<DiffEntryView>)
    requires
        valid_state(held, entries),
    ensures
        emits_in_order(held, entries, file_system_run(held, entries)),
    decreases entries.len(), (if held is Some { 1int } else { 0 }),
{
    let out = file_system_run(held, entries);
    let less = order::path_order();
    order::lemma_path_order();
    let rep = replaced_at(held, entries);
    if entries.len() == 0 {
        if held is Some {
            let entry = held->0;
            assert(Seq::<DiffEntryView>::empty() =~= entries);
            listing::lemma_lookup_cons(entry.0, entry.1, entries);
            assert(seq![entry] + entries =~= seq![entry]);
            assert(out =~= seq![entry]);
        }
    } else {
        let first = entries[0];
        let rest = entries.drop_first();
        assert(rest =~= entries.remove(0));
        listing::lemma_lookup_remove(less, entries, 0);
        listing::lemma_lookup_at(less, entries, 0);
        assert forall|j: int| 0 <= j < rest.len() implies #[trigger] rest[j] == entries[j + 1]
            && order::path_less(first.0, rest[j].0) by {
            assert(less(entries[0].0, entries[j + 1].0));
        }
        assert(replaced_apart(held, rest)) by {
            assert forall|j: int|
                0 <= j < rest.len() && held is Some && repo_path::path_starts_with(
                    (#[trigger] rest[j]).0,
                    (held->0).0,
                ) implies !is_replaced(rest[j].1) by {
                assert(rest[j] == entries[j + 1]);
            }
            assert forall|i: int, j: int|
                0 <= i < j < rest.len() && repo_path::path_starts_with(
                    (#[trigger] rest[j]).0,
                    (#[trigger] rest[i]).0,
                ) && is_replaced(rest[i].1) implies !is_replaced(rest[j].1) by {
                assert(rest[i] == entries[i + 1] && rest[j] == entries[j + 1]);
            }
        }
        assert(valid_state(held, rest)) by {
            assert forall|j: int| 0 <= j < rest.len() && held is Some implies order::path_less(
                (held->0).0,
                (#[trigger] rest[j]).0,
            ) by {
                assert(rest[j] == entries[j + 1]);
            }
        }
        order::lemma_paths(first.0, first.0, first.0);
        if is_skipped(first.1) {
            lemma_file_system_run(held, rest);
            let next_rep = replaced_at(held, rest);
            assert forall|k: int, l: int| 0 <= k < l < out.len() implies emitted_before(
                rep,
                (#[trigger] out[k]).0,
                (#[trigger] out[l]).0,
            ) by {
                assert(emitted_before(next_rep, out[k].0, out[l].0));
                lemma_key_found(out, k);
                lemma_key_found(out, l);
                assert(rep(out[k].0) == next_rep(out[k].0));
                assert(rep(out[l].0) == next_rep(out[l].0));
            }
        } else if held is Some && !repo_path::path_starts_with(first.0, (held->0).0) {
            let entry = held->0;
            assert(replaced_apart(None, entries));
            lemma_file_system_run(None, entries);
            let after = file_system_run(None, entries);
            assert(out =~= seq![entry] + after);
            assert forall|p: PathView| #[trigger] listing::lookup(after, p) is Some implies emitted_before(
                rep,
                entry.0,
                p,
            ) && rep(p) == replaced_at(None, entries)(p) by {
                assert(listing::lookup(entries, p) is Some);
                let i = listing::lemma_lookup_some(entries, p);
                assert(order::path_less(entry.0, entries[i].0));
                order::lemma_paths(entry.0, p, entry.0);
                if repo_path::path_starts_with(entry.0, p) {
                    repo_path::lemma_prefix_before(p, entry.0);
                }
                if repo_path::path_starts_with(p, entry.0) {
                    repo_path::lemma_below_before(entry.0, p, first.0);
                    if i > 0 {
                        assert(less(entries[0].0, entries[i].0));
                    }
                    order::lemma_paths(first.0, p, first.0);
                }
            }
            assert(listing::lookup(after, entry.0) is None) by {
                if listing::lookup(entries, entry.0) is Some {
                    let i = listing::lemma_lookup_some(entries, entry.0);
                    assert(order::path_less(entry.0, entries[i].0));
                    order::lemma_paths(entry.0, entry.0, entry.0);
                }
            }
            lemma_emit_first(held, entries, entry, None, entries, after);
        } else if is_replaced(first.1) {
            assert(held is None);
            let next_held = Some((first.0, file_values(first.1)));
            assert(replaced_apart(next_held, rest)) by {
                assert forall|j: int|
                    0 <= j < rest.len() && repo_path::path_starts_with(
                        (#[trigger] rest[j]).0,
                        first.0,
                    ) implies !is_replaced(rest[j].1) by {
                    assert(rest[j] == entries[j + 1]);
                    assert(repo_path::path_starts_with(entries[j + 1].0, entries[0].0));
                }
            }
            lemma_file_system_run(next_held, rest);
            let next_rep = replaced_at(next_held, rest);
            assert forall|k: int, l: int| 0 <= k < l < out.len() implies emitted_before(
                rep,
                (#[trigger] out[k]).0,
                (#[trigger] out[l]).0,
            ) by {
                assert(emitted_before(next_rep, out[k].0, out[l].0));
                assert(rep(out[k].0) == next_rep(out[k].0));
                assert(rep(out[l].0) == next_rep(out[l].0));
            }
        } else {
            let entry = (first.0, file_values(first.1));
            lemma_file_system_run(held, rest);
            let after = file_system_run(held, rest);
            assert(out =~= seq![entry] + after);
            assert(held is Some ==> (held->0).0 != first.0);
            assert forall|p: PathView| #[trigger] listing::lookup(after, p) is Some implies emitted_before(
                rep,
                entry.0,
                p,
            ) && rep(p) == replaced_at(held, rest)(p) by {
                if held is Some && (held->0).0 == p {
                    assert(repo_path::path_starts_with(first.0, p));
                } else {
                    assert(listing::lookup(rest, p) is Some);
                    let i = listing::lemma_lookup_some(rest, p);
                    assert(order::path_less(first.0, rest[i].0));
                    order::lemma_paths(first.0, p, first.0);
                    if repo_path::path_starts_with(first.0, p) {
                        repo_path::lemma_prefix_before(p, first.0);
                    }
                }
            }
            lemma_emit_first(held, entries, entry, held, rest, after);
        }
    }
}

/// The adapter emits every difference that has a file on one side, once, with
/// the directories replaced by nothing. It emits them in the order of the paths,
/// but that the files in a removed directory are emitted before a file that
/// replaces it.
pub proof fn law_file_system_order(entries: Seq<DiffEntryView>)
    requires
        listing::sorted_by(order::path_order(), entries),
        replaced_apart(None, entries),
    ensures
        ({
            let out = file_system_run(None, entries);
            &&& forall|p: PathView| #[trigger]
                listing::lookup(out, p) == shown_values(listing::lookup(entries, p))
            &&& forall|k: int, l: int|
                0 <= k < l < out.len() ==> emitted_before(
                    replaced_at(None, entries),
                    (#[trigger] out[k]).0,
                    (#[trigger] out[l]).0,
                )
        }),
{
    lemma_file_system_run(None, entries);
}

} // verus!
