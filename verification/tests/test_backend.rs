use jj_lib::backend::ChangeId;
use jj_lib::backend::CommitId;
use jj_lib::backend::CopyHistory;
use jj_lib::backend::CopyId;
use jj_lib::backend::FileId;
use jj_lib::backend::MergedTreeValue;
use jj_lib::backend::MillisSinceEpoch;
use jj_lib::backend::SecureSig;
use jj_lib::backend::SymlinkId;
use jj_lib::backend::Timestamp;
use jj_lib::backend::TimestampOutOfRange;
use jj_lib::backend::Tree;
use jj_lib::backend::TreeEntry;
use jj_lib::backend::TreeId;
use jj_lib::backend::TreeValue;
use jj_lib::backend::make_root_commit;
use jj_lib::conflict_labels::ConflictLabels;
use jj_lib::merge::Merge;
use jj_lib::repo_path::RepoPathBuf;
use jj_lib::repo_path::RepoPathComponentBuf;
use jj_lib::timestamp::DateTime;

fn component(name: &str) -> RepoPathComponentBuf {
    RepoPathComponentBuf::new(name.to_owned()).unwrap()
}

fn file(id: u8, executable: bool, copy_id: &[u8]) -> TreeValue {
    TreeValue::File {
        id: FileId::new(vec![id]),
        executable,
        copy_id: CopyId::new(copy_id.to_vec()),
    }
}

fn symlink(id: u8) -> TreeValue {
    TreeValue::Symlink(SymlinkId::new(vec![id]))
}

fn tree(id: u8) -> TreeValue {
    TreeValue::Tree(TreeId::new(vec![id]))
}

#[test]
fn hex_of_ids() {
    assert_eq!(CommitId::new(vec![0x01, 0x23, 0xab, 0xff]).hex(), "0123abff");
    assert_eq!(FileId::new(vec![]).hex(), "");
}

#[test]
fn reverse_hex_of_change_ids() {
    let id = ChangeId::new(vec![0x01, 0x23, 0x45, 0x67, 0x89, 0xab, 0xcd, 0xef]);
    assert_eq!(id.reverse_hex(), "zyxwvutsrqponmlk");
    let text = id.reverse_hex();
    assert_eq!(ChangeId::try_from_reverse_hex(text.as_bytes()), Some(id));
    assert_eq!(
        ChangeId::try_from_reverse_hex("".as_bytes()),
        Some(ChangeId::new(vec![]))
    );
    // An odd number of digits, and digits of the usual kind.
    assert_eq!(ChangeId::try_from_reverse_hex("zyx".as_bytes()), None);
    assert_eq!(ChangeId::try_from_reverse_hex("0123".as_bytes()), None);
    assert_eq!(ChangeId::try_from_reverse_hex("zj".as_bytes()), None);
}

#[test]
fn reverse_hex_round_trip() {
    for byte in 0..=255 {
        let id = ChangeId::new(vec![byte, 255 - byte]);
        let text = id.reverse_hex();
        assert_eq!(ChangeId::try_from_reverse_hex(text.as_bytes()), Some(id));
    }
}

#[test]
fn placeholder_copy_id() {
    assert!(CopyId::placeholder().is_placeholder());
    assert!(!CopyId::new(vec![0]).is_placeholder());
}

fn timestamp(millis: i64, tz_offset: i32) -> Timestamp {
    Timestamp {
        timestamp: MillisSinceEpoch(millis),
        tz_offset,
    }
}

#[test]
fn timestamps_to_datetimes() {
    assert_eq!(
        timestamp(1_234_567, 90).to_datetime(),
        Ok(DateTime {
            secs: 1234,
            nanos: 567_000_000,
            offset: 5400
        })
    );
    // Before the epoch, the milliseconds count up from the second before.
    assert_eq!(
        timestamp(-1, -60).to_datetime(),
        Ok(DateTime {
            secs: -1,
            nanos: 999_000_000,
            offset: -3600
        })
    );
    // Offsets of a day or more are not kept.
    assert_eq!(timestamp(0, 1439).to_datetime().unwrap().offset, 86_340);
    assert_eq!(timestamp(0, 1440).to_datetime().unwrap().offset, 0);
    assert_eq!(timestamp(0, -1439).to_datetime().unwrap().offset, -86_340);
    assert_eq!(timestamp(0, -1440).to_datetime().unwrap().offset, 0);
}

#[test]
fn timestamps_at_the_ends_of_the_range() {
    let first = -8_334_601_228_800;
    let last = 8_210_266_876_799;
    assert_eq!(timestamp(first * 1000, 0).to_datetime().unwrap().secs, first);
    assert_eq!(
        timestamp(first * 1000 - 1, 0).to_datetime(),
        Err(TimestampOutOfRange)
    );
    assert_eq!(
        timestamp(last * 1000 + 999, 0).to_datetime().unwrap().secs,
        last
    );
    assert_eq!(
        timestamp(last * 1000 + 1000, 0).to_datetime(),
        Err(TimestampOutOfRange)
    );
    assert_eq!(timestamp(i64::MAX, 0).to_datetime(), Err(TimestampOutOfRange));
    assert_eq!(timestamp(i64::MIN, 0).to_datetime(), Err(TimestampOutOfRange));
}

#[test]
fn datetimes_to_timestamps() {
    let datetime = DateTime {
        secs: 1234,
        nanos: 567_999_999,
        offset: 5430,
    };
    assert_eq!(Timestamp::from_datetime(datetime), timestamp(1_234_567, 90));
    let datetime = DateTime {
        secs: -1,
        nanos: 999_000_000,
        offset: -5430,
    };
    assert_eq!(Timestamp::from_datetime(datetime), timestamp(-1, -90));
}

#[test]
fn timestamp_round_trip() {
    for millis in [-1_000_000_000_001, -1, 0, 999, 1_700_000_000_123] {
        for tz_offset in [-1439, -60, 0, 330, 1439] {
            let before = timestamp(millis, tz_offset);
            let after = Timestamp::from_datetime(before.to_datetime().unwrap());
            assert_eq!(after, before);
        }
    }
    let after = Timestamp::from_datetime(timestamp(5, 1440).to_datetime().unwrap());
    assert_eq!(after, timestamp(5, 0));
}

#[test]
fn current_time() {
    // 2020-01-01T00:00:00Z
    let now = Timestamp::now();
    assert!(now.timestamp.0 > 1_577_836_800_000);
    assert!(now.to_datetime().is_ok());
}

#[test]
fn kinds_of_merged_values() {
    let value: MergedTreeValue = Merge::from_vec(vec![Some(tree(1)), None, Some(tree(2))]);
    assert!(value.is_tree());
    assert!(!value.is_file_like());
    // A conflict between absent values is not absent.
    let value: MergedTreeValue = Merge::from_vec(vec![None, None, None]);
    assert!(value.is_tree());
    let value: MergedTreeValue = Merge::absent();
    assert!(!value.is_tree());
    assert!(!value.is_file_like());
    let value: MergedTreeValue =
        Merge::from_vec(vec![Some(tree(1)), None, Some(file(2, false, &[]))]);
    assert!(!value.is_tree());
    assert!(value.is_file_like());
    let value: MergedTreeValue = Merge::normal(symlink(1));
    assert!(value.is_file_like());
}

#[test]
fn parts_of_file_merges() {
    let value: MergedTreeValue = Merge::from_vec(vec![
        Some(file(1, true, &[7])),
        None,
        Some(file(2, false, &[8])),
    ]);
    assert_eq!(
        value.to_file_merge(),
        Some(Merge::from_vec(vec![
            Some(FileId::new(vec![1])),
            None,
            Some(FileId::new(vec![2]))
        ]))
    );
    assert_eq!(
        value.to_executable_merge(),
        Some(Merge::from_vec(vec![Some(true), None, Some(false)]))
    );
    assert_eq!(
        value.to_copy_id_merge(),
        Some(Merge::from_vec(vec![
            Some(CopyId::new(vec![7])),
            None,
            Some(CopyId::new(vec![8]))
        ]))
    );

    let value: MergedTreeValue =
        Merge::from_vec(vec![Some(file(1, true, &[])), None, Some(symlink(2))]);
    assert_eq!(value.to_file_merge(), None);
    assert_eq!(value.to_executable_merge(), None);
    assert_eq!(value.to_copy_id_merge(), None);
}

#[test]
fn new_file_ids() {
    let value: MergedTreeValue = Merge::from_vec(vec![
        Some(file(1, true, &[7])),
        None,
        Some(file(2, false, &[8])),
    ]);
    // With its own file IDs, the value stays the same.
    let own = value.to_file_merge().unwrap();
    assert_eq!(value.with_new_file_ids(&own), value);

    let ids = Merge::from_vec(vec![
        Some(FileId::new(vec![3])),
        Some(FileId::new(vec![4])),
        None,
    ]);
    let updated = value.with_new_file_ids(&ids);
    assert_eq!(
        updated,
        Merge::from_vec(vec![
            Some(file(3, true, &[7])),
            Some(file(4, false, &[])),
            None
        ])
    );
    assert_eq!(updated.to_file_merge(), Some(ids));
}

#[test]
fn descriptions_of_conflicts() {
    let value: MergedTreeValue = Merge::from_vec(vec![
        Some(file(0x12, true, &[7])),
        Some(file(0x34, false, &[])),
        Some(symlink(0x56)),
        None,
        Some(tree(0x78)),
        Some(TreeValue::GitSubmodule(CommitId::new(vec![0x9a]))),
        None,
    ]);
    assert_eq!(
        value.describe(&ConflictLabels::unlabeled()),
        "Conflict:\n  \
           Removing file with id 34\n  \
           Removing Git submodule with id 9a\n  \
           Adding executable file with id 12\n  \
           Adding symlink with id 56\n  \
           Adding tree with id 78\n"
    );

    let value: MergedTreeValue = Merge::from_vec(vec![
        Some(file(1, false, &[])),
        Some(file(2, false, &[])),
        Some(file(3, false, &[])),
    ]);
    let labels =
        ConflictLabels::from_vec(vec!["left".to_owned(), "".to_owned(), "right".to_owned()]);
    assert_eq!(
        value.describe(&labels),
        "Conflict:\n  \
           Removing file with id 02\n  \
           Adding file with id 01 (left)\n  \
           Adding file with id 03 (right)\n"
    );
}

#[test]
fn entries_of_trees() {
    let empty = Tree::from_sorted_entries(vec![]);
    assert!(empty.is_empty());
    assert_eq!(empty.value(&component("a")), None);

    let tree = Tree::from_sorted_entries(vec![
        (component("a"), file(1, false, &[])),
        (component("b"), symlink(2)),
        (component("d"), tree(3)),
    ]);
    assert!(!tree.is_empty());
    let names: Vec<&str> = tree
        .names()
        .iter()
        .map(|name| name.as_internal_str())
        .collect();
    assert_eq!(names, ["a", "b", "d"]);
    for name in ["a", "b", "d"] {
        let entry = tree.entry(&component(name)).unwrap();
        assert_eq!(entry.name(), &component(name));
        assert_eq!(tree.value(&component(name)), Some(entry.value()));
    }
    assert_eq!(tree.value(&component("b")), Some(&symlink(2)));
    for name in ["", "c", "e", "aa"] {
        if let Some(name) = RepoPathComponentBuf::new(name.to_owned()) {
            assert!(tree.entry(&name).is_none());
            assert_eq!(tree.value(&name), None);
        }
    }
    let mut entries = tree.entries();
    let mut seen = vec![];
    while let Some(entry) = entries.next() {
        seen.push(entry.name().as_internal_str());
    }
    assert_eq!(seen, ["a", "b", "d"]);

    let (name, value) = (component("x"), symlink(1));
    let entry = TreeEntry::new(&name, &value);
    assert_eq!(entry.name(), &name);
    assert_eq!(entry.value(), &value);
}

#[test]
fn names_in_directories() {
    assert!(RepoPathComponentBuf::new("a.b".to_owned()).is_some());
    assert!(RepoPathComponentBuf::new("".to_owned()).is_none());
    assert!(RepoPathComponentBuf::new("a/b".to_owned()).is_none());
}

#[test]
fn root_commit() {
    let commit = make_root_commit(ChangeId::new(vec![0; 16]), TreeId::new(vec![4]));
    assert!(commit.parents.is_empty());
    assert!(commit.predecessors.is_empty());
    assert_eq!(commit.root_tree, Merge::resolved(TreeId::new(vec![4])));
    assert_eq!(commit.conflict_labels, Merge::resolved("".to_owned()));
    assert_eq!(commit.change_id, ChangeId::new(vec![0; 16]));
    assert_eq!(commit.description, "");
    assert_eq!(commit.author.name, "");
    assert_eq!(commit.author.timestamp, timestamp(0, 0));
    assert_eq!(commit.committer, commit.author);
    assert_eq!(commit.secure_sig, None);
}

#[test]
fn cloned_commits() {
    let mut commit = make_root_commit(ChangeId::new(vec![1; 16]), TreeId::new(vec![4]));
    commit.parents = vec![CommitId::new(vec![2]), CommitId::new(vec![3])];
    commit.description = "description".to_owned();
    commit.author.name = "author".to_owned();
    assert_eq!(commit.clone(), commit);
    commit.secure_sig = Some(SecureSig {
        data: vec![5],
        sig: vec![6, 7],
    });
    assert_eq!(commit.clone(), commit);
}

#[test]
fn order_of_copy_histories() {
    let history = |names: &[&str], parents: &[u8], salt: &[u8]| CopyHistory {
        current_path: RepoPathBuf::from_components(
            names.iter().map(|name| component(name)).collect(),
        ),
        parents: parents.iter().map(|&id| CopyId::new(vec![id])).collect(),
        salt: salt.to_vec(),
    };
    let sorted = [
        history(&["a"], &[], &[]),
        history(&["a"], &[], &[1]),
        history(&["a"], &[1], &[]),
        history(&["a", "b"], &[], &[]),
        history(&["a!"], &[], &[]),
        history(&["b"], &[], &[]),
    ];
    for (i, a) in sorted.iter().enumerate() {
        for (j, b) in sorted.iter().enumerate() {
            assert_eq!(a < b, i < j);
        }
    }
}
