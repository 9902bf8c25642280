use jj_lib::backend::TreeId;
use jj_lib::conflict_labels::ConflictLabels;
use jj_lib::merge::Merge;
use jj_lib::merge::SameChange;
use jj_lib::merged_tree::MergedTree;
use jj_lib::store::MergeOptions;
use jj_lib::store::Store;
use std::sync::Arc;

fn merge(terms: &[u8]) -> Merge<u8> {
    Merge::from_vec(terms.to_vec())
}

fn net(merge: &Merge<u8>, value: u8) -> i32 {
    merge
        .as_slice()
        .iter()
        .enumerate()
        .filter(|&(_, &term)| term == value)
        .map(|(i, _)| if i % 2 == 0 { 1 } else { -1 })
        .sum()
}

#[test]
fn trivial_resolutions() {
    let resolve = |terms: &[u8], same_change| merge(terms).resolve_trivial(same_change).copied();
    for same_change in [SameChange::Keep, SameChange::Accept] {
        assert_eq!(resolve(&[0], same_change), Some(0));
        assert_eq!(resolve(&[0, 0, 1], same_change), Some(1));
        assert_eq!(resolve(&[1, 0, 0], same_change), Some(1));
        assert_eq!(resolve(&[0, 0, 0], same_change), Some(0));
        assert_eq!(resolve(&[1, 0, 2], same_change), None);
        assert_eq!(resolve(&[0, 1, 2, 0, 1], same_change), Some(2));
        assert_eq!(resolve(&[1, 0, 2, 0, 3], same_change), None);
    }
    // All sides made the same change.
    assert_eq!(resolve(&[1, 0, 1], SameChange::Keep), None);
    assert_eq!(resolve(&[1, 0, 1], SameChange::Accept), Some(1));
    assert_eq!(resolve(&[1, 0, 1, 0, 1], SameChange::Accept), Some(1));
    assert_eq!(resolve(&[1, 0, 1, 2, 1], SameChange::Accept), None);
}

#[test]
fn simplified_merges() {
    assert_eq!(merge(&[1, 0, 2]).simplify(), merge(&[1, 0, 2]));
    assert_eq!(merge(&[0, 0, 1]).simplify(), merge(&[1]));
    assert_eq!(merge(&[1, 0, 0]).simplify(), merge(&[1]));
    assert_eq!(merge(&[1, 0, 2, 1, 3]).simplify(), merge(&[3, 0, 2]));
    assert_eq!(merge(&[1, 0, 1, 0, 2]).simplify(), merge(&[1, 0, 1, 0, 2]));
    assert_eq!(merge(&[0, 1, 2, 0, 1]).simplify(), merge(&[2]));
}

#[test]
fn simplifying_keeps_what_is_left() {
    for code in 0..3_u32.pow(5) {
        let terms: Vec<u8> = (0..5).map(|i| (code / 3_u32.pow(i) % 3) as u8).collect();
        let before = merge(&terms);
        let after = before.simplify();
        for value in 0..3 {
            assert_eq!(net(&after, value), net(&before, value));
        }
        assert_eq!(after.simplify(), after);
    }
}

#[test]
fn flattened_merges() {
    let nested = Merge::from_vec(vec![merge(&[1, 0, 2]), merge(&[3, 4, 5]), merge(&[6])]);
    let flat = nested.flatten();
    assert_eq!(flat, merge(&[1, 0, 2, 5, 4, 3, 6]));
    let nested = Merge::from_vec(vec![merge(&[7])]);
    assert_eq!(nested.flatten(), merge(&[7]));
}

#[test]
fn flattening_keeps_what_is_left() {
    let (a, b, c) = (merge(&[1, 0, 2]), merge(&[2, 1, 0]), merge(&[0]));
    let flat = Merge::from_vec(vec![a.clone(), b.clone(), c.clone()]).flatten();
    for value in 0..3 {
        assert_eq!(
            net(&flat, value),
            net(&a, value) - net(&b, value) + net(&c, value)
        );
    }
}

fn labels(labels: &[&str]) -> ConflictLabels {
    ConflictLabels::from_vec(labels.iter().map(|&label| label.to_owned()).collect())
}

#[test]
fn labels_of_conflicts() {
    assert!(!ConflictLabels::unlabeled().has_labels());
    assert_eq!(labels(&["resolved"]), ConflictLabels::unlabeled());
    assert_eq!(labels(&["", "", ""]), ConflictLabels::unlabeled());
    let some = labels(&["left", "", "right"]);
    assert!(some.has_labels());
    assert_eq!(some.num_sides(), Some(2));
    assert_eq!(some.get_add(0), Some("left"));
    assert_eq!(some.get_remove(0), None);
    assert_eq!(some.get_add(1), Some("right"));
    assert_eq!(some.get_add(2), None);
}

#[test]
fn labels_follow_simplified_terms() {
    let (simplified, merge1) =
        labels(&["a", "b", "c", "d", "e"]).simplify_with(&merge(&[1, 0, 2, 1, 3]));
    assert_eq!(merge1, merge(&[3, 0, 2]));
    assert_eq!(simplified, labels(&["e", "b", "c"]));
    let (simplified, merge1) = labels(&["a", "b", "c"]).simplify_with(&merge(&[0, 0, 1]));
    assert_eq!(merge1, merge(&[1]));
    assert_eq!(simplified, ConflictLabels::unlabeled());
}

fn store() -> Arc<Store> {
    let options = MergeOptions {
        same_change: SameChange::Accept,
    };
    Arc::new(Store::new(options, 1))
}

fn tree_id(id: u8) -> TreeId {
    TreeId::new(vec![id])
}

fn merged_tree(ids: &[u8], names: &[&str]) -> MergedTree {
    let ids = ids.iter().map(|&id| tree_id(id)).collect();
    MergedTree::new(store(), Merge::from_vec(ids), labels(names))
}

#[test]
fn labels_by_term() {
    let conflict = merged_tree(&[1, 2, 3], &["a", "b", "c"]);
    assert_eq!(
        conflict.labels_by_term("other"),
        Merge::from_vec(vec!["a", "b", "c"])
    );
    // Without labels of its own, a resolved tree gets the given one, and a
    // conflict gets none.
    let resolved = merged_tree(&[1], &[""]);
    assert_eq!(
        resolved.labels_by_term("other"),
        Merge::from_vec(vec!["other"])
    );
    let unlabeled = merged_tree(&[1, 2, 3], &[""]);
    assert_eq!(
        unlabeled.labels_by_term("other"),
        Merge::from_vec(vec!["", "", ""])
    );
}

#[test]
fn merged_trees_before_resolution() {
    let merged = MergedTree::merge_no_resolve(Merge::from_vec(vec![
        (merged_tree(&[4, 1, 2], &["s", "t", "u"]), "side".to_owned()),
        (merged_tree(&[2], &[""]), "base".to_owned()),
        (merged_tree(&[5], &[""]), "other".to_owned()),
    ]));
    assert_eq!(
        *merged.tree_ids(),
        Merge::from_vec(vec![tree_id(4), tree_id(1), tree_id(5)])
    );
    assert_eq!(*merged.labels(), labels(&["s", "t", "other"]));
    assert!(merged.has_conflict());
    assert!(!merged_tree(&[5], &[""]).has_conflict());
}

#[test]
fn trees_with_their_labels() {
    let tree = merged_tree(&[1, 2, 3], &["a", "b", "c"]);
    let ids = Merge::from_vec(vec![tree_id(1), tree_id(2), tree_id(3)]);
    assert_eq!(*tree.tree_ids(), ids);
    let (borrowed_ids, borrowed_labels) = tree.tree_ids_and_labels();
    assert_eq!(*borrowed_ids, ids);
    assert_eq!(*borrowed_labels, labels(&["a", "b", "c"]));
    assert_eq!(tree.clone().into_tree_ids(), ids);
    let (owned_ids, owned_labels) = tree.into_tree_ids_and_labels();
    assert_eq!(owned_ids, ids);
    assert_eq!(owned_labels, labels(&["a", "b", "c"]));
}
