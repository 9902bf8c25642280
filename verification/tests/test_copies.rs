use jj_lib::ancestor_paths::AncestorSource;
use jj_lib::ancestor_paths::AncestorStart;
use jj_lib::ancestor_paths::ancestors_of_value;
use jj_lib::ancestor_paths::begin_ancestor_paths;
use jj_lib::ancestor_paths::get_ancestor_paths;
use jj_lib::backend::BackendError;
use jj_lib::backend::CommitId;
use jj_lib::backend::CopyHistory;
use jj_lib::backend::CopyId;
use jj_lib::backend::CopyRecord;
use jj_lib::backend::FileId;
use jj_lib::backend::MergedTreeValue;
use jj_lib::backend::RelatedCopy;
use jj_lib::backend::SymlinkId;
use jj_lib::backend::TreeValue;
use jj_lib::copies::CopiesTreeDiffEntryPath;
use jj_lib::copies::CopyGraph;
use jj_lib::copies::CopyHistorySource;
use jj_lib::copies::CopyOperation;
use jj_lib::copies::CopyRecords;
use jj_lib::copies::is_ancestor;
use jj_lib::copy_descendants::collect_descendants;
use jj_lib::copy_order::has_topo_order;
use jj_lib::copy_order::topo_order_forward;
use jj_lib::copy_trace::CopyTraceStart;
use jj_lib::copy_trace::can_classify;
use jj_lib::copy_trace::classify_source;
use jj_lib::copy_trace::diffs_from_copies;
use jj_lib::copy_walk::iterate_ancestors;
use jj_lib::merge::Diff;
use jj_lib::merge::Merge;
use jj_lib::path_groups::PathGroups;
use jj_lib::path_map::PathSet;
use jj_lib::repo_path::RepoPathBuf;
use jj_lib::repo_path::RepoPathComponentBuf;

fn repo_path(path: &str) -> RepoPathBuf {
    let components = path
        .split('/')
        .map(|name| RepoPathComponentBuf::new(name.to_owned()).unwrap())
        .collect();
    RepoPathBuf::from_components(components)
}

fn record(source: &str, target: &str) -> CopyRecord {
    CopyRecord {
        source: repo_path(source),
        target: repo_path(target),
        target_commit: CommitId::new(vec![]),
        source_commit: CommitId::new(vec![]),
        source_file: FileId::new(vec![]),
    }
}

#[test]
fn copy_records_by_path() {
    let mut records = CopyRecords::default();
    records.add_records(vec![record("a", "b"), record("c", "d")]);
    assert!(records.has_source(&repo_path("a")));
    assert!(!records.has_source(&repo_path("b")));
    assert!(records.has_target(&repo_path("b")));
    assert!(!records.has_target(&repo_path("a")));
    assert_eq!(
        records.for_source(&repo_path("c")),
        Some(&record("c", "d"))
    );
    assert_eq!(
        records.for_target(&repo_path("b")),
        Some(&record("a", "b"))
    );
    assert_eq!(records.for_target(&repo_path("x")), None);
    assert_eq!(records.iter(), [record("a", "b"), record("c", "d")]);
}

#[test]
fn duplicate_copy_records() {
    let mut records = CopyRecords::default();
    records.add_records(vec![record("a", "b"), record("a", "b")]);
    assert_eq!(records.iter(), [record("a", "b")]);
    records.add_records(vec![record("a", "b")]);
    assert_eq!(records.iter(), [record("a", "b")]);
    assert_eq!(
        records.for_target(&repo_path("b")),
        Some(&record("a", "b"))
    );
}

#[test]
fn conflicting_copy_records() {
    let mut records = CopyRecords::default();
    records.add_records(vec![record("a", "c"), record("b", "c")]);
    // It is not known which one to use.
    assert!(records.has_target(&repo_path("c")));
    assert_eq!(records.for_target(&repo_path("c")), None);
    assert_eq!(
        records.for_source(&repo_path("a")),
        Some(&record("a", "c"))
    );
    records.add_records(vec![record("a", "d")]);
    assert!(records.has_source(&repo_path("a")));
    assert_eq!(records.for_source(&repo_path("a")), None);
    assert_eq!(
        records.for_target(&repo_path("d")),
        Some(&record("a", "d"))
    );
    assert_eq!(records.iter().len(), 3);
}

#[test]
fn copy_records_added_in_turn() {
    let added = [
        record("a", "x"),
        record("b", "y"),
        record("a", "x"),
        record("c", "y"),
        record("b", "y"),
        record("a", "x"),
        record("d", "z"),
    ];
    let mut all = CopyRecords::default();
    all.add_records(added.to_vec());
    for split in 0..=added.len() {
        let mut in_turn = CopyRecords::default();
        in_turn.add_records(added[..split].to_vec());
        in_turn.add_records(added[split..].to_vec());
        assert_eq!(in_turn.iter(), all.iter());
    }
    for record in &added {
        assert!(all.has_source(&record.source));
        assert!(all.has_target(&record.target));
    }
}

#[test]
fn origin_is_the_first_record() {
    let first = record("a", "x");
    let mut again = record("a", "x");
    again.source_file = FileId::new(vec![1]);
    let mut records = CopyRecords::default();
    records.add_records(vec![record("b", "y"), first.clone(), again.clone()]);
    assert_eq!(records.for_target(&repo_path("x")), Some(&first));
    // With another source, there is no origin any more, whatever comes after it.
    records.add_records(vec![record("c", "x"), again]);
    assert_eq!(records.for_target(&repo_path("x")), None);
    assert_eq!(
        records.for_target(&repo_path("y")),
        Some(&record("b", "y"))
    );
}

#[test]
fn paths_of_copies() {
    let plain = CopiesTreeDiffEntryPath {
        source: None,
        target: repo_path("t"),
    };
    assert_eq!(plain.source(), &repo_path("t"));
    assert_eq!(plain.target(), &repo_path("t"));
    assert_eq!(plain.copy_operation(), None);
    assert_eq!(plain.to_diff(), None);
    let copy = CopiesTreeDiffEntryPath {
        source: Some((repo_path("s"), CopyOperation::Copy)),
        target: repo_path("t"),
    };
    assert_eq!(copy.source(), &repo_path("s"));
    assert_eq!(copy.copy_operation(), Some(CopyOperation::Copy));
    assert_eq!(
        copy.to_diff(),
        Some(Diff::new(&repo_path("s"), &repo_path("t")))
    );
    // The path is unchanged.
    for op in [CopyOperation::Copy, CopyOperation::Rename] {
        let same = CopiesTreeDiffEntryPath {
            source: Some((repo_path("a"), op)),
            target: repo_path("a"),
        };
        assert_eq!(same.source(), &repo_path("a"));
        assert_eq!(same.copy_operation(), None);
        assert_eq!(same.to_diff(), None);
    }
}

fn copy_id(id: u8) -> CopyId {
    CopyId::new(vec![id])
}

fn related(id: u8, path: &str, parents: &[u8]) -> RelatedCopy {
    RelatedCopy {
        id: copy_id(id),
        history: CopyHistory {
            current_path: repo_path(path),
            parents: parents.iter().map(|&parent| copy_id(parent)).collect(),
            salt: vec![],
        },
    }
}

/// 1 and 2 are merged into 3, which is copied to 4 and 5. 6 stands alone.
fn sample_graph() -> CopyGraph {
    CopyGraph::from_related_copies(vec![
        related(6, "f", &[]),
        related(5, "e", &[3]),
        related(4, "d", &[3]),
        related(3, "c", &[1, 2]),
        related(2, "b", &[]),
        related(1, "a", &[]),
    ])
}

fn ids(ids: &[CopyId]) -> Vec<u8> {
    ids.iter().map(|id| id.as_bytes()[0]).collect()
}

#[test]
fn graphs_of_related_copies() {
    let graph = CopyGraph::from_related_copies(vec![
        related(1, "a", &[]),
        related(2, "b", &[1]),
        related(1, "c", &[]),
    ]);
    // The last one with an ID counts, at the place of the first.
    assert_eq!(graph.len(), 2);
    let (id, history) = graph.get_index(0).unwrap();
    assert_eq!(id, &vec![1]);
    assert_eq!(history.current_path, repo_path("c"));
    assert_eq!(graph.get(&copy_id(2)).unwrap().parents, vec![copy_id(1)]);
    assert!(graph.get(&copy_id(3)).is_none());
    assert!(graph.get_index(2).is_none());
}

#[test]
fn ancestors_in_graph() {
    let graph = sample_graph();
    assert!(is_ancestor(&graph, &copy_id(1), &copy_id(5)));
    assert!(is_ancestor(&graph, &copy_id(3), &copy_id(4)));
    assert!(is_ancestor(&graph, &copy_id(3), &copy_id(3)));
    assert!(!is_ancestor(&graph, &copy_id(5), &copy_id(1)));
    assert!(!is_ancestor(&graph, &copy_id(4), &copy_id(5)));
    assert!(!is_ancestor(&graph, &copy_id(6), &copy_id(5)));
    assert!(!is_ancestor(&graph, &copy_id(9), &copy_id(5)));

    // A parent is missing elsewhere.
    let partial = CopyGraph::from_related_copies(vec![
        related(3, "c", &[9]),
        related(2, "b", &[1]),
        related(1, "a", &[]),
    ]);
    assert!(is_ancestor(&partial, &copy_id(1), &copy_id(2)));
    assert!(!is_ancestor(&partial, &copy_id(3), &copy_id(2)));

    assert_eq!(ids(&iterate_ancestors(&graph, &copy_id(5))), [5, 3, 2, 1]);
    assert_eq!(ids(&iterate_ancestors(&graph, &copy_id(2))), [2]);
    assert!(iterate_ancestors(&graph, &copy_id(9)).is_empty());
}

#[test]
fn parents_come_first() {
    let graph = sample_graph();
    let order: Vec<u8> = topo_order_forward(&graph).iter().map(|id| id[0]).collect();
    assert_eq!(order, [6, 2, 1, 3, 5, 4]);
}

#[test]
fn descendants_in_graph() {
    let descendants = collect_descendants(&sample_graph());
    let of = |id| -> Vec<u8> {
        let set = descendants.get(&copy_id(id)).unwrap();
        set.iter().map(|id| id[0]).collect()
    };
    assert_eq!(of(1), [3, 5, 4]);
    assert_eq!(of(2), [3, 5, 4]);
    assert_eq!(of(3), [5, 4]);
    assert_eq!(of(4), [0; 0]);
    assert_eq!(of(6), [0; 0]);
    assert!(descendants.get(&copy_id(9)).is_none());
}

#[test]
fn graphs_without_topological_order() {
    assert!(has_topo_order(&sample_graph()));
    assert!(has_topo_order(&CopyGraph::from_related_copies(vec![])));
    // A parent is missing.
    let graph = CopyGraph::from_related_copies(vec![related(1, "a", &[2])]);
    assert!(!has_topo_order(&graph));
    // Histories are their own ancestors.
    let graph = CopyGraph::from_related_copies(vec![related(1, "a", &[1])]);
    assert!(!has_topo_order(&graph));
    let graph = CopyGraph::from_related_copies(vec![
        related(1, "a", &[2]),
        related(2, "b", &[1]),
        related(3, "c", &[]),
    ]);
    assert!(!has_topo_order(&graph));
}

fn file(id: u8, copy: &[u8]) -> TreeValue {
    TreeValue::File {
        id: FileId::new(vec![id]),
        executable: false,
        copy_id: CopyId::new(copy.to_vec()),
    }
}

#[test]
fn traces_that_need_no_copies() {
    let symlink = TreeValue::Symlink(SymlinkId::new(vec![1]));
    match diffs_from_copies(symlink) {
        CopyTraceStart::Done(Err(BackendError::Other(message))) => {
            assert_eq!(message, "Expected TreeValue::File with a CopyId");
        }
        other => panic!("unexpected {other:?}"),
    }
    match diffs_from_copies(file(1, &[])) {
        CopyTraceStart::Done(Ok(terms)) => {
            let term = terms.as_resolved().unwrap();
            assert_eq!(term.target_value, Some(file(1, &[])));
            assert!(term.sources.is_empty());
        }
        other => panic!("unexpected {other:?}"),
    }
}

#[test]
fn traces_without_history() {
    let CopyTraceStart::RelatedCopies(trace) = diffs_from_copies(file(1, &[9])) else {
        panic!("related copies are needed");
    };
    assert_eq!(trace.copy_id(), &copy_id(9));
    match trace.find_diff_sources_from_copies(sample_graph()) {
        Err(BackendError::Other(message)) => assert_eq!(
            message,
            "CopyId should be present in `get_related_copies()` result"
        ),
        other => panic!("unexpected {other:?}"),
    }
}

/// The IDs that are tried for a file, if none is there.
fn tried_ids(id: u8) -> Vec<u8> {
    let CopyTraceStart::RelatedCopies(trace) = diffs_from_copies(file(1, &[id])) else {
        panic!("related copies are needed");
    };
    let mut search = trace.find_diff_sources_from_copies(sample_graph()).unwrap();
    let mut tried = vec![];
    while let Some(id) = search.next_id() {
        tried.push(id.as_bytes()[0]);
        search.answer(None);
    }
    tried
}

#[test]
fn candidates_for_sources() {
    // The descendants.
    assert_eq!(tried_ids(1), [3, 5, 4]);
    // The parent and its ancestors, its descendants, and the other descendants of
    // the ancestors.
    assert_eq!(tried_ids(4), [3, 2, 1, 5, 4, 3, 3]);
    // One parent after the other.
    assert_eq!(tried_ids(3), [1, 3, 5, 4, 2, 3, 5, 4]);
    assert_eq!(tried_ids(6), [0; 0]);
}

#[test]
fn one_source_for_each_parent() {
    let CopyTraceStart::RelatedCopies(trace) = diffs_from_copies(file(1, &[3])) else {
        panic!("related copies are needed");
    };
    let mut search = trace.find_diff_sources_from_copies(sample_graph()).unwrap();
    while let Some(id) = search.next_id() {
        let id = id.as_bytes().to_vec();
        let value = if id == [1] || id == [2] {
            Some(file(7, &id))
        } else {
            None
        };
        search.answer(value);
    }
    let mut classification = search.into_classification();
    let mut paths = vec![];
    while let Some(path) = classification.next_path() {
        paths.push(path.clone());
        classification.answer(&Merge::absent());
    }
    assert_eq!(paths, [repo_path("a"), repo_path("b")]);
    let terms = classification.finish();
    let term = terms.as_resolved().unwrap();
    assert_eq!(
        term.sources,
        [
            (
                CopyHistorySource::Rename(repo_path("a")),
                Merge::normal(file(7, &[1]))
            ),
            (
                CopyHistorySource::Rename(repo_path("b")),
                Merge::normal(file(7, &[2]))
            ),
        ]
    );
}

#[test]
fn uses_of_sources() {
    let graph = sample_graph();
    let classify = |after, path: &str, before, value: &MergedTreeValue| {
        assert!(can_classify(&graph, value));
        classify_source(&graph, &copy_id(after), repo_path(path), &copy_id(before), value)
    };
    let absent = Merge::absent();
    // It is the same file at its own path.
    assert_eq!(classify(4, "d", 3, &absent), CopyHistorySource::Normal);
    // The source is gone, or something else is there.
    assert_eq!(
        classify(4, "c", 3, &absent),
        CopyHistorySource::Rename(repo_path("c"))
    );
    assert_eq!(
        classify(4, "c", 3, &Merge::normal(file(1, &[6]))),
        CopyHistorySource::Rename(repo_path("c"))
    );
    // The source is still there.
    assert_eq!(
        classify(4, "c", 3, &Merge::normal(file(1, &[3]))),
        CopyHistorySource::Copy(repo_path("c"))
    );
    assert_eq!(
        classify(4, "c", 3, &Merge::normal(file(1, &[1]))),
        CopyHistorySource::Copy(repo_path("c"))
    );
    // Conflicts in which the copy IDs agree can be told apart.
    let conflict = Merge::from_vec(vec![
        Some(file(1, &[3])),
        Some(file(2, &[3])),
        Some(file(3, &[3])),
    ]);
    assert_eq!(
        classify(4, "c", 3, &conflict),
        CopyHistorySource::Copy(repo_path("c"))
    );
    let conflict = Merge::from_vec(vec![
        Some(file(1, &[3])),
        Some(file(2, &[1])),
        Some(file(3, &[2])),
    ]);
    assert!(!can_classify(&graph, &conflict));
    assert!(!can_classify(&graph, &Merge::normal(file(1, &[9]))));
    let symlink = TreeValue::Symlink(SymlinkId::new(vec![1]));
    assert!(!can_classify(&graph, &Merge::normal(symlink)));
}

#[test]
fn groups_of_paths() {
    let mut groups = PathGroups::new();
    let paths: Vec<RepoPathBuf> = ["a", "b", "c", "d", "e"]
        .iter()
        .map(|path| repo_path(path))
        .collect();
    for path in &paths {
        assert_eq!(groups.find(path), path);
    }
    groups.union(&paths[0], &paths[1]);
    groups.union(&paths[2], &paths[3]);
    assert_eq!(groups.find(&paths[0]), groups.find(&paths[1]));
    assert_ne!(groups.find(&paths[0]), groups.find(&paths[2]));
    groups.union(&paths[1], &paths[2]);
    groups.union(&paths[0], &paths[3]);
    for path in &paths[..4] {
        assert_eq!(groups.find(path), groups.find(&paths[0]));
    }
    assert_ne!(groups.find(&paths[4]), groups.find(&paths[0]));
}

#[test]
fn terms_to_find_ancestors_in() {
    let mut first = PathSet::new();
    first.insert(repo_path("a"));
    let mut second = PathSet::new();
    second.insert(repo_path("a"));
    second.insert(repo_path("b"));
    let presence = vec![PathSet::new(), first, second];
    let term = |path: &str| match begin_ancestor_paths(&presence, &repo_path(path)) {
        AncestorStart::Value(term) => Some(term),
        AncestorStart::Done(paths) => {
            assert!(paths.is_empty());
            None
        }
    };
    assert_eq!(term("a"), Some(1));
    assert_eq!(term("b"), Some(2));
    assert_eq!(term("c"), None);
}

#[test]
fn ids_to_trace() {
    let id = |value| match ancestors_of_value(&value) {
        AncestorSource::Copies(id) => Some(id),
        AncestorSource::Done(paths) => {
            assert!(paths.is_empty());
            None
        }
    };
    assert_eq!(id(Merge::normal(file(1, &[3]))), Some(copy_id(3)));
    assert_eq!(id(Merge::normal(file(1, &[]))), None);
    assert_eq!(id(Merge::absent()), None);
    let conflict = Merge::from_vec(vec![Some(file(1, &[3])), None, Some(file(2, &[3]))]);
    assert_eq!(id(conflict), None);
}

#[test]
fn ancestor_paths_in_terms() {
    // The files of 3 and 1 are in the last of three terms.
    let mut search = get_ancestor_paths(sample_graph(), &copy_id(5), 3);
    let mut asked = vec![];
    while let Some((term, id)) = search.next_file() {
        let id = id.as_bytes()[0];
        asked.push((term, id));
        search.answer(term == 2 && id != 2);
    }
    let all: Vec<(usize, u8)> = [3, 2, 1]
        .iter()
        .flat_map(|&id| [(0, id), (1, id), (2, id)])
        .collect();
    assert_eq!(asked, all);
    assert_eq!(search.into_paths(), [repo_path("c"), repo_path("a")]);
}
