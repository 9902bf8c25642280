use jj_lib::ancestor_paths::AncestorSource;
use jj_lib::ancestor_paths::AncestorStart;
use jj_lib::ancestor_paths::ancestors_of_value;
use jj_lib::ancestor_paths::begin_ancestor_paths;
use jj_lib::ancestor_paths::get_ancestor_paths;
use jj_lib::backend;
use jj_lib::backend::BackendError;
use jj_lib::backend::BackendResult;
use jj_lib::backend::CommitId;
use jj_lib::backend::CopyHistory;
use jj_lib::backend::CopyId;
use jj_lib::backend::CopyRecord;
use jj_lib::backend::FileId;
use jj_lib::backend::MergedTreeValue;
use jj_lib::backend::RelatedCopy;
use jj_lib::backend::SymlinkId;
use jj_lib::backend::TreeId;
use jj_lib::backend::TreeValue;
use jj_lib::conflict_labels::ConflictLabels;
use jj_lib::copies::CopiesTreeDiffEntry;
use jj_lib::copies::CopiesTreeDiffEntryPath;
use jj_lib::copies::CopiesTreeDiffStep;
use jj_lib::copies::CopiesTreeDiffStream;
use jj_lib::copies::CopyGraph;
use jj_lib::copies::CopyHistoryDiffTerm;
use jj_lib::copies::CopyHistorySource;
use jj_lib::copies::CopyHistoryTreeDiffEntry;
use jj_lib::copies::CopyOperation;
use jj_lib::copies::CopyRecords;
use jj_lib::copies::RenameMap;
use jj_lib::copies::compute_rename_map;
use jj_lib::copy_history_stream::CopyHistoryPoll;
use jj_lib::copy_order::has_topo_order;
use jj_lib::copy_trace::CopyTraceStart;
use jj_lib::copy_trace::can_classify;
use jj_lib::copy_trace::diffs_from_copies;
use jj_lib::diff_adapters::DiffStreamForFileSystem;
use jj_lib::diff_adapters::without_trees;
use jj_lib::matchers::EverythingMatcher;
use jj_lib::matchers::Matcher;
use jj_lib::matchers::Visit;
use jj_lib::merge::Diff;
use jj_lib::merge::Merge;
use jj_lib::merge::SameChange;
use jj_lib::merged_tree::MergedTree;
use jj_lib::merged_tree::TreeDiffEntry;
use jj_lib::merged_tree::TreeDiffIterator;
use jj_lib::merged_tree::TreeDiffStreamImpl;
use jj_lib::merged_tree::TreeEntriesIterator;
use jj_lib::path_lookup::PathLookupStep;
use jj_lib::path_map::PathSet;
use jj_lib::presence_fill::RenameScanEnd;
use jj_lib::rename_scan::RenameMapStart;
use jj_lib::repo_path::RepoPathBuf;
use jj_lib::repo_path::RepoPathComponentBuf;
use jj_lib::store::MergeOptions;
use jj_lib::store::Store;
use jj_lib::tree::Tree;
use jj_lib::tree_diff::TreeDiffStep;
use jj_lib::tree_diff_stream::TreeDiffPoll;
use jj_lib::tree_diff_stream::TreeDiffSource;
use jj_lib::tree_read::TreesRequest;
use jj_lib::tree_walk::TreeEntriesStep;
use std::cell::RefCell;
use std::collections::BTreeMap;
use std::collections::BTreeSet;
use std::sync::Arc;

// A repository in memory.

type TestResult = Result<(), BackendError>;

#[derive(Clone, Debug, PartialEq, Eq)]
enum Node {
    File(Vec<u8>, Vec<u8>),
    Symlink(Vec<u8>),
    Tree(Vec<u8>),
}

#[derive(Default)]
struct Data {
    trees: Vec<BTreeMap<String, Node>>,
    copies: Vec<CopyHistory>,
    missing_trees: BTreeSet<Vec<u8>>,
    no_copies: bool,
}

struct TestRepo {
    store: Arc<Store>,
    data: RefCell<Data>,
}

fn not_found(object_type: &str, id: &[u8]) -> BackendError {
    BackendError::ObjectNotFound {
        object_type: object_type.to_owned(),
        hash: format!("{id:?}"),
        source: "not found".to_owned(),
    }
}

fn copy_id_at(index: usize) -> CopyId {
    CopyId::new(vec![255 - index as u8])
}

fn to_value(node: &Node) -> TreeValue {
    match node {
        Node::File(id, copy_id) => TreeValue::File {
            id: FileId::new(id.clone()),
            executable: false,
            copy_id: CopyId::new(copy_id.clone()),
        },
        Node::Symlink(id) => TreeValue::Symlink(SymlinkId::new(id.clone())),
        Node::Tree(id) => TreeValue::Tree(TreeId::new(id.clone())),
    }
}

fn to_node(value: &TreeValue) -> Node {
    match value {
        TreeValue::File { id, copy_id, .. } => {
            Node::File(id.as_bytes().to_vec(), copy_id.as_bytes().to_vec())
        }
        TreeValue::Symlink(id) => Node::Symlink(id.as_bytes().to_vec()),
        TreeValue::Tree(id) => Node::Tree(id.as_bytes().to_vec()),
        TreeValue::GitSubmodule(_) => panic!("no submodules here"),
    }
}

impl TestRepo {
    fn init() -> Self {
        Self::with_concurrency(1)
    }

    fn with_concurrency(concurrency: usize) -> Self {
        let options = MergeOptions {
            same_change: SameChange::Accept,
        };
        Self {
            store: Arc::new(Store::new(options, concurrency)),
            data: RefCell::new(Data::default()),
        }
    }

    fn store(&self) -> &Arc<Store> {
        &self.store
    }

    fn write_tree(&self, entries: BTreeMap<String, Node>) -> TreeId {
        let mut data = self.data.borrow_mut();
        let index = match data.trees.iter().position(|tree| *tree == entries) {
            Some(index) => index,
            None => {
                data.trees.push(entries);
                data.trees.len() - 1
            }
        };
        TreeId::new(vec![(index / 256) as u8, (index % 256) as u8])
    }

    fn tree_entries(&self, id: &TreeId) -> Option<BTreeMap<String, Node>> {
        let bytes = id.as_bytes();
        let data = self.data.borrow();
        if data.missing_trees.contains(bytes) {
            return None;
        }
        data.trees
            .get(bytes[0] as usize * 256 + bytes[1] as usize)
            .cloned()
    }

    fn read_tree(&self, id: &TreeId) -> BackendResult<backend::Tree> {
        let entries = self
            .tree_entries(id)
            .ok_or_else(|| not_found("tree", id.as_bytes()))?;
        let entries = entries
            .iter()
            .map(|(name, node)| (component(name), to_value(node)))
            .collect();
        Ok(backend::Tree::from_sorted_entries(entries))
    }

    fn write_copy(&self, history: &CopyHistory) -> CopyId {
        let mut data = self.data.borrow_mut();
        let index = match data.copies.iter().position(|copy| copy == history) {
            Some(index) => index,
            None => {
                data.copies.push(history.clone());
                data.copies.len() - 1
            }
        };
        copy_id_at(index)
    }

    fn read_copy(&self, id: &CopyId) -> BackendResult<CopyHistory> {
        let data = self.data.borrow();
        (0..data.copies.len())
            .find(|&index| copy_id_at(index) == *id)
            .map(|index| data.copies[index].clone())
            .ok_or_else(|| not_found("copy", id.as_bytes()))
    }

    /// All copies, children before parents.
    fn get_related_copies(&self, _id: &CopyId) -> BackendResult<Vec<RelatedCopy>> {
        let data = self.data.borrow();
        if data.no_copies {
            return Err(BackendError::Unsupported("no copies".to_owned()));
        }
        Ok((0..data.copies.len())
            .rev()
            .map(|index| RelatedCopy {
                id: copy_id_at(index),
                history: data.copies[index].clone(),
            })
            .collect())
    }

    fn write_paths(&self, paths: &[(&RepoPathBuf, Node)]) -> TreeId {
        let mut entries = BTreeMap::new();
        let mut dirs: BTreeMap<String, Vec<(RepoPathBuf, Node)>> = BTreeMap::new();
        for (path, node) in paths {
            let components = path.components();
            let name = components[0].as_internal_str().to_owned();
            if components.len() == 1 {
                entries.insert(name, node.clone());
            } else {
                let rest = components[1..].iter().map(copy_component).collect();
                dirs.entry(name)
                    .or_default()
                    .push((RepoPathBuf::from_components(rest), node.clone()));
            }
        }
        for (name, paths) in dirs {
            let paths: Vec<_> = paths
                .iter()
                .map(|(path, node)| (path, node.clone()))
                .collect();
            let id = self.write_paths(&paths);
            entries.insert(name, Node::Tree(id.as_bytes().to_vec()));
        }
        self.write_tree(entries)
    }

    fn read(&self, request: &TreesRequest) -> BackendResult<Merge<Tree>> {
        let answers = request
            .ids()
            .as_slice()
            .iter()
            .map(|id| id.as_ref().map(|id| self.read_tree(id)))
            .collect();
        request.finish(&self.store, answers)
    }

    fn path_value(&self, tree: &MergedTree, path: &RepoPathBuf) -> BackendResult<MergedTreeValue> {
        let mut lookup = tree.path_value(path);
        loop {
            match lookup.step() {
                PathLookupStep::Done(value) => return Ok(value),
                PathLookupStep::Read(request) => lookup.resume(&self.read(&request)?),
            }
        }
    }

    fn copy_value(&self, tree: &MergedTree, id: &CopyId) -> BackendResult<Option<TreeValue>> {
        let copy = self.read_copy(id)?;
        let value = self.path_value(tree, &copy.current_path)?;
        Ok(MergedTree::copy_value(id, value))
    }

    fn collect_entries<M: Matcher>(
        &self,
        mut iterator: TreeEntriesIterator<'_, M>,
    ) -> Vec<(RepoPathBuf, BackendResult<MergedTreeValue>)> {
        let mut out = vec![];
        loop {
            match iterator.next() {
                TreeEntriesStep::Entry(path, value) => out.push((path, Ok(value))),
                TreeEntriesStep::Read(request) => {
                    if let Some((path, err)) = iterator.resume(self.read(&request)) {
                        out.push((path, Err(err)));
                    }
                }
                TreeEntriesStep::Done => return out,
            }
        }
    }

    fn run_iterator<M: Matcher>(
        &self,
        mut iterator: TreeDiffIterator<'_, M>,
    ) -> Vec<TreeDiffEntry> {
        let mut out = vec![];
        loop {
            match iterator.next() {
                TreeDiffStep::Entry(entry) => out.push(entry),
                TreeDiffStep::Read(before, after) => {
                    out.extend(iterator.resume(self.read(&before), self.read(&after)));
                }
                TreeDiffStep::Done => return out,
            }
        }
    }

    /// Drives a stream. Of the trees that can be read at the same time, the one
    /// that `pick` chooses is ready first.
    fn run_stream<M: Matcher>(
        &self,
        mut stream: TreeDiffStreamImpl<'_, M>,
        pick: fn(usize) -> usize,
    ) -> Vec<TreeDiffEntry> {
        let mut out = vec![];
        loop {
            match stream.poll_next() {
                TreeDiffPoll::Entry(entry) => out.push(entry),
                TreeDiffPoll::Done => return out,
                TreeDiffPoll::Pending => {
                    let pending = stream.trees_to_poll();
                    let picked = pick(pending.len());
                    let polled = pending
                        .iter()
                        .enumerate()
                        .map(|(i, trees)| {
                            let read = || {
                                let before = self.read(&trees.before)?;
                                let after = self.read(&trees.after)?;
                                Ok((before, after))
                            };
                            let answer = if i == picked { Some(read()) } else { None };
                            (trees.dir.clone(), answer)
                        })
                        .collect();
                    stream.poll_tree_futures(polled);
                }
            }
        }
    }

    fn diff_with_trees<M: Matcher>(
        &self,
        tree1: &MergedTree,
        tree2: &MergedTree,
        matcher: &M,
    ) -> Vec<TreeDiffEntry> {
        match tree1.diff_stream_with_trees(tree2, matcher) {
            TreeDiffSource::Iterator(iterator) => self.run_iterator(iterator),
            TreeDiffSource::Stream(stream) => self.run_stream(stream, |n| n - 1),
        }
    }

    fn diff<M: Matcher>(
        &self,
        tree1: &MergedTree,
        tree2: &MergedTree,
        matcher: &M,
    ) -> Vec<TreeDiffEntry> {
        self.diff_with_trees(tree1, tree2, matcher)
            .into_iter()
            .filter_map(without_trees)
            .collect()
    }

    fn diff_for_file_system<M: Matcher>(
        &self,
        tree1: &MergedTree,
        tree2: &MergedTree,
        matcher: &M,
    ) -> Vec<TreeDiffEntry> {
        let mut out = vec![];
        let mut stream = DiffStreamForFileSystem::new();
        for entry in self.diff_with_trees(tree1, tree2, matcher) {
            assert!(stream.can_take(&entry));
            out.extend(stream.take_entry(entry));
            while stream.has_next_item() {
                out.extend(stream.resume());
            }
        }
        out.extend(stream.finish());
        out
    }

    fn diff_with_copies<M: Matcher>(
        &self,
        tree1: &MergedTree,
        tree2: &MergedTree,
        matcher: &M,
        copy_records: &CopyRecords,
    ) -> Vec<CopiesTreeDiffEntry> {
        let stream = CopiesTreeDiffStream::new(tree1.clone(), tree2.clone(), copy_records);
        let mut out = vec![];
        for entry in self.diff(tree1, tree2, matcher) {
            match stream.take_entry(entry) {
                CopiesTreeDiffStep::Skip => {}
                CopiesTreeDiffStep::Entry(entry) => out.push(entry),
                CopiesTreeDiffStep::Resolve(lookup) => {
                    let source = lookup.source().clone();
                    let before = self.path_value(stream.source_tree(), &source);
                    let after = self.path_value(stream.target_tree(), &source);
                    out.push(lookup.finish(before, after));
                }
            }
        }
        out
    }

    fn trace(
        &self,
        before_tree: &MergedTree,
        after_tree: &MergedTree,
        file: TreeValue,
    ) -> BackendResult<Merge<CopyHistoryDiffTerm>> {
        let trace = match diffs_from_copies(file) {
            CopyTraceStart::Done(result) => return result,
            CopyTraceStart::RelatedCopies(trace) => trace,
        };
        let related = self.get_related_copies(trace.copy_id())?;
        let copy_graph = CopyGraph::from_related_copies(related);
        assert!(has_topo_order(&copy_graph));
        let mut search = trace.find_diff_sources_from_copies(copy_graph)?;
        while let Some(id) = search.next_id() {
            let value = self.copy_value(before_tree, id)?;
            search.answer(value);
        }
        let mut classification = search.into_classification();
        while let Some(path) = classification.next_path() {
            let value = self.path_value(after_tree, path)?;
            assert!(can_classify(classification.copy_graph(), &value));
            classification.answer(&value);
        }
        Ok(classification.finish())
    }

    fn diff_with_copy_history(
        &self,
        tree1: &MergedTree,
        tree2: &MergedTree,
    ) -> Vec<CopyHistoryTreeDiffEntry> {
        let mut diffs = self.diff(tree1, tree2, &EverythingMatcher).into_iter();
        let mut stream = tree1.diff_stream_with_copy_history(tree2);
        let mut out = vec![];
        loop {
            match stream.poll_next() {
                CopyHistoryPoll::Entry(entry) => out.push(entry),
                CopyHistoryPoll::NextDiff => match diffs.next() {
                    Some(diff) => stream.take_diff(diff),
                    None => stream.end_diffs(),
                },
                CopyHistoryPoll::Pending => {
                    // The last one is ready first.
                    let index = (0..stream.queue_len())
                        .rev()
                        .find(|&index| stream.trace_at(index).is_some())
                        .unwrap();
                    let file = stream.trace_at(index).unwrap().clone();
                    let result = self.trace(stream.before_tree(), stream.after_tree(), file);
                    stream.finish_trace(index, result);
                }
                CopyHistoryPoll::Done => return out,
            }
        }
    }

    fn ancestor_paths(
        &self,
        merge: &MergedTree,
        presence: &Vec<PathSet>,
        path: &RepoPathBuf,
    ) -> BackendResult<Vec<RepoPathBuf>> {
        let term = match begin_ancestor_paths(presence, path) {
            AncestorStart::Done(paths) => return Ok(paths),
            AncestorStart::Value(term) => term,
        };
        let value = self.path_value(&merge.term_tree(term), path)?;
        let copy_id = match ancestors_of_value(&value) {
            AncestorSource::Done(paths) => return Ok(paths),
            AncestorSource::Copies(copy_id) => copy_id,
        };
        let related = self.get_related_copies(&copy_id)?;
        let copy_graph = CopyGraph::from_related_copies(related);
        let mut search = get_ancestor_paths(copy_graph, &copy_id, presence.len());
        while let Some((term, id)) = search.next_file() {
            let found = self.copy_value(&merge.term_tree(term), id)?.is_some();
            search.answer(found);
        }
        Ok(search.into_paths())
    }

    fn rename_map(&self, merge: &MergedTree) -> BackendResult<RenameMap> {
        let mut scan = match compute_rename_map(merge) {
            RenameMapStart::Done(map) => return Ok(map),
            RenameMapStart::Scan(scan) => scan,
        };
        while let Some((before, after)) = scan.terms() {
            let entries =
                self.diff_with_copy_history(&merge.term_tree(before), &merge.term_tree(after));
            for entry in entries {
                if let Some(result) = scan.take_entry(entry) {
                    return result;
                }
            }
            scan.end_entries();
        }
        let mut fill = match scan.finish() {
            RenameScanEnd::Done(map) => return Ok(map),
            RenameScanEnd::Fill(fill) => fill,
        };
        while let Some((term, path)) = fill.next_path() {
            let value = self.path_value(&merge.term_tree(term), path)?;
            fill.answer(&value);
        }
        let mut groups = fill.into_groups();
        while let Some(path) = groups.next_path() {
            let path = path.clone();
            let ancestors = self.ancestor_paths(merge, groups.presence(), &path)?;
            groups.answer(ancestors);
        }
        let map = groups.finish();
        for i in 0..map.len() {
            let (path, entry) = map.get_index(i);
            assert!(entry.is_absent() || self.is_aligned(merge, path, entry));
        }
        Ok(map)
    }

    /// Whether an entry of a rename map goes with the trees of the merge.
    fn is_aligned(
        &self,
        merge: &MergedTree,
        path: &RepoPathBuf,
        entry: &Merge<Option<RepoPathBuf>>,
    ) -> bool {
        let present = |term: usize, path: &RepoPathBuf| {
            let value = self.path_value(&merge.term_tree(term), path);
            value.unwrap().is_present()
        };
        let terms = entry.as_slice();
        terms.len() == merge.tree_ids().as_slice().len()
            && (0..terms.len()).step_by(2).any(|term| present(term, path))
            && terms.iter().enumerate().all(|(term, other)| match other {
                Some(other) => present(term, other),
                None => true,
            })
            && terms
                .iter()
                .enumerate()
                .all(|(term, other)| !present(term, path) || other.as_ref() == Some(path))
    }

    /// Resolves what can be resolved in the merge of trees.
    fn merge_trees(&self, ids: Vec<Option<TreeId>>) -> Vec<Option<TreeId>> {
        let merge = Merge::from_vec(ids);
        if let Some(id) = merge.resolve_trivial(SameChange::Accept) {
            return vec![id.clone()];
        }
        let trees: Vec<_> = merge
            .as_slice()
            .iter()
            .map(|id| match id {
                Some(id) => self.tree_entries(id).unwrap(),
                None => BTreeMap::new(),
            })
            .collect();
        let names: BTreeSet<&String> = trees.iter().flat_map(|tree| tree.keys()).collect();
        let mut merged = vec![];
        for name in names {
            let values = trees
                .iter()
                .map(|tree| tree.get(name).map(to_value))
                .collect();
            merged.push((name.clone(), self.merge_values(values)));
        }
        let count = if merged.iter().all(|(_, values)| values.len() == 1) {
            1
        } else {
            trees.len()
        };
        (0..count)
            .map(|i| {
                let entries: BTreeMap<_, _> = merged
                    .iter()
                    .filter_map(|(name, values)| {
                        let value = if values.len() == 1 {
                            &values[0]
                        } else {
                            &values[i]
                        };
                        value.as_ref().map(|value| (name.clone(), to_node(value)))
                    })
                    .collect();
                if entries.is_empty() {
                    None
                } else {
                    Some(self.write_tree(entries))
                }
            })
            .collect()
    }

    fn merge_values(&self, values: Vec<Option<TreeValue>>) -> Vec<Option<TreeValue>> {
        let merge = Merge::from_vec(values);
        if let Some(value) = merge.resolve_trivial(SameChange::Accept) {
            return vec![value.clone()];
        }
        if merge.is_tree() {
            let ids = merge
                .as_slice()
                .iter()
                .map(|value| match value {
                    Some(TreeValue::Tree(id)) => Some(id.clone()),
                    _ => None,
                })
                .collect();
            return self
                .merge_trees(ids)
                .into_iter()
                .map(|id| id.map(TreeValue::Tree))
                .collect();
        }
        let simplified = merge.simplify();
        let contents: Vec<_> = simplified
            .as_slice()
            .iter()
            .map(|value| match value {
                Some(TreeValue::File { id, .. }) => {
                    Some(String::from_utf8(id.as_bytes().to_vec()).unwrap())
                }
                _ => None,
            })
            .collect();
        if let [Some(left), Some(base), Some(right)] = contents.as_slice() {
            if let Some(text) = merge_text(left, base, right) {
                let Some(TreeValue::File { copy_id, .. }) = simplified.first() else {
                    panic!("not a file");
                };
                return vec![Some(TreeValue::File {
                    id: FileId::new(text.into_bytes()),
                    executable: false,
                    copy_id: copy_id.clone(),
                })];
            }
        }
        merge.into_vec()
    }

    fn merge_contents(&self, ids: &Merge<TreeId>) -> Merge<TreeId> {
        let ids = ids.as_slice().iter().map(|id| Some(id.clone())).collect();
        let merged = self
            .merge_trees(ids)
            .into_iter()
            .map(|id| id.unwrap_or_else(|| self.write_tree(BTreeMap::new())))
            .collect();
        Merge::from_vec(merged)
    }

    fn resolve(&self, tree: MergedTree) -> MergedTree {
        let merged = self.merge_contents(tree.tree_ids());
        let resolved = tree.resolve(merged);
        // Resolving again changes nothing.
        let again = self.merge_contents(resolved.tree_ids());
        assert_tree_eq(&resolved.clone().resolve(again), &resolved);
        resolved
    }

    fn merge(&self, merge: Merge<(MergedTree, String)>) -> MergedTree {
        let terms = merge.as_slice().iter();
        let same_terms = terms.map(|(tree, label)| (tree.clone(), label.clone()));
        let unresolved = MergedTree::merge_no_resolve(Merge::from_vec(same_terms.collect()));
        let tree_merge = MergedTree::merge(merge);
        let merged = self.merge_contents(tree_merge.tree_ids());
        let merged = tree_merge.finish(merged);
        assert_tree_eq(&self.resolve(unresolved), &merged);
        merged
    }
}

/// The lines that both texts have, as pairs of their places.
fn common_lines(a: &[&str], b: &[&str]) -> Vec<(usize, usize)> {
    let mut len = vec![vec![0; b.len() + 1]; a.len() + 1];
    for i in (0..a.len()).rev() {
        for j in (0..b.len()).rev() {
            len[i][j] = if a[i] == b[j] {
                len[i + 1][j + 1] + 1
            } else {
                len[i + 1][j].max(len[i][j + 1])
            };
        }
    }
    let (mut i, mut j) = (0, 0);
    let mut out = vec![];
    while i < a.len() && j < b.len() {
        if a[i] == b[j] {
            out.push((i, j));
            i += 1;
            j += 1;
        } else if len[i + 1][j] >= len[i][j + 1] {
            i += 1;
        } else {
            j += 1;
        }
    }
    out
}

fn merge_text(left: &str, base: &str, right: &str) -> Option<String> {
    let left: Vec<&str> = left.split_inclusive('\n').collect();
    let base: Vec<&str> = base.split_inclusive('\n').collect();
    let right: Vec<&str> = right.split_inclusive('\n').collect();
    let in_left: BTreeMap<_, _> = common_lines(&base, &left).into_iter().collect();
    let in_right: BTreeMap<_, _> = common_lines(&base, &right).into_iter().collect();
    let mut stable: Vec<(usize, usize, usize)> = (0..base.len())
        .filter_map(|i| Some((i, *in_left.get(&i)?, *in_right.get(&i)?)))
        .collect();
    stable.push((base.len(), left.len(), right.len()));
    let (mut i, mut l, mut r) = (0, 0, 0);
    let mut out = String::new();
    for (next_i, next_l, next_r) in stable {
        let hunk = Merge::from_vec(vec![
            left[l..next_l].concat(),
            base[i..next_i].concat(),
            right[r..next_r].concat(),
        ]);
        out.push_str(hunk.resolve_trivial(SameChange::Accept)?);
        if next_i < base.len() {
            out.push_str(base[next_i]);
        }
        (i, l, r) = (next_i + 1, next_l + 1, next_r + 1);
    }
    Some(out)
}

fn component(name: &str) -> RepoPathComponentBuf {
    RepoPathComponentBuf::new(name.to_owned()).unwrap()
}

fn copy_component(name: &RepoPathComponentBuf) -> RepoPathComponentBuf {
    component(name.as_internal_str())
}

fn repo_path(path: &str) -> RepoPathBuf {
    RepoPathBuf::from_components(path.split('/').map(component).collect())
}

struct SingleTree<'a> {
    repo: &'a TestRepo,
    id: TreeId,
}

impl SingleTree<'_> {
    fn id(&self) -> &TreeId {
        &self.id
    }

    fn path_value(&self, path: &RepoPathBuf) -> Option<TreeValue> {
        let tree = MergedTree::resolved(self.repo.store().clone(), self.id.clone());
        self.repo
            .path_value(&tree, path)
            .unwrap()
            .into_resolved()
            .unwrap()
    }
}

fn file_node(content: &str, copy_id: &CopyId) -> Node {
    Node::File(content.as_bytes().to_vec(), copy_id.as_bytes().to_vec())
}

fn create_single_tree<'a>(repo: &'a TestRepo, files: &[(&RepoPathBuf, &str)]) -> SingleTree<'a> {
    let nodes: Vec<_> = files
        .iter()
        .map(|(path, content)| (*path, file_node(content, &CopyId::placeholder())))
        .collect();
    let id = repo.write_paths(&nodes);
    SingleTree { repo, id }
}

fn create_tree(repo: &TestRepo, files: &[(&RepoPathBuf, &str)]) -> MergedTree {
    let tree = create_single_tree(repo, files);
    MergedTree::resolved(repo.store().clone(), tree.id)
}

fn create_tree_with_copy_id(
    repo: &TestRepo,
    files: &[(&RepoPathBuf, &str, &CopyId)],
) -> MergedTree {
    let nodes: Vec<_> = files
        .iter()
        .map(|(path, content, copy_id)| (*path, file_node(content, copy_id)))
        .collect();
    MergedTree::resolved(repo.store().clone(), repo.write_paths(&nodes))
}

type Histories = Vec<(RepoPathBuf, CopyHistory)>;

fn write_copy_histories(
    repo: &TestRepo,
    paths: &[(&RepoPathBuf, Vec<&RepoPathBuf>)],
) -> Histories {
    let mut histories: Histories = vec![];
    for (path, parents) in paths {
        let parents = parents
            .iter()
            .map(|parent| repo.write_copy(history_of(&histories, parent)))
            .collect();
        let history = CopyHistory {
            current_path: (*path).clone(),
            parents,
            salt: vec![],
        };
        repo.write_copy(&history);
        histories.push(((*path).clone(), history));
    }
    histories
}

fn history_of<'a>(histories: &'a Histories, path: &RepoPathBuf) -> &'a CopyHistory {
    &histories.iter().find(|(p, _)| p == path).unwrap().1
}

fn create_tree_with_copy_history(
    repo: &TestRepo,
    histories: &Histories,
    files: &[(&RepoPathBuf, &str)],
) -> MergedTree {
    let nodes: Vec<_> = files
        .iter()
        .map(|(path, content)| {
            let copy_id = repo.write_copy(history_of(histories, path));
            (*path, file_node(content, &copy_id))
        })
        .collect();
    MergedTree::resolved(repo.store().clone(), repo.write_paths(&nodes))
}

fn assert_tree_eq(left: &MergedTree, right: &MergedTree) {
    assert_eq!(left.tree_ids(), right.tree_ids());
    assert_eq!(left.labels(), right.labels());
}

fn labels(labels: &[&str]) -> ConflictLabels {
    ConflictLabels::from_vec(labels.iter().map(|&label| label.to_owned()).collect())
}

fn from_removes_adds<T>(removes: Vec<T>, adds: Vec<T>) -> Merge<T> {
    let mut terms = vec![];
    let mut removes = removes.into_iter();
    for (i, add) in adds.into_iter().enumerate() {
        if i > 0 {
            terms.push(removes.next().unwrap());
        }
        terms.push(add);
    }
    assert!(removes.next().is_none());
    Merge::from_vec(terms)
}

struct FilesMatcher {
    files: Vec<RepoPathBuf>,
}

impl FilesMatcher {
    fn new<const N: usize>(files: [&RepoPathBuf; N]) -> Self {
        Self {
            files: files.iter().map(|&file| file.clone()).collect(),
        }
    }
}

impl Matcher for FilesMatcher {
    fn matches(&self, path: &RepoPathBuf) -> bool {
        self.files.contains(path)
    }

    fn visit(&self, path: &RepoPathBuf) -> Visit {
        if self
            .files
            .iter()
            .any(|file| file != path && file.starts_with(path))
        {
            Visit::Specific
        } else {
            Visit::Nothing
        }
    }
}

struct PrefixMatcher {
    prefixes: Vec<RepoPathBuf>,
}

impl PrefixMatcher {
    fn new<const N: usize>(prefixes: [&RepoPathBuf; N]) -> Self {
        Self {
            prefixes: prefixes.iter().map(|&prefix| prefix.clone()).collect(),
        }
    }
}

impl Matcher for PrefixMatcher {
    fn matches(&self, path: &RepoPathBuf) -> bool {
        self.prefixes.iter().any(|prefix| path.starts_with(prefix))
    }

    fn visit(&self, path: &RepoPathBuf) -> Visit {
        if self.matches(path) {
            Visit::AllRecursively
        } else if self.prefixes.iter().any(|prefix| prefix.starts_with(path)) {
            Visit::Specific
        } else {
            Visit::Nothing
        }
    }
}

/// Selects directories with the given name and everything in them.
struct DirNameMatcher {
    name: RepoPathComponentBuf,
}

impl Matcher for DirNameMatcher {
    fn matches(&self, path: &RepoPathBuf) -> bool {
        path.components().contains(&self.name)
    }

    fn visit(&self, path: &RepoPathBuf) -> Visit {
        if self.matches(path) {
            Visit::AllRecursively
        } else {
            Visit::Specific
        }
    }
}

type DiffTuple = (RepoPathBuf, (MergedTreeValue, MergedTreeValue));

fn diff_entry_tuple(diff: TreeDiffEntry) -> DiffTuple {
    let values = diff.values.unwrap();
    (diff.path, (values.before, values.after))
}

fn diff_tuples<M: Matcher>(
    repo: &TestRepo,
    tree1: &MergedTree,
    tree2: &MergedTree,
    matcher: &M,
) -> Vec<DiffTuple> {
    repo.diff(tree1, tree2, matcher)
        .into_iter()
        .map(diff_entry_tuple)
        .collect()
}

fn diff_with_trees_tuples<M: Matcher>(
    repo: &TestRepo,
    tree1: &MergedTree,
    tree2: &MergedTree,
    matcher: &M,
) -> Vec<DiffTuple> {
    repo.diff_with_trees(tree1, tree2, matcher)
        .into_iter()
        .map(diff_entry_tuple)
        .collect()
}

fn diff_stream_equals_iter<M: Matcher>(
    repo: &TestRepo,
    tree1: &MergedTree,
    tree2: &MergedTree,
    matcher: &M,
) {
    let iter_diff: Vec<_> = repo
        .run_iterator(TreeDiffIterator::new(tree1, tree2, matcher))
        .into_iter()
        .map(diff_entry_tuple)
        .collect();
    let max_concurrent_reads = 10;
    let picks: [fn(usize) -> usize; 3] = [|_| 0, |n| n - 1, |n| n / 2];
    for pick in picks {
        let stream = TreeDiffStreamImpl::new(tree1, tree2, matcher, max_concurrent_reads);
        let stream_diff: Vec<_> = repo
            .run_stream(stream, pick)
            .into_iter()
            .map(diff_entry_tuple)
            .collect();
        assert_eq!(stream_diff, iter_diff);
    }
}

#[test]
fn test_path_value_and_entries() -> TestResult {
    let test_repo = TestRepo::init();
    let repo = &test_repo;

    // Create a MergedTree
    let resolved_file_path = &repo_path("dir1/subdir/resolved");
    let resolved_dir_path = &resolved_file_path.parent().unwrap();
    let conflicted_file_path = &repo_path("dir2/conflicted");
    let missing_path = &repo_path("dir2/missing_file");
    let modify_delete_path = &repo_path("dir2/modify_delete");
    let file_dir_conflict_path = &repo_path("file_dir");
    let file_dir_conflict_sub_path = &repo_path("file_dir/file");
    let tree1 = create_single_tree(
        repo,
        &[
            (resolved_file_path, "unchanged"),
            (conflicted_file_path, "1"),
            (modify_delete_path, "1"),
            (file_dir_conflict_path, "1"),
        ],
    );
    let tree2 = create_single_tree(
        repo,
        &[
            (resolved_file_path, "unchanged"),
            (conflicted_file_path, "2"),
            (modify_delete_path, "2"),
            (file_dir_conflict_path, "2"),
        ],
    );
    let tree3 = create_single_tree(
        repo,
        &[
            (resolved_file_path, "unchanged"),
            (conflicted_file_path, "3"),
            // No modify_delete_path in this tree
            (file_dir_conflict_sub_path, "1"),
        ],
    );
    let merged_tree = MergedTree::new(
        repo.store().clone(),
        Merge::from_vec(vec![
            tree2.id().clone(),
            tree1.id().clone(),
            tree3.id().clone(),
        ]),
        labels(&["tree 2", "tree 1", "tree 3"]),
    );

    // Get the root tree
    assert_eq!(
        repo.path_value(&merged_tree, &RepoPathBuf::root())?,
        from_removes_adds(
            vec![Some(TreeValue::Tree(tree1.id().clone()))],
            vec![
                Some(TreeValue::Tree(tree2.id().clone())),
                Some(TreeValue::Tree(tree3.id().clone())),
            ]
        )
    );
    // Get file path without conflict
    assert_eq!(
        repo.path_value(&merged_tree, resolved_file_path)?,
        Merge::resolved(tree1.path_value(resolved_file_path)),
    );
    // Get directory path without conflict
    assert_eq!(
        repo.path_value(&merged_tree, resolved_dir_path)?,
        Merge::resolved(tree1.path_value(resolved_dir_path)),
    );
    // Get missing path
    assert_eq!(
        repo.path_value(&merged_tree, missing_path)?,
        Merge::absent()
    );
    // Get modify/delete conflict (some None values)
    assert_eq!(
        repo.path_value(&merged_tree, modify_delete_path)?,
        from_removes_adds(
            vec![tree1.path_value(modify_delete_path)],
            vec![tree2.path_value(modify_delete_path), None]
        ),
    );
    // Get file/dir conflict path
    assert_eq!(
        repo.path_value(&merged_tree, file_dir_conflict_path)?,
        from_removes_adds(
            vec![tree1.path_value(file_dir_conflict_path)],
            vec![
                tree2.path_value(file_dir_conflict_path),
                tree3.path_value(file_dir_conflict_path)
            ]
        ),
    );
    // Get file inside file/dir conflict
    // There is a conflict in the parent directory, so it is considered to not be a
    // directory in the merged tree, making the file hidden until the directory
    // conflict has been resolved.
    assert_eq!(
        repo.path_value(&merged_tree, file_dir_conflict_sub_path)?,
        Merge::absent(),
    );

    // Test entries()
    let actual_entries: Vec<_> = repo
        .collect_entries(merged_tree.entries())
        .into_iter()
        .map(|(path, result)| (path, result.unwrap()))
        .collect();
    // missing_path, resolved_dir_path, and file_dir_conflict_sub_path should not
    // appear
    let expected_entries: Vec<_> = [
        resolved_file_path,
        conflicted_file_path,
        modify_delete_path,
        file_dir_conflict_path,
    ]
    .iter()
    .map(|&path| {
        (
            path.clone(),
            repo.path_value(&merged_tree, path).unwrap(),
        )
    })
    .collect();
    assert_eq!(actual_entries, expected_entries);

    let actual_entries: Vec<_> = repo
        .collect_entries(merged_tree.entries_matching(&FilesMatcher::new([
            resolved_file_path,
            modify_delete_path,
            file_dir_conflict_sub_path,
        ])))
        .into_iter()
        .map(|(path, result)| (path, result.unwrap()))
        .collect();
    let expected_entries: Vec<_> = [resolved_file_path, modify_delete_path]
        .iter()
        .map(|&path| {
            (
                path.clone(),
                repo.path_value(&merged_tree, path).unwrap(),
            )
        })
        .collect();
    assert_eq!(actual_entries, expected_entries);
    Ok(())
}

#[test]
fn test_resolve_success() -> TestResult {
    let test_repo = TestRepo::init();
    let repo = &test_repo;

    let unchanged_path = &repo_path("unchanged");
    let trivial_file_path = &repo_path("trivial-file");
    let trivial_hunk_path = &repo_path("trivial-hunk");
    let both_added_dir_path = &repo_path("added-dir");
    let both_added_dir_file1_path = &both_added_dir_path.join(&component("file1"));
    let both_added_dir_file2_path = &both_added_dir_path.join(&component("file2"));
    let emptied_dir_path = &repo_path("to-become-empty");
    let emptied_dir_file1_path = &emptied_dir_path.join(&component("file1"));
    let emptied_dir_file2_path = &emptied_dir_path.join(&component("file2"));
    let base1 = create_single_tree(
        repo,
        &[
            (unchanged_path, "unchanged"),
            (trivial_file_path, "base1"),
            (trivial_hunk_path, "line1\nline2\nline3\n"),
            (emptied_dir_file1_path, "base1"),
            (emptied_dir_file2_path, "base1"),
        ],
    );
    let side1 = create_single_tree(
        repo,
        &[
            (unchanged_path, "unchanged"),
            (trivial_file_path, "base1"),
            (trivial_hunk_path, "line1 side1\nline2\nline3\n"),
            (both_added_dir_file1_path, "side1"),
            (emptied_dir_file2_path, "base1"),
        ],
    );
    let side2 = create_single_tree(
        repo,
        &[
            (unchanged_path, "unchanged"),
            (trivial_file_path, "side2"),
            (trivial_hunk_path, "line1\nline2\nline3 side2\n"),
            (both_added_dir_file2_path, "side2"),
            (emptied_dir_file1_path, "base1"),
        ],
    );
    let expected = create_tree(
        repo,
        &[
            (unchanged_path, "unchanged"),
            (trivial_file_path, "side2"),
            (trivial_hunk_path, "line1 side1\nline2\nline3 side2\n"),
            (both_added_dir_file1_path, "side1"),
            (both_added_dir_file2_path, "side2"),
        ],
    );

    let tree = MergedTree::new(
        repo.store().clone(),
        Merge::from_vec(vec![
            side1.id().clone(),
            base1.id().clone(),
            side2.id().clone(),
        ]),
        labels(&["left", "base", "right"]),
    );
    let resolved_tree = repo.resolve(tree);
    assert!(resolved_tree.tree_ids().is_resolved());
    assert_tree_eq(&resolved_tree, &expected);
    Ok(())
}

#[test]
fn test_resolve_root_becomes_empty() -> TestResult {
    let test_repo = TestRepo::init();
    let repo = &test_repo;

    let path1 = &repo_path("dir1/file");
    let path2 = &repo_path("dir2/file");
    let base1 = create_single_tree(repo, &[(path1, "base1"), (path2, "base1")]);
    let side1 = create_single_tree(repo, &[(path2, "base1")]);
    let side2 = create_single_tree(repo, &[(path1, "base1")]);

    let tree = MergedTree::new(
        repo.store().clone(),
        Merge::from_vec(vec![
            side1.id().clone(),
            base1.id().clone(),
            side2.id().clone(),
        ]),
        labels(&["side 1", "base 1", "side 2"]),
    );
    let resolved = repo.resolve(tree);
    assert_tree_eq(&resolved, &create_tree(repo, &[]));
    Ok(())
}

#[test]
fn test_resolve_with_conflict() -> TestResult {
    let test_repo = TestRepo::init();
    let repo = &test_repo;

    // The trivial conflict should be resolved but the non-trivial should not (and
    // cannot)
    let trivial_path = &repo_path("dir1/trivial");
    let conflict_path = &repo_path("dir2/file_conflict");

    // We start with a 3-sided conflict:
    let side1 = create_single_tree(repo, &[(trivial_path, "side1"), (conflict_path, "base")]);
    let base1 = create_single_tree(repo, &[(trivial_path, "base"), (conflict_path, "base")]);
    let side2 = create_single_tree(repo, &[(trivial_path, "base"), (conflict_path, "side2")]);
    let base2 = create_single_tree(repo, &[(trivial_path, "base"), (conflict_path, "base")]);
    let side3 = create_single_tree(repo, &[(trivial_path, "base"), (conflict_path, "side3")]);

    // This should be reduced to a 2-sided conflict after "trivial" is resolved:
    let expected_side1 =
        create_single_tree(repo, &[(trivial_path, "side1"), (conflict_path, "side2")]);
    let expected_base1 =
        create_single_tree(repo, &[(trivial_path, "side1"), (conflict_path, "base")]);
    let expected_side2 =
        create_single_tree(repo, &[(trivial_path, "side1"), (conflict_path, "side3")]);

    let tree = MergedTree::new(
        repo.store().clone(),
        Merge::from_vec(vec![
            side1.id().clone(),
            base1.id().clone(),
            side2.id().clone(),
            base2.id().clone(),
            side3.id().clone(),
        ]),
        labels(&["side 1", "base 1", "side 2", "base 2", "side 3"]),
    );
    let resolved_tree = repo.resolve(tree);
    assert_tree_eq(
        &resolved_tree,
        &MergedTree::new(
            repo.store().clone(),
            Merge::from_vec(vec![
                expected_side1.id().clone(),
                expected_base1.id().clone(),
                expected_side2.id().clone(),
            ]),
            labels(&["side 2", "base 2", "side 3"]),
        ),
    );
    Ok(())
}

#[test]
fn test_resolve_with_conflict_containing_empty_subtree() -> TestResult {
    let test_repo = TestRepo::init();
    let repo = &test_repo;

    // Since "dir" in side2 is absent, side2's root tree should be empty as
    // well. If it were added to the root tree, side2.id() would differ.
    let conflict_path = &repo_path("dir/file_conflict");
    let base1 = create_single_tree(repo, &[(conflict_path, "base1")]);
    let side1 = create_single_tree(repo, &[(conflict_path, "side1")]);
    let side2 = create_single_tree(repo, &[]);

    let tree = MergedTree::new(
        repo.store().clone(),
        Merge::from_vec(vec![
            side1.id().clone(),
            base1.id().clone(),
            side2.id().clone(),
        ]),
        labels(&["left", "base", "right"]),
    );
    let resolved_tree = repo.resolve(tree.clone());
    assert_tree_eq(&resolved_tree, &tree);
    Ok(())
}

#[test]
fn test_conflict_iterator() -> TestResult {
    let test_repo = TestRepo::init();
    let repo = &test_repo;

    let unchanged_path = &repo_path("dir/subdir/unchanged");
    let trivial_path = &repo_path("dir/subdir/trivial");
    let trivial_hunk_path = &repo_path("dir/non_trivial");
    let file_conflict_path = &repo_path("dir/subdir/file_conflict");
    let modify_delete_path = &repo_path("dir/subdir/modify_delete");
    let same_add_path = &repo_path("dir/subdir/same_add");
    let different_add_path = &repo_path("dir/subdir/different_add");
    let dir_file_path = &repo_path("dir/subdir/dir_file");
    let added_dir_path = &repo_path("dir/new_dir");
    let modify_delete_dir_path = &repo_path("dir/modify_delete_dir");
    let base1 = create_single_tree(
        repo,
        &[
            (unchanged_path, "unchanged"),
            (trivial_path, "base"),
            (trivial_hunk_path, "line1\nline2\nline3\n"),
            (file_conflict_path, "base"),
            (modify_delete_path, "base"),
            // no same_add_path
            // no different_add_path
            (dir_file_path, "base"),
            // no added_dir_path
            (&modify_delete_dir_path.join(&component("base")), "base"),
        ],
    );
    let side1 = create_single_tree(
        repo,
        &[
            (unchanged_path, "unchanged"),
            (trivial_path, "base"),
            (file_conflict_path, "side1"),
            (trivial_hunk_path, "line1 side1\nline2\nline3\n"),
            (modify_delete_path, "modified"),
            (same_add_path, "same"),
            (different_add_path, "side1"),
            (dir_file_path, "side1"),
            (&added_dir_path.join(&component("side1")), "side1"),
            (&modify_delete_dir_path.join(&component("side1")), "side1"),
        ],
    );
    let side2 = create_single_tree(
        repo,
        &[
            (unchanged_path, "unchanged"),
            (trivial_path, "side2"),
            (file_conflict_path, "side2"),
            (trivial_hunk_path, "line1\nline2\nline3 side2\n"),
            // no modify_delete_path
            (same_add_path, "same"),
            (different_add_path, "side2"),
            (&dir_file_path.join(&component("dir")), "new"),
            (&added_dir_path.join(&component("side2")), "side2"),
            // no modify_delete_dir_path
        ],
    );

    let tree = MergedTree::new(
        repo.store().clone(),
        Merge::from_vec(vec![
            side1.id().clone(),
            base1.id().clone(),
            side2.id().clone(),
        ]),
        labels(&["side 1", "base 1", "side 2"]),
    );
    let conflicts: Vec<_> = repo
        .collect_entries(tree.conflicts())
        .into_iter()
        .map(|(path, conflict)| (path, conflict.unwrap()))
        .collect();
    let conflict_at = |path: &RepoPathBuf| {
        from_removes_adds(
            vec![base1.path_value(path)],
            vec![side1.path_value(path), side2.path_value(path)],
        )
    };
    // We initially also get a conflict in trivial_hunk_path because we had
    // forgotten to resolve conflicts
    assert_eq!(
        conflicts,
        vec![
            (trivial_hunk_path.clone(), conflict_at(trivial_hunk_path)),
            (different_add_path.clone(), conflict_at(different_add_path)),
            (dir_file_path.clone(), conflict_at(dir_file_path)),
            (file_conflict_path.clone(), conflict_at(file_conflict_path)),
            (modify_delete_path.clone(), conflict_at(modify_delete_path)),
        ]
    );

    // We can filter conflicts using a matcher
    let matcher = PrefixMatcher::new([file_conflict_path, dir_file_path]);
    let conflicts: Vec<_> = repo
        .collect_entries(tree.conflicts_matching(&matcher))
        .into_iter()
        .map(|(path, conflict)| (path, conflict.unwrap()))
        .collect();
    assert_eq!(
        conflicts,
        vec![
            (dir_file_path.clone(), conflict_at(dir_file_path)),
            (file_conflict_path.clone(), conflict_at(file_conflict_path)),
        ]
    );

    // After we resolve conflicts, there are only non-trivial conflicts left
    let tree = repo.resolve(tree);
    let conflicts: Vec<_> = repo
        .collect_entries(tree.conflicts())
        .into_iter()
        .map(|(path, conflict)| (path, conflict.unwrap()))
        .collect();
    assert_eq!(
        conflicts,
        vec![
            (different_add_path.clone(), conflict_at(different_add_path)),
            (dir_file_path.clone(), conflict_at(dir_file_path)),
            (file_conflict_path.clone(), conflict_at(file_conflict_path)),
            (modify_delete_path.clone(), conflict_at(modify_delete_path)),
        ]
    );
    Ok(())
}

#[test]
fn test_conflict_iterator_higher_arity() -> TestResult {
    let test_repo = TestRepo::init();
    let repo = &test_repo;

    let two_sided_path = &repo_path("dir/2-sided");
    let three_sided_path = &repo_path("dir/3-sided");
    let base1 = create_single_tree(
        repo,
        &[(two_sided_path, "base1"), (three_sided_path, "base1")],
    );
    let base2 = create_single_tree(
        repo,
        &[(two_sided_path, "base2"), (three_sided_path, "base2")],
    );
    let side1 = create_single_tree(
        repo,
        &[(two_sided_path, "side1"), (three_sided_path, "side1")],
    );
    let side2 = create_single_tree(
        repo,
        &[(two_sided_path, "base1"), (three_sided_path, "side2")],
    );
    let side3 = create_single_tree(
        repo,
        &[(two_sided_path, "side3"), (three_sided_path, "side3")],
    );

    let tree = MergedTree::new(
        repo.store().clone(),
        Merge::from_vec(vec![
            side1.id().clone(),
            base1.id().clone(),
            side2.id().clone(),
            base2.id().clone(),
            side3.id().clone(),
        ]),
        labels(&["side 1", "base 1", "side 2", "base 2", "side 3"]),
    );
    let conflicts: Vec<_> = repo
        .collect_entries(tree.conflicts())
        .into_iter()
        .map(|(path, conflict)| (path, conflict.unwrap()))
        .collect();
    let conflict_at = |path: &RepoPathBuf| {
        from_removes_adds(
            vec![base1.path_value(path), base2.path_value(path)],
            vec![
                side1.path_value(path),
                side2.path_value(path),
                side3.path_value(path),
            ],
        )
    };
    // Both paths have the full, unsimplified conflict (3-sided)
    assert_eq!(
        conflicts,
        vec![
            (two_sided_path.clone(), conflict_at(two_sided_path)),
            (three_sided_path.clone(), conflict_at(three_sided_path))
        ]
    );
    Ok(())
}

/// Diff two resolved trees
#[test]
fn test_diff_resolved() -> TestResult {
    let test_repo = TestRepo::init();
    let repo = &test_repo;

    let clean_path = &repo_path("dir1/file");
    let modified_path = &repo_path("dir2/file");
    let removed_path = &repo_path("dir3/file");
    let added_path = &repo_path("dir4/file");
    let before = create_single_tree(
        repo,
        &[
            (clean_path, "clean"),
            (modified_path, "before"),
            (removed_path, "before"),
        ],
    );
    let after = create_single_tree(
        repo,
        &[
            (clean_path, "clean"),
            (modified_path, "after"),
            (added_path, "after"),
        ],
    );
    let before_merged = MergedTree::resolved(repo.store().clone(), before.id().clone());
    let after_merged = MergedTree::resolved(repo.store().clone(), after.id().clone());

    let diff = diff_tuples(repo, &before_merged, &after_merged, &EverythingMatcher);
    assert_eq!(diff.len(), 3);
    assert_eq!(
        diff[0],
        (
            modified_path.clone(),
            (
                Merge::resolved(before.path_value(modified_path)),
                Merge::resolved(after.path_value(modified_path))
            ),
        )
    );
    assert_eq!(
        diff[1],
        (
            removed_path.clone(),
            (
                Merge::resolved(before.path_value(removed_path)),
                Merge::absent()
            ),
        )
    );
    assert_eq!(
        diff[2],
        (
            added_path.clone(),
            (
                Merge::absent(),
                Merge::resolved(after.path_value(added_path))
            ),
        )
    );
    diff_stream_equals_iter(repo, &before_merged, &after_merged, &EverythingMatcher);
    Ok(())
}

fn create_copy_records(paths: &[(&RepoPathBuf, &RepoPathBuf)]) -> CopyRecords {
    let mut copy_records = CopyRecords::default();
    copy_records.add_records(
        paths
            .iter()
            .map(|&(source, target)| CopyRecord {
                source: source.clone(),
                target: target.clone(),
                target_commit: CommitId::new(vec![]),
                source_commit: CommitId::new(vec![]),
                source_file: FileId::new(vec![]),
            })
            .collect(),
    );
    copy_records
}

type CopiesTuple = (CopiesTreeDiffEntryPath, Diff<MergedTreeValue>);

fn diff_with_copies_tuples(
    repo: &TestRepo,
    tree1: &MergedTree,
    tree2: &MergedTree,
    copy_records: &CopyRecords,
) -> Vec<CopiesTuple> {
    repo.diff_with_copies(tree1, tree2, &EverythingMatcher, copy_records)
        .into_iter()
        .map(|diff| (diff.path, diff.values.unwrap()))
        .collect()
}

/// Diff two resolved trees
#[test]
fn test_diff_copy_tracing() -> TestResult {
    let test_repo = TestRepo::init();
    let repo = &test_repo;

    let clean_path = &repo_path("1/clean/path");
    let modified_path = &repo_path("2/modified/path");
    let copied_path = &repo_path("3/copied/path");
    let removed_path = &repo_path("4/removed/path");
    let added_path = &repo_path("5/added/path");
    let before = create_single_tree(
        repo,
        &[
            (clean_path, "clean"),
            (modified_path, "before"),
            (removed_path, "before"),
        ],
    );
    let after = create_single_tree(
        repo,
        &[
            (clean_path, "clean"),
            (modified_path, "after"),
            (copied_path, "after"),
            (added_path, "after"),
        ],
    );
    let before_merged = MergedTree::resolved(repo.store().clone(), before.id().clone());
    let after_merged = MergedTree::resolved(repo.store().clone(), after.id().clone());

    let copy_records =
        create_copy_records(&[(removed_path, added_path), (modified_path, copied_path)]);

    let diff = diff_with_copies_tuples(repo, &before_merged, &after_merged, &copy_records);
    assert_eq!(diff.len(), 3);
    assert_eq!(
        diff[0],
        (
            CopiesTreeDiffEntryPath {
                source: None,
                target: modified_path.clone()
            },
            Diff::new(
                Merge::resolved(before.path_value(modified_path)),
                Merge::resolved(after.path_value(modified_path))
            ),
        )
    );
    assert_eq!(
        diff[1],
        (
            CopiesTreeDiffEntryPath {
                source: Some((modified_path.clone(), CopyOperation::Copy)),
                target: copied_path.clone(),
            },
            Diff::new(
                Merge::resolved(before.path_value(modified_path)),
                Merge::resolved(after.path_value(copied_path)),
            ),
        )
    );
    assert_eq!(
        diff[2],
        (
            CopiesTreeDiffEntryPath {
                source: Some((removed_path.clone(), CopyOperation::Rename)),
                target: added_path.clone(),
            },
            Diff::new(
                Merge::resolved(before.path_value(removed_path)),
                Merge::resolved(after.path_value(added_path))
            ),
        )
    );
    diff_stream_equals_iter(repo, &before_merged, &after_merged, &EverythingMatcher);
    Ok(())
}

#[test]
fn test_diff_copy_tracing_file_and_dir() -> TestResult {
    let test_repo = TestRepo::init();
    let repo = &test_repo;

    // a -> b (file)
    // b -> a (dir)
    // c -> c/file (file)
    let before = create_tree(
        repo,
        &[
            (&repo_path("a"), "content1"),
            (&repo_path("b/file"), "content2"),
            (&repo_path("c"), "content3"),
        ],
    );
    let after = create_tree(
        repo,
        &[
            (&repo_path("a/file"), "content2"),
            (&repo_path("b"), "content1"),
            (&repo_path("c/file"), "content3"),
        ],
    );
    let copy_records = create_copy_records(&[
        (&repo_path("a"), &repo_path("b")),
        (&repo_path("b/file"), &repo_path("a/file")),
        (&repo_path("c"), &repo_path("c/file")),
    ]);
    let diff = diff_with_copies_tuples(repo, &before, &after, &copy_records);
    assert_eq!(diff.len(), 3);
    assert_eq!(
        diff[0],
        (
            CopiesTreeDiffEntryPath {
                source: Some((repo_path("b/file"), CopyOperation::Rename)),
                target: repo_path("a/file"),
            },
            Diff::new(
                repo.path_value(&before, &repo_path("b/file"))?,
                repo.path_value(&after, &repo_path("a/file"))?,
            ),
        )
    );
    assert_eq!(
        diff[1],
        (
            CopiesTreeDiffEntryPath {
                source: Some((repo_path("a"), CopyOperation::Rename)),
                target: repo_path("b"),
            },
            Diff::new(
                repo.path_value(&before, &repo_path("a"))?,
                repo.path_value(&after, &repo_path("b"))?,
            ),
        )
    );
    assert_eq!(
        diff[2],
        (
            CopiesTreeDiffEntryPath {
                source: Some((repo_path("c"), CopyOperation::Rename)),
                target: repo_path("c/file"),
            },
            Diff::new(
                repo.path_value(&before, &repo_path("c"))?,
                repo.path_value(&after, &repo_path("c/file"))?,
            ),
        )
    );
    diff_stream_equals_iter(repo, &before, &after, &EverythingMatcher);
    Ok(())
}

/// Diff two conflicted trees
#[test]
fn test_diff_conflicted() -> TestResult {
    let test_repo = TestRepo::init();
    let repo = &test_repo;

    // path1 is a clean (unchanged) conflict
    // path2 is a conflict before and different conflict after
    // path3 is resolved before and a conflict after
    // path4 is missing before and a conflict after
    let path1 = &repo_path("dir1/file");
    let path2 = &repo_path("dir2/file");
    let path3 = &repo_path("dir4/file");
    let path4 = &repo_path("dir6/file");
    let left_base = create_single_tree(
        repo,
        &[(path1, "clean-base"), (path2, "left-base"), (path3, "left")],
    );
    let left_side1 = create_single_tree(
        repo,
        &[
            (path1, "clean-side1"),
            (path2, "left-side1"),
            (path3, "left"),
        ],
    );
    let left_side2 = create_single_tree(
        repo,
        &[
            (path1, "clean-side2"),
            (path2, "left-side2"),
            (path3, "left"),
        ],
    );
    let right_base = create_single_tree(
        repo,
        &[
            (path1, "clean-base"),
            (path2, "right-base"),
            (path3, "right-base"),
            (path4, "right-base"),
        ],
    );
    let right_side1 = create_single_tree(
        repo,
        &[
            (path1, "clean-side1"),
            (path2, "right-side1"),
            (path3, "right-side1"),
            (path4, "right-side1"),
        ],
    );
    let right_side2 = create_single_tree(
        repo,
        &[
            (path1, "clean-side2"),
            (path2, "right-side2"),
            (path3, "right-side2"),
            (path4, "right-side2"),
        ],
    );
    let left_merged = MergedTree::new(
        repo.store().clone(),
        Merge::from_vec(vec![
            left_side1.id().clone(),
            left_base.id().clone(),
            left_side2.id().clone(),
        ]),
        labels(&["left side 1", "left base", "left side 2"]),
    );
    let right_merged = MergedTree::new(
        repo.store().clone(),
        Merge::from_vec(vec![
            right_side1.id().clone(),
            right_base.id().clone(),
            right_side2.id().clone(),
        ]),
        labels(&["right side 1", "right base", "right side 2"]),
    );

    // Test the forwards diff
    let actual_diff = diff_tuples(repo, &left_merged, &right_merged, &EverythingMatcher);
    let expected_diff: Vec<_> = [path2, path3, path4]
        .iter()
        .map(|&path| {
            (
                path.clone(),
                (
                    repo.path_value(&left_merged, path).unwrap(),
                    repo.path_value(&right_merged, path).unwrap(),
                ),
            )
        })
        .collect();
    assert_eq!(actual_diff, expected_diff);
    diff_stream_equals_iter(repo, &left_merged, &right_merged, &EverythingMatcher);
    // Test the reverse diff
    let actual_diff = diff_tuples(repo, &right_merged, &left_merged, &EverythingMatcher);
    let expected_diff: Vec<_> = [path2, path3, path4]
        .iter()
        .map(|&path| {
            (
                path.clone(),
                (
                    repo.path_value(&right_merged, path).unwrap(),
                    repo.path_value(&left_merged, path).unwrap(),
                ),
            )
        })
        .collect();
    assert_eq!(actual_diff, expected_diff);
    diff_stream_equals_iter(repo, &right_merged, &left_merged, &EverythingMatcher);
    Ok(())
}

#[test]
fn test_diff_dir_file() -> TestResult {
    let test_repo = TestRepo::init();
    let repo = &test_repo;

    // path1: file1 -> directory1
    // path2: file1 -> directory1+(directory2-absent)
    // path3: file1 -> directory1+(file1-absent)
    // path4: file1+(file2-file3) -> directory1+(directory2-directory3)
    // path5: directory1 -> file1+(file2-absent)
    // path6: directory1 -> file1+(directory1-absent)
    let path1 = &repo_path("path1");
    let path2 = &repo_path("path2");
    let path3 = &repo_path("path3");
    let path4 = &repo_path("path4");
    let path5 = &repo_path("path5");
    let path6 = &repo_path("path6");
    let file = &component("file");
    let left_base = create_single_tree(
        repo,
        &[
            (path1, "left"),
            (path2, "left"),
            (path3, "left"),
            (path4, "left-base"),
            (&path5.join(file), "left"),
            (&path6.join(file), "left"),
        ],
    );
    let left_side1 = create_single_tree(
        repo,
        &[
            (path1, "left"),
            (path2, "left"),
            (path3, "left"),
            (path4, "left-side1"),
            (&path5.join(file), "left"),
            (&path6.join(file), "left"),
        ],
    );
    let left_side2 = create_single_tree(
        repo,
        &[
            (path1, "left"),
            (path2, "left"),
            (path3, "left"),
            (path4, "left-side2"),
            (&path5.join(file), "left"),
            (&path6.join(file), "left"),
        ],
    );
    let right_base = create_single_tree(
        repo,
        &[
            (&path1.join(file), "right"),
            // path2 absent
            // path3 absent
            (&path4.join(file), "right-base"),
            // path5 is absent
            // path6 is absent
        ],
    );
    let right_side1 = create_single_tree(
        repo,
        &[
            (&path1.join(file), "right"),
            (&path2.join(file), "right"),
            (&path3.join(file), "right-side1"),
            (&path4.join(file), "right-side1"),
            (path5, "right-side1"),
            (path6, "right"),
        ],
    );
    let right_side2 = create_single_tree(
        repo,
        &[
            (&path1.join(file), "right"),
            (&path2.join(file), "right"),
            (path3, "right-side2"),
            (&path4.join(file), "right-side2"),
            (path5, "right-side2"),
            (&path6.join(file), "right"),
        ],
    );
    let left_merged = MergedTree::new(
        repo.store().clone(),
        Merge::from_vec(vec![
            left_side1.id().clone(),
            left_base.id().clone(),
            left_side2.id().clone(),
        ]),
        labels(&["left side 1", "left base", "left side 2"]),
    );
    let right_merged = MergedTree::new(
        repo.store().clone(),
        Merge::from_vec(vec![
            right_side1.id().clone(),
            right_base.id().clone(),
            right_side2.id().clone(),
        ]),
        labels(&["right side 1", "right base", "right side 2"]),
    );
    let left_value = |path: &RepoPathBuf| repo.path_value(&left_merged, path).unwrap();
    let right_value = |path: &RepoPathBuf| repo.path_value(&right_merged, path).unwrap();

    // Test the forwards diff
    {
        let actual_diff = diff_tuples(repo, &left_merged, &right_merged, &EverythingMatcher);
        let expected_diff = vec![
            // path1: file1 -> directory1
            (path1.clone(), (left_value(path1), Merge::absent())),
            (
                path1.join(file),
                (Merge::absent(), right_value(&path1.join(file))),
            ),
            // path2: file1 -> directory1+(directory2-absent)
            (path2.clone(), (left_value(path2), Merge::absent())),
            (
                path2.join(file),
                (Merge::absent(), right_value(&path2.join(file))),
            ),
            // path3: file1 -> directory1+(file1-absent)
            (path3.clone(), (left_value(path3), right_value(path3))),
            // path4: file1+(file2-file3) -> directory1+(directory2-directory3)
            (path4.clone(), (left_value(path4), Merge::absent())),
            (
                path4.join(file),
                (Merge::absent(), right_value(&path4.join(file))),
            ),
            // path5: directory1 -> file1+(file2-absent)
            (path5.clone(), (Merge::absent(), right_value(path5))),
            (
                path5.join(file),
                (left_value(&path5.join(file)), Merge::absent()),
            ),
            // path6: directory1 -> file1+(directory1-absent)
            (path6.clone(), (Merge::absent(), right_value(path6))),
            (
                path6.join(file),
                (left_value(&path6.join(file)), Merge::absent()),
            ),
        ];
        assert_eq!(actual_diff, expected_diff);
        diff_stream_equals_iter(repo, &left_merged, &right_merged, &EverythingMatcher);
    }

    // Test the reverse diff
    {
        let actual_diff = diff_tuples(repo, &right_merged, &left_merged, &EverythingMatcher);
        let expected_diff = vec![
            // path1: file1 -> directory1
            (path1.clone(), (Merge::absent(), left_value(path1))),
            (
                path1.join(file),
                (right_value(&path1.join(file)), Merge::absent()),
            ),
            // path2: file1 -> directory1+(directory2-absent)
            (path2.clone(), (Merge::absent(), left_value(path2))),
            (
                path2.join(file),
                (right_value(&path2.join(file)), Merge::absent()),
            ),
            // path3: file1 -> directory1+(file1-absent)
            (path3.clone(), (right_value(path3), left_value(path3))),
            // path4: file1+(file2-file3) -> directory1+(directory2-directory3)
            (path4.clone(), (Merge::absent(), left_value(path4))),
            (
                path4.join(file),
                (right_value(&path4.join(file)), Merge::absent()),
            ),
            // path5: directory1 -> file1+(file2-absent)
            (path5.clone(), (right_value(path5), Merge::absent())),
            (
                path5.join(file),
                (Merge::absent(), left_value(&path5.join(file))),
            ),
            // path6: directory1 -> file1+(directory1-absent)
            (path6.clone(), (right_value(path6), Merge::absent())),
            (
                path6.join(file),
                (Merge::absent(), left_value(&path6.join(file))),
            ),
        ];
        assert_eq!(actual_diff, expected_diff);
        diff_stream_equals_iter(repo, &right_merged, &left_merged, &EverythingMatcher);
    }

    // Diff while filtering by `path1` (file1 -> directory1) as a file
    {
        let matcher = FilesMatcher::new([path1]);
        let actual_diff = diff_tuples(repo, &left_merged, &right_merged, &matcher);
        let expected_diff = vec![
            // path1: file1 -> directory1
            (path1.clone(), (left_value(path1), Merge::absent())),
        ];
        assert_eq!(actual_diff, expected_diff);
        diff_stream_equals_iter(repo, &left_merged, &right_merged, &matcher);
    }

    // Diff while filtering by `path1/file` (file1 -> directory1) as a file
    {
        let matcher = FilesMatcher::new([&path1.join(file)]);
        let actual_diff = diff_tuples(repo, &left_merged, &right_merged, &matcher);
        let expected_diff = vec![
            // path1: file1 -> directory1
            (
                path1.join(file),
                (Merge::absent(), right_value(&path1.join(file))),
            ),
        ];
        assert_eq!(actual_diff, expected_diff);
        diff_stream_equals_iter(repo, &left_merged, &right_merged, &matcher);
    }

    // Diff while filtering by `path1` (file1 -> directory1) as a prefix
    {
        let matcher = PrefixMatcher::new([path1]);
        let actual_diff = diff_tuples(repo, &left_merged, &right_merged, &matcher);
        let expected_diff = vec![
            (path1.clone(), (left_value(path1), Merge::absent())),
            (
                path1.join(file),
                (Merge::absent(), right_value(&path1.join(file))),
            ),
        ];
        assert_eq!(actual_diff, expected_diff);
        diff_stream_equals_iter(repo, &left_merged, &right_merged, &matcher);
    }

    // Diff while filtering by `path6` (directory1 -> file1+(directory1-absent)) as
    // a file. We don't see the directory at `path6` on the left side, but we
    // do see the directory that's included in the conflict with a file on the right
    // side.
    {
        let matcher = FilesMatcher::new([path6]);
        let actual_diff = diff_tuples(repo, &left_merged, &right_merged, &matcher);
        let expected_diff = vec![(path6.clone(), (Merge::absent(), right_value(path6)))];
        assert_eq!(actual_diff, expected_diff);
        diff_stream_equals_iter(repo, &left_merged, &right_merged, &matcher);
    }
    Ok(())
}

/// Merge 3 resolved trees that can be resolved
#[test]
fn test_merge_simple() -> TestResult {
    let test_repo = TestRepo::init();
    let repo = &test_repo;

    let path1 = &repo_path("dir1/file");
    let path2 = &repo_path("dir2/file");
    let base1 = create_single_tree(repo, &[(path1, "base"), (path2, "base")]);
    let side1 = create_single_tree(repo, &[(path1, "side1"), (path2, "base")]);
    let side2 = create_single_tree(repo, &[(path1, "base"), (path2, "side2")]);
    let expected = create_single_tree(repo, &[(path1, "side1"), (path2, "side2")]);
    let base1_merged = MergedTree::resolved(repo.store().clone(), base1.id().clone());
    let side1_merged = MergedTree::resolved(repo.store().clone(), side1.id().clone());
    let side2_merged = MergedTree::resolved(repo.store().clone(), side2.id().clone());
    let expected_merged = MergedTree::resolved(repo.store().clone(), expected.id().clone());

    let merged = repo.merge(Merge::from_vec(vec![
        (side1_merged, "side 1".into()),
        (base1_merged, "base 1".into()),
        (side2_merged, "side 2".into()),
    ]));
    assert_tree_eq(&merged, &expected_merged);
    Ok(())
}

/// Merge 3 resolved trees that can be partially resolved
#[test]
fn test_merge_partial_resolution() -> TestResult {
    let test_repo = TestRepo::init();
    let repo = &test_repo;

    // path1 can be resolved, path2 cannot
    let path1 = &repo_path("dir1/file");
    let path2 = &repo_path("dir2/file");
    let base1 = create_single_tree(repo, &[(path1, "base"), (path2, "base")]);
    let side1 = create_single_tree(repo, &[(path1, "side1"), (path2, "side1")]);
    let side2 = create_single_tree(repo, &[(path1, "base"), (path2, "side2")]);
    let expected_base1 = create_single_tree(repo, &[(path1, "side1"), (path2, "base")]);
    let expected_side1 = create_single_tree(repo, &[(path1, "side1"), (path2, "side1")]);
    let expected_side2 = create_single_tree(repo, &[(path1, "side1"), (path2, "side2")]);
    let base1_merged = MergedTree::resolved(repo.store().clone(), base1.id().clone());
    let side1_merged = MergedTree::resolved(repo.store().clone(), side1.id().clone());
    let side2_merged = MergedTree::resolved(repo.store().clone(), side2.id().clone());
    let expected_merged = MergedTree::new(
        repo.store().clone(),
        Merge::from_vec(vec![
            expected_side1.id().clone(),
            expected_base1.id().clone(),
            expected_side2.id().clone(),
        ]),
        labels(&["side 1", "base 1", "side 2"]),
    );

    let merged = repo.merge(Merge::from_vec(vec![
        (side1_merged, "side 1".into()),
        (base1_merged, "base 1".into()),
        (side2_merged, "side 2".into()),
    ]));
    assert_tree_eq(&merged, &expected_merged);
    Ok(())
}

/// Merge 3 trees where each one is a 3-way conflict and the result is arrived
/// at by only simplifying the conflict (no need to recurse)
#[test]
fn test_merge_simplify_only() -> TestResult {
    let test_repo = TestRepo::init();
    let repo = &test_repo;

    let path = &repo_path("dir1/file");
    let tree1 = create_single_tree(repo, &[(path, "1")]);
    let tree2 = create_single_tree(repo, &[(path, "2")]);
    let tree3 = create_single_tree(repo, &[(path, "3")]);
    let tree4 = create_single_tree(repo, &[(path, "4")]);
    let tree5 = create_single_tree(repo, &[(path, "5")]);
    let expected = tree5.id().clone();
    let base1_merged = MergedTree::new(
        repo.store().clone(),
        Merge::from_vec(vec![
            tree2.id().clone(),
            tree1.id().clone(),
            tree3.id().clone(),
        ]),
        labels(&["tree 2", "tree 1", "tree 3"]),
    );
    let side1_merged = MergedTree::new(
        repo.store().clone(),
        Merge::from_vec(vec![
            tree4.id().clone(),
            tree1.id().clone(),
            tree2.id().clone(),
        ]),
        labels(&["tree 4", "tree 1", "tree 2"]),
    );
    let side2_merged = MergedTree::new(
        repo.store().clone(),
        Merge::from_vec(vec![
            tree5.id().clone(),
            tree4.id().clone(),
            tree3.id().clone(),
        ]),
        labels(&["tree 5", "tree 4", "tree 3"]),
    );
    let expected_merged = MergedTree::resolved(repo.store().clone(), expected);

    let merged = repo.merge(Merge::from_vec(vec![
        (side1_merged, "side 1".into()),
        (base1_merged, "base 1".into()),
        (side2_merged, "side 2".into()),
    ]));
    assert_tree_eq(&merged, &expected_merged);
    Ok(())
}

/// Merge 3 trees with 3+1+1 terms (i.e. a 5-way conflict) such that resolving
/// the conflict between the trees leads to two trees being the same, so the
/// result is a 3-way conflict.
#[test]
fn test_merge_simplify_result() -> TestResult {
    let test_repo = TestRepo::init();
    let repo = &test_repo;

    // The conflict in path1 cannot be resolved, but the conflict in path2 can.
    let path1 = &repo_path("dir1/file");
    let path2 = &repo_path("dir2/file");
    let side1_left = create_single_tree(repo, &[(path1, "2"), (path2, "2")]);
    let side1_base = create_single_tree(repo, &[(path1, "1"), (path2, "1")]);
    let side1_right = create_single_tree(repo, &[(path1, "3"), (path2, "3")]);
    let base1 = create_single_tree(repo, &[(path1, "4"), (path2, "2")]);
    let side2 = create_single_tree(repo, &[(path1, "4"), (path2, "1")]);
    let expected_side1 = create_single_tree(repo, &[(path1, "2"), (path2, "3")]);
    let expected_base1 = create_single_tree(repo, &[(path1, "1"), (path2, "3")]);
    let expected_side2 = create_single_tree(repo, &[(path1, "3"), (path2, "3")]);
    let side1_merged = MergedTree::new(
        repo.store().clone(),
        Merge::from_vec(vec![
            side1_left.id().clone(),
            side1_base.id().clone(),
            side1_right.id().clone(),
        ]),
        labels(&["side 1 left", "side 1 base", "side 1 right"]),
    );
    let base1_merged = MergedTree::resolved(repo.store().clone(), base1.id().clone());
    let side2_merged = MergedTree::resolved(repo.store().clone(), side2.id().clone());
    let expected_merged = MergedTree::new(
        repo.store().clone(),
        Merge::from_vec(vec![
            expected_side1.id().clone(),
            expected_base1.id().clone(),
            expected_side2.id().clone(),
        ]),
        labels(&["side 1 left", "side 1 base", "side 1 right"]),
    );

    // Although we pass labels here, they don't appear in the final result. The
    // "side 1" label is ignored because that side is already conflicted. The "base
    // 1" and "side 2" labels are used, but then those sides are removed after
    // resolving and simplifying.
    let merged = repo.merge(Merge::from_vec(vec![
        (side1_merged, "side 1".into()),
        (base1_merged, "base 1".into()),
        (side2_merged, "side 2".into()),
    ]));
    assert_tree_eq(&merged, &expected_merged);
    Ok(())
}

/// Test that resolved trees take their labels from `MergeLabels`.
#[test]
fn test_merge_simplify_result_with_resolved_labels() -> TestResult {
    let test_repo = TestRepo::init();
    let repo = &test_repo;

    // The conflict in path1 cannot be resolved, but the conflict in path2 can.
    let path1 = &repo_path("dir1/file");
    let path2 = &repo_path("dir2/file");
    let side1 = create_single_tree(repo, &[(path1, "2"), (path2, "2")]);
    let base1 = create_single_tree(repo, &[(path1, "1"), (path2, "1")]);
    let side2_left = create_single_tree(repo, &[(path1, "3"), (path2, "3")]);
    let side2_base = create_single_tree(repo, &[(path1, "4"), (path2, "2")]);
    let side2_right = create_single_tree(repo, &[(path1, "4"), (path2, "1")]);
    let expected_side1 = create_single_tree(repo, &[(path1, "2"), (path2, "3")]);
    let expected_base1 = create_single_tree(repo, &[(path1, "1"), (path2, "3")]);
    let expected_side2 = create_single_tree(repo, &[(path1, "3"), (path2, "3")]);
    let side1_merged = MergedTree::resolved(repo.store().clone(), side1.id().clone());
    let base1_merged = MergedTree::resolved(repo.store().clone(), base1.id().clone());
    let side2_merged = MergedTree::new(
        repo.store().clone(),
        Merge::from_vec(vec![
            side2_left.id().clone(),
            side2_base.id().clone(),
            side2_right.id().clone(),
        ]),
        labels(&["side 2 left", "side 2 base", "side 2 right"]),
    );
    let expected_merged = MergedTree::new(
        repo.store().clone(),
        Merge::from_vec(vec![
            expected_side1.id().clone(),
            expected_base1.id().clone(),
            expected_side2.id().clone(),
        ]),
        labels(&["side 1", "", "side 2 left"]),
    );

    // Since side 1 is resolved, it will use the provided "side 1" label. Since side
    // 2 is conflicted, its existing labels are used instead of the provided "side
    // 2" label. Two of the terms from side 2 will be removed after resolving and
    // simplifying. One of the terms has an empty label, which should be preserved.
    let merged = repo.merge(Merge::from_vec(vec![
        (side1_merged, "side 1".into()),
        (base1_merged, "".into()),
        (side2_merged, "side 2".into()),
    ]));
    assert_tree_eq(&merged, &expected_merged);
    Ok(())
}

#[test]
fn test_merge_simplify_file_conflict() -> TestResult {
    let test_repo = TestRepo::init();
    let repo = &test_repo;

    let conflict_path = &repo_path("CHANGELOG.md");
    let other_path = &repo_path("other");

    let prefix = r#"### New features

* The `ancestors()` revset function now takes an optional `depth` argument
  to limit the depth of the ancestor set. For example, use `jj log -r
  'ancestors(@, 5)` to view the last 5 commits.

* Support for the Watchman filesystem monitor is now bundled by default. Set
  `fsmonitor.backend = "watchman"` in your repo to enable.
"#;
    let suffix = r#"
### Fixed bugs 
"#;
    let parent_base_text = format!(r#"{prefix}{suffix}"#);
    let parent_left_text = format!(
        r#"{prefix}
* `jj op log` now supports `--no-graph`.
{suffix}"#
    );
    let parent_right_text = format!(
        r#"{prefix}
* You can now configure the set of immutable commits via
  `revsets.immutable-heads`. For example, set it to `"main"` to prevent
  rewriting commits on the `main` branch.
{suffix}"#
    );
    let child1_right_text = format!(
        r#"{prefix}
* You can now configure the set of immutable commits via
  `revsets.immutable-heads`. For example, set it to `"main"` to prevent
  rewriting commits on the `main` branch. The new `immutable()` revset resolves
  to these immutable commits.
{suffix}"#
    );
    let child2_text = format!(
        r#"{prefix}
* You can now configure the set of immutable commits via
  `revsets.immutable-heads`. For example, set it to `"main"` to prevent
  rewriting commits on the `main` branch.

* `jj op log` now supports `--no-graph`.
{suffix}"#
    );
    let expected_text = format!(
        r#"{prefix}
* You can now configure the set of immutable commits via
  `revsets.immutable-heads`. For example, set it to `"main"` to prevent
  rewriting commits on the `main` branch. The new `immutable()` revset resolves
  to these immutable commits.

* `jj op log` now supports `--no-graph`.
{suffix}"#
    );

    // conflict in parent commit
    let parent_base = create_single_tree(repo, &[(conflict_path, &parent_base_text)]);
    let parent_left = create_single_tree(repo, &[(conflict_path, &parent_left_text)]);
    let parent_right = create_single_tree(repo, &[(conflict_path, &parent_right_text)]);
    let parent_merged = MergedTree::new(
        repo.store().clone(),
        Merge::from_vec(vec![
            parent_left.id().clone(),
            parent_base.id().clone(),
            parent_right.id().clone(),
        ]),
        labels(&["parent left", "parent base", "parent right"]),
    );

    // different conflict in child
    let child1_base = create_single_tree(
        repo,
        &[(other_path, "child1"), (conflict_path, &parent_base_text)],
    );
    let child1_left = create_single_tree(
        repo,
        &[(other_path, "child1"), (conflict_path, &parent_left_text)],
    );
    let child1_right = create_single_tree(
        repo,
        &[(other_path, "child1"), (conflict_path, &child1_right_text)],
    );
    let child1_merged = MergedTree::new(
        repo.store().clone(),
        Merge::from_vec(vec![
            child1_left.id().clone(),
            child1_base.id().clone(),
            child1_right.id().clone(),
        ]),
        labels(&["child 1 left", "child 1 base", "child 1 right"]),
    );

    // resolved state
    let child2 = create_single_tree(repo, &[(conflict_path, &child2_text)]);
    let child2_merged = MergedTree::resolved(repo.store().clone(), child2.id().clone());

    // expected result
    let expected = create_single_tree(
        repo,
        &[(other_path, "child1"), (conflict_path, &expected_text)],
    );
    let expected_merged = MergedTree::resolved(repo.store().clone(), expected.id().clone());

    let merged = repo.merge(Merge::from_vec(vec![
        (child1_merged, "child 1".into()),
        (parent_merged, "parent".into()),
        (child2_merged, "child 2".into()),
    ]));
    assert_tree_eq(&merged, &expected_merged);
    Ok(())
}

/// Like `test_merge_simplify_file_conflict()`, but some of the conflicts are
/// absent.
#[test]
fn test_merge_simplify_file_conflict_with_absent() -> TestResult {
    let test_repo = TestRepo::init();
    let repo = &test_repo;

    // conflict_path doesn't exist in parent and child2_left, and these two
    // trees can't be canceled out at the root level. Still the file merge
    // should succeed by eliminating absent entries.
    let child2_path = &repo_path("file_child2");
    let conflict_path = &repo_path("dir/file_conflict");
    let child1 = create_single_tree(repo, &[(conflict_path, "1\n0\n")]);
    let parent = create_single_tree(repo, &[]);
    let child2_left = create_single_tree(repo, &[(child2_path, "")]);
    let child2_base = create_single_tree(repo, &[(child2_path, ""), (conflict_path, "0\n")]);
    let child2_right = create_single_tree(repo, &[(child2_path, ""), (conflict_path, "0\n2\n")]);
    let child1_merged = MergedTree::resolved(repo.store().clone(), child1.id().clone());
    let parent_merged = MergedTree::resolved(repo.store().clone(), parent.id().clone());
    let child2_merged = MergedTree::new(
        repo.store().clone(),
        Merge::from_vec(vec![
            child2_left.id().clone(),
            child2_base.id().clone(),
            child2_right.id().clone(),
        ]),
        labels(&["child 2 left", "child 2 base", "child 2 right"]),
    );

    let expected = create_single_tree(repo, &[(child2_path, ""), (conflict_path, "1\n0\n2\n")]);
    let expected_merged = MergedTree::resolved(repo.store().clone(), expected.id().clone());

    let merged = repo.merge(Merge::from_vec(vec![
        (child1_merged, "child 1".into()),
        (parent_merged, "parent".into()),
        (child2_merged, "child 2".into()),
    ]));
    assert_tree_eq(&merged, &expected_merged);
    Ok(())
}

#[test]
fn test_diff_with_trees_dir_added_removed() -> TestResult {
    let test_repo = TestRepo::init();
    let repo = &test_repo;

    let file_path = &repo_path("file");
    let dir_path = &repo_path("dir");
    let dir_file_path = &repo_path("dir/file");

    // Tree 1: root has "file"
    let tree1 = create_single_tree(repo, &[(file_path, "content")]);

    // Tree 2: root has "file" and "dir/file"
    let tree2 = create_single_tree(repo, &[(file_path, "content"), (dir_file_path, "content")]);

    let tree1_merged = MergedTree::resolved(repo.store().clone(), tree1.id().clone());
    let tree2_merged = MergedTree::resolved(repo.store().clone(), tree2.id().clone());

    // Forward diff: tree1 -> tree2 (Directory "dir" added)
    let diff = diff_with_trees_tuples(repo, &tree1_merged, &tree2_merged, &EverythingMatcher);

    // Expecting 3 entries: the root directory, the directory itself, and the file
    // inside it.
    assert_eq!(diff.len(), 3);

    // 1. Change in the root directory
    assert_eq!(diff[0].0, RepoPathBuf::root());
    assert!(diff[0].1.0.is_tree()); // Before: Tree
    assert!(diff[0].1.1.is_tree()); // After: Tree

    // 2. The directory "dir" is added
    assert_eq!(diff[1].0, *dir_path);
    assert!(diff[1].1.0.is_absent()); // Before: Absent
    assert!(diff[1].1.1.is_tree()); // After: Tree

    // 3. The file "dir/file" is added
    assert_eq!(diff[2].0, *dir_file_path);
    assert!(diff[2].1.0.is_absent()); // Before: Absent
    assert!(diff[2].1.1.is_present()); // After: Present (File)

    // Reverse diff: tree2 -> tree1 (Directory "dir" removed)
    let diff_rev = diff_with_trees_tuples(repo, &tree2_merged, &tree1_merged, &EverythingMatcher);

    assert_eq!(diff_rev.len(), 3);
    assert_eq!(diff_rev[1].0, *dir_path);
    assert!(diff_rev[1].1.0.is_tree()); // Before: Tree
    assert!(diff_rev[1].1.1.is_absent()); // After: Absent

    diff_stream_equals_iter(repo, &tree1_merged, &tree2_merged, &EverythingMatcher);
    Ok(())
}

#[test]
fn test_diff_with_trees_recursive_modification() -> TestResult {
    let test_repo = TestRepo::init();
    let repo = &test_repo;

    let path = &repo_path("dir/subdir/file");
    let dir_path = &repo_path("dir");
    let subdir_path = &repo_path("dir/subdir");

    // Two trees with different content in the deep file
    let tree1 = create_single_tree(repo, &[(path, "a")]);
    let tree2 = create_single_tree(repo, &[(path, "b")]);

    let merged1 = MergedTree::resolved(repo.store().clone(), tree1.id().clone());
    let merged2 = MergedTree::resolved(repo.store().clone(), tree2.id().clone());

    let diff = diff_with_trees_tuples(repo, &merged1, &merged2, &EverythingMatcher);

    // Expecting 4 entries: root, dir, dir/subdir, and dir/subdir/file
    assert_eq!(diff.len(), 4);

    // 1. root changed (Tree -> Tree)
    assert_eq!(diff[0].0, RepoPathBuf::root());
    assert!(diff[0].1.0.is_tree());
    assert!(diff[0].1.1.is_tree());
    assert_ne!(diff[0].1.0, diff[0].1.1); // IDs should differ

    // 2. "dir" changed (Tree -> Tree)
    assert_eq!(diff[1].0, *dir_path);
    assert!(diff[1].1.0.is_tree());
    assert!(diff[1].1.1.is_tree());
    assert_ne!(diff[1].1.0, diff[1].1.1); // IDs should differ

    // 3. "dir/subdir" changed (Tree -> Tree)
    assert_eq!(diff[2].0, *subdir_path);
    assert!(diff[2].1.0.is_tree());
    assert!(diff[2].1.1.is_tree());
    assert_ne!(diff[2].1.0, diff[2].1.1); // IDs should differ

    // 4. "dir/subdir/file" changed (File -> File)
    assert_eq!(diff[3].0, *path);
    assert!(diff[3].1.0.is_present());
    assert!(diff[3].1.1.is_present());

    diff_stream_equals_iter(repo, &merged1, &merged2, &EverythingMatcher);
    Ok(())
}

#[test]
fn test_diff_with_trees_no_modifications() -> TestResult {
    let test_repo = TestRepo::init();
    let repo = &test_repo;

    let file_path = &repo_path("file");

    // Tree 1: root has "file"
    let tree1 = create_single_tree(repo, &[(file_path, "content")]);

    // Tree 2: root has "file"
    let tree2 = create_single_tree(repo, &[(file_path, "content")]);

    let tree1_merged = MergedTree::resolved(repo.store().clone(), tree1.id().clone());
    let tree2_merged = MergedTree::resolved(repo.store().clone(), tree2.id().clone());

    let diff = diff_with_trees_tuples(repo, &tree1_merged, &tree2_merged, &EverythingMatcher);

    // Expecting 0 entries: the trees are identical
    assert_eq!(diff.len(), 0);

    // Reverse diff
    let diff_rev = diff_with_trees_tuples(repo, &tree2_merged, &tree1_merged, &EverythingMatcher);

    assert_eq!(diff_rev.len(), 0);

    diff_stream_equals_iter(repo, &tree1_merged, &tree2_merged, &EverythingMatcher);
    Ok(())
}

#[test]
fn test_diff_with_trees_files_matcher_for_file() -> TestResult {
    let test_repo = TestRepo::init();
    let repo = &test_repo;

    let path_a = &repo_path("m/a.rs");
    let path_b = &repo_path("b.rs");

    // Create two trees with the same structure: subdir "m" and file "b.rs".
    // "b.rs" has the same content in both trees.
    // "m/a.rs" has different content, causing a diff.
    let tree1 = create_single_tree(repo, &[(path_a, "content_v1"), (path_b, "fixed_content")]);
    let tree2 = create_single_tree(repo, &[(path_a, "content_v2"), (path_b, "fixed_content")]);

    let merged1 = MergedTree::resolved(repo.store().clone(), tree1.id().clone());
    let merged2 = MergedTree::resolved(repo.store().clone(), tree2.id().clone());

    let matcher = FilesMatcher::new([path_a, path_b]);
    // Just make sure the matcher is configured as expected.
    assert!(matcher.matches(path_a));
    assert!(matcher.matches(path_b));

    let diff = diff_with_trees_tuples(repo, &merged1, &merged2, &matcher);

    // Verify that the diff contains exactly one item: "m/a.rs"
    assert_eq!(diff.len(), 1);
    assert_eq!(diff[0].0, *path_a);

    // Verify that the file IDs differ due to the content change
    let (before, after) = &diff[0].1;
    assert_ne!(before, after);

    diff_stream_equals_iter(repo, &merged1, &merged2, &matcher);
    Ok(())
}

#[test]
fn test_diff_with_trees_glob_matcher_for_path() -> TestResult {
    let test_repo = TestRepo::init();
    let repo = &test_repo;

    let dir_path = &repo_path("m");
    let path_a = &repo_path("m/a.rs");
    let path_b = &repo_path("b.rs");

    // Create two trees with the same structure: subdir "m" and file "b.rs".
    // "b.rs" has the same content in both trees.
    // "m/a.rs" has different content, causing a diff.
    let tree1 = create_single_tree(repo, &[(path_a, "content_v1"), (path_b, "fixed_content")]);
    let tree2 = create_single_tree(repo, &[(path_a, "content_v2"), (path_b, "fixed_content")]);

    let merged1 = MergedTree::resolved(repo.store().clone(), tree1.id().clone());
    let merged2 = MergedTree::resolved(repo.store().clone(), tree2.id().clone());

    let matcher = DirNameMatcher {
        name: component("m"),
    };
    // Just make sure the matcher is configured as expected.
    assert!(matcher.matches(dir_path));
    assert!(matcher.matches(path_a));
    assert!(!matcher.matches(path_b));

    let diff = diff_with_trees_tuples(repo, &merged1, &merged2, &matcher);

    // Verify that the diff contains exactly "m" and "m/a.rs"
    assert_eq!(diff.len(), 2);

    // 1. "m" changed (Tree -> Tree)
    assert_eq!(diff[0].0, *dir_path);
    assert!(diff[0].1.0.is_tree());
    assert!(diff[0].1.1.is_tree());
    assert_ne!(diff[0].1.0, diff[0].1.1); // IDs should differ

    // 2. "m/a.rs" changed (File -> File)
    assert_eq!(diff[1].0, *path_a);
    assert!(!diff[1].1.0.is_tree());
    assert!(!diff[1].1.1.is_tree());
    assert_ne!(diff[1].1.0, diff[1].1.1); // IDs should differ

    diff_stream_equals_iter(repo, &merged1, &merged2, &matcher);
    Ok(())
}

#[test]
fn test_diff_with_trees_files_matcher_for_intermediate_directory() -> TestResult {
    let test_repo = TestRepo::init();
    let repo = &test_repo;

    let dir_path = &repo_path("m");
    let path_a = &repo_path("m/a.rs");
    let path_b = &repo_path("b.rs");

    // Create two trees with the same structure: subdir "m" and file "b.rs".
    // "b.rs" has the same content in both trees.
    // "m/a.rs" has different content, causing a diff.
    let tree1 = create_single_tree(repo, &[(path_a, "content_v1"), (path_b, "fixed_content")]);
    let tree2 = create_single_tree(repo, &[(path_a, "content_v2"), (path_b, "fixed_content")]);

    let merged1 = MergedTree::resolved(repo.store().clone(), tree1.id().clone());
    let merged2 = MergedTree::resolved(repo.store().clone(), tree2.id().clone());

    let matcher = FilesMatcher::new([dir_path]);
    // Just make sure the matcher is configured as expected.
    assert!(matcher.matches(dir_path));
    assert!(!matcher.matches(path_a));
    assert!(!matcher.matches(path_b));

    // Matching directories are not necessarily visited, which means "m" is
    // missed.
    let diff = diff_with_trees_tuples(repo, &merged1, &merged2, &matcher);
    assert_eq!(diff.len(), 0);

    diff_stream_equals_iter(repo, &merged1, &merged2, &matcher);
    Ok(())
}

type CopyTuple = (RepoPathBuf, Merge<CopyHistoryDiffTerm>);

fn expected_creation(path: &RepoPathBuf, val: &MergedTreeValue) -> CopyTuple {
    (
        path.clone(),
        Merge::resolved(CopyHistoryDiffTerm {
            target_value: val.first().clone(),
            sources: vec![],
        }),
    )
}

fn expected_deletion(path: &RepoPathBuf, val: &MergedTreeValue) -> CopyTuple {
    (
        path.clone(),
        Merge::resolved(CopyHistoryDiffTerm {
            target_value: None,
            sources: vec![(CopyHistorySource::Normal, val.clone())],
        }),
    )
}

fn expected_normal(
    path: &RepoPathBuf,
    old_val: &MergedTreeValue,
    new_val: &MergedTreeValue,
) -> CopyTuple {
    (
        path.clone(),
        Merge::resolved(CopyHistoryDiffTerm {
            target_value: new_val.first().clone(),
            sources: vec![(CopyHistorySource::Normal, old_val.clone())],
        }),
    )
}

fn expected_copy(
    old_path: &RepoPathBuf,
    old_val: &MergedTreeValue,
    new_path: &RepoPathBuf,
    new_val: &MergedTreeValue,
) -> CopyTuple {
    (
        new_path.clone(),
        Merge::resolved(CopyHistoryDiffTerm {
            target_value: new_val.first().clone(),
            sources: vec![(CopyHistorySource::Copy(old_path.clone()), old_val.clone())],
        }),
    )
}

fn expected_rename(
    old_path: &RepoPathBuf,
    old_val: &MergedTreeValue,
    new_path: &RepoPathBuf,
    new_val: &MergedTreeValue,
) -> CopyTuple {
    (
        new_path.clone(),
        Merge::resolved(CopyHistoryDiffTerm {
            target_value: new_val.first().clone(),
            sources: vec![(
                CopyHistorySource::Rename(old_path.clone()),
                old_val.clone(),
            )],
        }),
    )
}

fn collect_diffs(repo: &TestRepo, left: &MergedTree, right: &MergedTree) -> Vec<CopyTuple> {
    repo.diff_with_copy_history(left, right)
        .into_iter()
        .map(|diff| (diff.target_path, diff.diffs.unwrap()))
        .collect()
}

#[test]
fn test_copy_diffstream_no_history_change() -> TestResult {
    // CASE: edit foo.txt contents, no history changes
    let test_repo = TestRepo::init();
    let repo = &test_repo;

    let foo = &repo_path("foo.txt");
    let bar = &repo_path("bar.txt");
    let histories = write_copy_histories(repo, &[(foo, vec![]), (bar, vec![foo])]);

    let left = create_tree_with_copy_history(repo, &histories, &[(foo, "foo"), (bar, "bar")]);
    let foo_val_left = repo.path_value(&left, foo)?;
    let right =
        create_tree_with_copy_history(repo, &histories, &[(foo, "edited foo"), (bar, "bar")]);
    let foo_val_right = repo.path_value(&right, foo)?;
    assert_eq!(
        collect_diffs(repo, &left, &right),
        [expected_normal(foo, &foo_val_left, &foo_val_right)],
    );
    Ok(())
}

#[test]
fn test_copy_diffstream_copy() -> TestResult {
    // CASE: Copy foo.txt -> bar.txt
    let test_repo = TestRepo::init();
    let repo = &test_repo;

    let foo = &repo_path("foo.txt");
    let bar = &repo_path("bar.txt");
    let histories = write_copy_histories(repo, &[(foo, vec![]), (bar, vec![foo])]);

    let left = create_tree_with_copy_history(repo, &histories, &[(foo, "foo")]);
    let foo_val = repo.path_value(&left, foo)?;

    let right = create_tree_with_copy_history(
        repo,
        &histories,
        &[(foo, "foo"), (bar, "bar - copied from foo")],
    );
    let bar_val = repo.path_value(&right, bar)?;

    assert_eq!(
        collect_diffs(repo, &left, &right),
        [expected_copy(foo, &foo_val, bar, &bar_val)],
    );

    // also check reverse diff
    assert_eq!(
        collect_diffs(repo, &right, &left),
        [expected_deletion(bar, &bar_val)],
    );
    Ok(())
}

#[test]
fn test_copy_diffstream_rename() -> TestResult {
    // CASE: remove foo.txt; bar.txt should show up as a Rename
    let test_repo = TestRepo::init();
    let repo = &test_repo;

    let foo = &repo_path("foo.txt");
    let bar = &repo_path("bar.txt");
    let histories = write_copy_histories(repo, &[(foo, vec![]), (bar, vec![foo])]);

    let left = create_tree_with_copy_history(repo, &histories, &[(foo, "foo")]);
    let foo_val = repo.path_value(&left, foo)?;
    let right = create_tree_with_copy_history(repo, &histories, &[(bar, "bar - renamed from foo")]);
    let bar_val = repo.path_value(&right, bar)?;
    assert_eq!(
        collect_diffs(repo, &left, &right),
        [
            expected_rename(foo, &foo_val, bar, &bar_val),
            expected_deletion(foo, &foo_val),
        ],
    );

    // reverse diff
    assert_eq!(
        collect_diffs(repo, &right, &left),
        [
            expected_deletion(bar, &bar_val),
            expected_rename(bar, &bar_val, foo, &foo_val),
        ],
    );
    Ok(())
}

#[test]
fn test_copy_diffstream_file_dir_mismatch() -> TestResult {
    // CASE: file / dir mismatch
    let test_repo = TestRepo::init();
    let repo = &test_repo;

    let file_dir_path = &repo_path("file_or_dir");
    let file_dir_subpath = &repo_path("file_or_dir/file");
    let histories =
        write_copy_histories(repo, &[(file_dir_path, vec![]), (file_dir_subpath, vec![])]);
    let left =
        create_tree_with_copy_history(repo, &histories, &[(file_dir_path, "a file for now")]);
    let file_val = repo.path_value(&left, file_dir_path)?;
    let right =
        create_tree_with_copy_history(repo, &histories, &[(file_dir_subpath, "parent is a dir")]);
    let subpath_val = repo.path_value(&right, file_dir_subpath)?;
    assert_eq!(
        collect_diffs(repo, &left, &right),
        [
            expected_deletion(file_dir_path, &file_val),
            expected_creation(file_dir_subpath, &subpath_val),
        ],
    );

    // backwards diff
    assert_eq!(
        collect_diffs(repo, &right, &left),
        [
            expected_creation(file_dir_path, &file_val),
            expected_deletion(file_dir_subpath, &subpath_val),
        ],
    );
    Ok(())
}

#[test]
fn test_copy_diffstream_symlink_mismatch() -> TestResult {
    // CASE: file / symlink mismatch
    let test_repo = TestRepo::init();
    let repo = &test_repo;

    let path = &repo_path("file_or_symlink");
    let histories = write_copy_histories(repo, &[(path, vec![])]);
    let left = create_tree_with_copy_history(repo, &histories, &[(path, "a file for now")]);
    let file_val = repo.path_value(&left, path)?;

    let symlink = Node::Symlink("./symlink_target".as_bytes().to_vec());
    let right = MergedTree::resolved(repo.store().clone(), repo.write_paths(&[(path, symlink)]));
    let symlink_val = repo.path_value(&right, path)?;

    assert_eq!(
        collect_diffs(repo, &left, &right),
        [expected_normal(path, &file_val, &symlink_val)],
    );

    // N.B.: this case is asymmetric because of copy-history tracking when the right
    // side is a file.
    assert_eq!(
        collect_diffs(repo, &right, &left),
        [
            expected_deletion(path, &symlink_val),
            expected_creation(path, &file_val),
        ],
    );
    Ok(())
}

#[test]
fn test_copy_diffstream_symlink_with_history() -> TestResult {
    let test_repo = TestRepo::init();
    let repo = &test_repo;

    let path = &repo_path("file_or_symlink");
    let other_path = &repo_path("other_file");
    let histories = write_copy_histories(repo, &[(other_path, vec![]), (path, vec![other_path])]);
    let left = create_tree_with_copy_history(
        repo,
        &histories,
        &[(path, "a file for now"), (other_path, "other file")],
    );
    let file_val = repo.path_value(&left, path)?;

    let symlink = Node::Symlink("./symlink_target".as_bytes().to_vec());
    let other_id = repo.write_copy(history_of(&histories, other_path));
    let other = file_node("other file", &other_id);
    let right = MergedTree::resolved(
        repo.store().clone(),
        repo.write_paths(&[(path, symlink), (other_path, other)]),
    );
    let symlink_val = repo.path_value(&right, path)?;
    let other_val = repo.path_value(&right, other_path)?;

    assert_eq!(
        collect_diffs(repo, &left, &right),
        [expected_normal(path, &file_val, &symlink_val)],
    );

    assert_eq!(
        collect_diffs(repo, &right, &left),
        [
            expected_deletion(path, &symlink_val),
            expected_copy(other_path, &other_val, path, &file_val),
        ],
    );
    Ok(())
}

#[test]
fn test_copy_diffstream_distinct_histories() -> TestResult {
    // CASE: same path, unrelated ancestries; e.g. a path is created, then
    // deleted, then recreated.
    let test_repo = TestRepo::init();
    let repo = &test_repo;

    let foo = &repo_path("foo.txt");
    let histories1: Histories = vec![(
        foo.clone(),
        CopyHistory {
            current_path: foo.clone(),
            parents: vec![],
            salt: vec![1], // Use a salt to create a distinct CopyHistory
        },
    )];
    let histories2: Histories = vec![(
        foo.clone(),
        CopyHistory {
            current_path: foo.clone(),
            parents: vec![],
            salt: vec![2], // Use a salt to create a distinct CopyHistory
        },
    )];

    let left = create_tree_with_copy_history(repo, &histories1, &[(foo, "first foo")]);
    let foo_val1 = repo.path_value(&left, foo)?;

    let right = create_tree_with_copy_history(repo, &histories2, &[(foo, "second foo")]);
    let foo_val2 = repo.path_value(&right, foo)?;
    assert_eq!(
        collect_diffs(repo, &left, &right),
        [
            expected_deletion(foo, &foo_val1),
            expected_creation(foo, &foo_val2),
        ],
    );
    Ok(())
}

#[test]
fn test_copy_diffstream_dest_conflict() -> TestResult {
    let test_repo = TestRepo::init();
    let repo = &test_repo;

    let foo = &repo_path("foo.txt");
    let bar = &repo_path("bar.txt");
    let histories = write_copy_histories(repo, &[(foo, vec![]), (bar, vec![foo])]);

    // CASE: skip rename detection when there are conflicts
    let left = create_tree_with_copy_history(repo, &histories, &[(foo, "foo")]);
    let foo_val = repo.path_value(&left, foo)?;

    let right1 =
        create_tree_with_copy_history(repo, &histories, &[(bar, "foobar - renamed from foo")]);
    let right2 =
        create_tree_with_copy_history(repo, &histories, &[(bar, "foobaz - renamed from foo")]);
    let right = repo.merge(Merge::from_vec(vec![
        (right1.clone(), "right1".into()),
        (left.clone(), "left".into()),
        (right2.clone(), "right2".into()),
    ]));
    let expected = [
        // bar.txt is conflicted, and does not show copy-history sources despite being renamed from
        // foo.txt
        (
            bar.clone(),
            from_removes_adds(
                vec![CopyHistoryDiffTerm {
                    target_value: None,
                    sources: vec![],
                }],
                vec![
                    CopyHistoryDiffTerm {
                        target_value: repo.path_value(&right1, bar)?.first().clone(),
                        sources: vec![],
                    },
                    CopyHistoryDiffTerm {
                        target_value: repo.path_value(&right2, bar)?.first().clone(),
                        sources: vec![],
                    },
                ],
            ),
        ),
        // foo.txt is deleted; it is not matched against a conflicted target, despite being renamed
        // to bar.txt
        expected_deletion(foo, &foo_val),
    ];
    assert_eq!(collect_diffs(repo, &left, &right), expected);
    Ok(())
}

#[test]
fn test_copy_diffstream_source_conflict() -> TestResult {
    let test_repo = TestRepo::init();
    let repo = &test_repo;

    let foo = &repo_path("foo.txt");
    let bar = &repo_path("bar.txt");
    let histories = write_copy_histories(repo, &[(foo, vec![]), (bar, vec![foo])]);

    // CASE: conflict in source rather than target
    let base_tree = create_tree_with_copy_history(repo, &histories, &[(foo, "foo")]);
    let foo_val = repo.path_value(&base_tree, foo)?;

    let left1 = create_tree_with_copy_history(repo, &histories, &[(foo, "Foo V1")]);
    let left2 = create_tree_with_copy_history(repo, &histories, &[(foo, "foo vX")]);
    let left = repo.merge(Merge::from_vec(vec![
        (left1.clone(), "left1".into()),
        (base_tree.clone(), "base_tree".into()),
        (left2.clone(), "left2".into()),
    ]));
    // Rename foo.txt to bar.txt, with resolved contents
    let right = create_tree_with_copy_history(repo, &histories, &[(bar, "Foo v1.X")]);
    let expected = [
        // bar.txt is not matched against a conflicted source, despite being renamed from foo.txt
        expected_creation(bar, &repo.path_value(&right, bar)?),
        // Conflicted foo.txt is deleted
        (
            foo.clone(),
            Merge::resolved(CopyHistoryDiffTerm {
                target_value: None,
                sources: vec![(
                    CopyHistorySource::Normal,
                    from_removes_adds(
                        vec![foo_val.first().clone()],
                        vec![
                            repo.path_value(&left1, foo)?.first().clone(),
                            repo.path_value(&left2, foo)?.first().clone(),
                        ],
                    ),
                )],
            }),
        ),
    ];
    assert_eq!(collect_diffs(repo, &left, &right), expected);
    Ok(())
}

#[test]
fn test_copy_diffstream_source_and_dest_conflicts() -> TestResult {
    let test_repo = TestRepo::init();
    let repo = &test_repo;

    let foo = &repo_path("foo.txt");
    let bar = &repo_path("bar.txt");
    let histories = write_copy_histories(repo, &[(foo, vec![]), (bar, vec![foo])]);

    // CASE: conflict in both source and target
    let base_tree = create_tree_with_copy_history(repo, &histories, &[(foo, "foo")]);
    let foo_val = repo.path_value(&base_tree, foo)?;

    let left1 = create_tree_with_copy_history(repo, &histories, &[(foo, "Foo V1")]);
    let left2 = create_tree_with_copy_history(repo, &histories, &[(foo, "foo vX")]);
    let left = repo.merge(Merge::from_vec(vec![
        (left1.clone(), "left1".into()),
        (base_tree.clone(), "base_tree".into()),
        (left2.clone(), "left2".into()),
    ]));

    let right1 =
        create_tree_with_copy_history(repo, &histories, &[(bar, "foobar - renamed from foo")]);
    let bar1_val = repo.path_value(&right1, bar)?;
    let right2 =
        create_tree_with_copy_history(repo, &histories, &[(bar, "foobaz - renamed from foo")]);
    let bar2_val = repo.path_value(&right2, bar)?;
    let right = repo.merge(Merge::from_vec(vec![
        (right1.clone(), "right1".into()),
        (base_tree.clone(), "base_tree".into()),
        (right2.clone(), "right2".into()),
    ]));
    let expected = [
        (
            bar.clone(),
            from_removes_adds(
                vec![CopyHistoryDiffTerm {
                    target_value: None,
                    sources: vec![],
                }],
                vec![
                    CopyHistoryDiffTerm {
                        target_value: bar1_val.first().clone(),
                        sources: vec![],
                    },
                    CopyHistoryDiffTerm {
                        target_value: bar2_val.first().clone(),
                        sources: vec![],
                    },
                ],
            ),
        ),
        (
            foo.clone(),
            Merge::resolved(CopyHistoryDiffTerm {
                target_value: None,
                sources: vec![(
                    CopyHistorySource::Normal,
                    from_removes_adds(
                        vec![foo_val.first().clone()],
                        vec![
                            repo.path_value(&left1, foo)?.first().clone(),
                            repo.path_value(&left2, foo)?.first().clone(),
                        ],
                    ),
                )],
            }),
        ),
    ];
    assert_eq!(collect_diffs(repo, &left, &right), expected);
    Ok(())
}

#[test]
fn test_copy_diffstream_multiple_descendants() -> TestResult {
    let test_repo = TestRepo::init();
    let repo = &test_repo;

    let foo = &repo_path("foo.txt");
    let bar = &repo_path("bar.txt");
    let qux = &repo_path("qux.txt");
    let gru = &repo_path("gru.txt");
    let histories = write_copy_histories(
        repo,
        &[
            (foo, vec![]),
            (bar, vec![foo]),
            (qux, vec![bar]),
            (gru, vec![foo]),
        ],
    );

    // CASE: foo has multiple descendants, do we match against the nearest one?
    let left = create_tree_with_copy_history(repo, &histories, &[(gru, "gru")]);
    let gru_val = repo.path_value(&left, gru)?;

    let right = create_tree_with_copy_history(repo, &histories, &[(bar, "bar"), (qux, "qux")]);
    let bar_val = repo.path_value(&right, bar)?;
    let qux_val = repo.path_value(&right, qux)?;
    assert_eq!(
        collect_diffs(repo, &left, &right),
        [
            expected_rename(gru, &gru_val, bar, &bar_val),
            expected_deletion(gru, &gru_val),
            expected_rename(gru, &gru_val, qux, &qux_val),
        ],
    );

    // check reverse diff
    assert_eq!(
        collect_diffs(repo, &right, &left),
        [
            expected_deletion(bar, &bar_val),
            expected_rename(bar, &bar_val, gru, &gru_val),
            expected_deletion(qux, &qux_val),
        ],
    );
    Ok(())
}

fn write_history(repo: &TestRepo, path: &RepoPathBuf, parents: &[&CopyId]) -> CopyId {
    repo.write_copy(&CopyHistory {
        current_path: path.clone(),
        parents: parents.iter().map(|&parent| parent.clone()).collect(),
        salt: vec![],
    })
}

#[test]
fn test_copy_diffstream_same_path_parent() -> TestResult {
    let test_repo = TestRepo::init();
    let repo = &test_repo;

    // CASE: foo is recreated with a new copy history, descending from the original
    // foo
    let foo = &repo_path("foo.txt");
    let foo_copyid1 = write_history(repo, foo, &[]);
    let foo_copyid2 = write_history(repo, foo, &[&foo_copyid1]);

    let left = create_tree_with_copy_id(repo, &[(foo, "Original Foo", &foo_copyid1)]);
    let right = create_tree_with_copy_id(repo, &[(foo, "Foo NG", &foo_copyid2)]);
    let old_foo_val = repo.path_value(&left, foo)?;
    let new_foo_val = repo.path_value(&right, foo)?;

    assert_eq!(
        collect_diffs(repo, &left, &right),
        [
            expected_deletion(foo, &old_foo_val),
            expected_normal(foo, &old_foo_val, &new_foo_val),
        ],
    );

    assert_eq!(
        collect_diffs(repo, &right, &left),
        [
            expected_deletion(foo, &new_foo_val),
            expected_normal(foo, &new_foo_val, &old_foo_val),
        ],
    );
    Ok(())
}

#[test]
fn test_copy_diffstream_merge_oneway() -> TestResult {
    let test_repo = TestRepo::init();
    let repo = &test_repo;

    // CASE: create foo & bar, then merge foo into bar
    let foo = &repo_path("foo.txt");
    let foo_copyid = write_history(repo, foo, &[]);

    let bar = &repo_path("bar.txt");
    let bar_copyid_orig = write_history(repo, bar, &[]);
    let bar_copyid_merged = write_history(repo, bar, &[&foo_copyid, &bar_copyid_orig]);

    let left = create_tree_with_copy_id(
        repo,
        &[(foo, "foo", &foo_copyid), (bar, "bar", &bar_copyid_orig)],
    );
    let right = create_tree_with_copy_id(
        repo,
        &[
            (foo, "foo", &foo_copyid),
            (bar, "foobar - combined foo and bar", &bar_copyid_merged),
        ],
    );
    let foo_val = repo.path_value(&left, foo)?;
    let old_bar_val = repo.path_value(&left, bar)?;
    let new_bar_val = repo.path_value(&right, bar)?;

    assert_eq!(
        collect_diffs(repo, &left, &right),
        [
            expected_deletion(bar, &old_bar_val),
            (
                bar.clone(),
                Merge::resolved(CopyHistoryDiffTerm {
                    target_value: new_bar_val.first().clone(),
                    sources: vec![
                        (CopyHistorySource::Copy(foo.clone()), foo_val.clone()),
                        (CopyHistorySource::Normal, old_bar_val.clone()),
                    ],
                }),
            ),
        ],
    );

    assert_eq!(
        collect_diffs(repo, &right, &left),
        [
            expected_deletion(bar, &new_bar_val),
            expected_normal(bar, &new_bar_val, &old_bar_val),
        ],
    );

    // Now delete foo
    let right_no_foo = create_tree_with_copy_id(
        repo,
        &[(bar, "foobar - combined foo and bar", &bar_copyid_merged)],
    );

    assert_eq!(
        collect_diffs(repo, &left, &right_no_foo),
        [
            expected_deletion(bar, &old_bar_val),
            (
                bar.clone(),
                Merge::resolved(CopyHistoryDiffTerm {
                    target_value: new_bar_val.first().clone(),
                    sources: vec![
                        (CopyHistorySource::Rename(foo.clone()), foo_val.clone()),
                        (CopyHistorySource::Normal, old_bar_val.clone()),
                    ],
                }),
            ),
            expected_deletion(foo, &foo_val),
        ],
    );

    assert_eq!(
        collect_diffs(repo, &right_no_foo, &left),
        [
            expected_deletion(bar, &new_bar_val),
            expected_normal(bar, &new_bar_val, &old_bar_val),
            expected_copy(bar, &new_bar_val, foo, &foo_val),
        ],
    );
    Ok(())
}

#[test]
fn test_copy_diffstream_merge_twoway() -> TestResult {
    let test_repo = TestRepo::init();
    let repo = &test_repo;

    // CASE: create foo & bar, then merge foo into bar and bar into foo
    let foo = &repo_path("foo.txt");
    let foo_copyid_orig = write_history(repo, foo, &[]);

    let bar = &repo_path("bar.txt");
    let bar_copyid_orig = write_history(repo, bar, &[]);

    let foo_copyid_merged = write_history(repo, foo, &[&foo_copyid_orig, &bar_copyid_orig]);
    let bar_copyid_merged = write_history(repo, bar, &[&foo_copyid_orig, &bar_copyid_orig]);

    let left = create_tree_with_copy_id(
        repo,
        &[
            (foo, "foo", &foo_copyid_orig),
            (bar, "bar", &bar_copyid_orig),
        ],
    );
    let right = create_tree_with_copy_id(
        repo,
        &[
            (foo, "barfoo - combined foo and bar", &foo_copyid_merged),
            (bar, "foobar - combined foo and bar", &bar_copyid_merged),
        ],
    );
    let old_foo_val = repo.path_value(&left, foo)?;
    let old_bar_val = repo.path_value(&left, bar)?;
    let new_foo_val = repo.path_value(&right, foo)?;
    let new_bar_val = repo.path_value(&right, bar)?;

    assert_eq!(
        collect_diffs(repo, &left, &right),
        [
            expected_deletion(bar, &old_bar_val),
            (
                bar.clone(),
                Merge::resolved(CopyHistoryDiffTerm {
                    target_value: new_bar_val.first().clone(),
                    sources: vec![
                        (CopyHistorySource::Copy(foo.clone()), old_foo_val.clone()),
                        (CopyHistorySource::Normal, old_bar_val.clone()),
                    ],
                }),
            ),
            expected_deletion(foo, &old_foo_val),
            (
                foo.clone(),
                Merge::resolved(CopyHistoryDiffTerm {
                    target_value: new_foo_val.first().clone(),
                    sources: vec![
                        (CopyHistorySource::Normal, old_foo_val.clone()),
                        (CopyHistorySource::Copy(bar.clone()), old_bar_val.clone()),
                    ],
                }),
            ),
        ],
    );

    // NOTE: the copy-detection in this test case is somewhat arbitrary. It depends
    // on the ordering of the `CopyId`s involved. With the IDs that are given here,
    // we end up with a copy from foo to bar, and a "normal" diff for foo.
    assert_eq!(
        collect_diffs(repo, &right, &left),
        [
            expected_deletion(bar, &new_bar_val),
            expected_copy(foo, &new_foo_val, bar, &old_bar_val),
            expected_deletion(foo, &new_foo_val),
            expected_normal(foo, &new_foo_val, &old_foo_val),
        ],
    );
    Ok(())
}

#[test]
fn test_copy_diffstream_rename_overwrite() -> TestResult {
    let test_repo = TestRepo::init();
    let repo = &test_repo;

    let foo = &repo_path("foo.txt");
    let foo_copyid_orig = write_history(repo, foo, &[]);

    let bar = &repo_path("bar.txt");
    let bar_copyid_orig = write_history(repo, bar, &[]);
    let bar_copyid_copied = write_history(repo, bar, &[&foo_copyid_orig]);

    let left = create_tree_with_copy_id(
        repo,
        &[
            (foo, "foo", &foo_copyid_orig),
            (bar, "bar", &bar_copyid_orig),
        ],
    );
    let right = create_tree_with_copy_id(repo, &[(bar, "renamed from foo", &bar_copyid_copied)]);
    let foo_val = repo.path_value(&left, foo)?;
    let old_bar_val = repo.path_value(&left, bar)?;
    let new_bar_val = repo.path_value(&right, bar)?;

    assert_eq!(
        collect_diffs(repo, &left, &right),
        [
            expected_deletion(bar, &old_bar_val),
            expected_rename(foo, &foo_val, bar, &new_bar_val),
            expected_deletion(foo, &foo_val),
        ],
    );

    assert_eq!(
        collect_diffs(repo, &right, &left),
        [
            expected_deletion(bar, &new_bar_val),
            expected_creation(bar, &old_bar_val),
            expected_rename(bar, &new_bar_val, foo, &foo_val),
        ],
    );

    // Copy bar back to foo
    let foo_copyid_copied = write_history(repo, foo, &[&bar_copyid_copied]);
    let right2 = create_tree_with_copy_id(
        repo,
        &[(
            foo,
            "renamed from foo to bar and back to foo again",
            &foo_copyid_copied,
        )],
    );
    let final_foo_val = repo.path_value(&right2, foo)?;

    assert_eq!(
        collect_diffs(repo, &left, &right2),
        [
            expected_deletion(bar, &old_bar_val),
            expected_deletion(foo, &foo_val),
            expected_normal(foo, &foo_val, &final_foo_val),
        ],
    );

    assert_eq!(
        collect_diffs(repo, &right2, &left),
        [
            expected_creation(bar, &old_bar_val),
            expected_deletion(foo, &final_foo_val),
            expected_normal(foo, &final_foo_val, &foo_val),
        ],
    );
    Ok(())
}

#[test]
fn test_copy_diffstream_double_rename() -> TestResult {
    let test_repo = TestRepo::init();
    let repo = &test_repo;

    let foo = &repo_path("foo.txt");
    let foo_copyid_orig = write_history(repo, foo, &[]);

    let bar = &repo_path("bar.txt");
    let bar_copyid_orig = write_history(repo, bar, &[]);

    let foo_copyid_copied = write_history(repo, foo, &[&bar_copyid_orig]);
    let bar_copyid_copied = write_history(repo, bar, &[&foo_copyid_orig]);

    let left = create_tree_with_copy_id(
        repo,
        &[
            (foo, "foo", &foo_copyid_orig),
            (bar, "bar", &bar_copyid_orig),
        ],
    );
    let right = create_tree_with_copy_id(
        repo,
        &[
            (foo, "originally bar", &foo_copyid_copied),
            (bar, "originally foo", &bar_copyid_copied),
        ],
    );
    let old_foo_val = repo.path_value(&left, foo)?;
    let old_bar_val = repo.path_value(&left, bar)?;
    let new_foo_val = repo.path_value(&right, foo)?;
    let new_bar_val = repo.path_value(&right, bar)?;

    assert_eq!(
        collect_diffs(repo, &left, &right),
        [
            expected_deletion(bar, &old_bar_val),
            expected_rename(foo, &old_foo_val, bar, &new_bar_val),
            expected_deletion(foo, &old_foo_val),
            expected_rename(bar, &old_bar_val, foo, &new_foo_val),
        ],
    );

    assert_eq!(
        collect_diffs(repo, &right, &left),
        [
            expected_deletion(bar, &new_bar_val),
            expected_rename(foo, &new_foo_val, bar, &old_bar_val),
            expected_deletion(foo, &new_foo_val),
            expected_rename(bar, &new_bar_val, foo, &old_foo_val),
        ],
    );
    Ok(())
}

#[test]
fn test_edit_plus_rename() {
    let test_repo = TestRepo::init();
    let repo = &test_repo;
    let store = repo.store();

    let foo = &repo_path("foo");
    let bar = &repo_path("bar");

    // Define copy history: file1 -> file2 -> file3
    let histories = write_copy_histories(repo, &[(foo, vec![]), (bar, vec![foo])]);

    let add0 = create_tree_with_copy_history(repo, &histories, &[(foo, "foo plus edits")]);
    let rem0 = create_tree_with_copy_history(repo, &histories, &[(foo, "foo")]);
    let add1 = create_tree_with_copy_history(repo, &histories, &[(bar, "foo")]);

    let merge = Merge::from_vec(vec![
        add0.tree_ids().get_add(0).unwrap().clone(),
        rem0.tree_ids().get_add(0).unwrap().clone(),
        add1.tree_ids().get_add(0).unwrap().clone(),
    ]);

    let trees = MergedTree::new(store.clone(), merge.clone(), ConflictLabels::unlabeled());
    let rename_map = repo.rename_map(&trees).unwrap();
    assert!(rename_map.contains_key(foo));
    let foo_renames = rename_map.get(foo).unwrap();
    assert!(foo_renames.is_resolved());
    assert_eq!(foo_renames.get_add(0).unwrap(), &None);
    assert!(rename_map.contains_key(bar));
    let bar_renames = rename_map.get(bar).unwrap();
    assert_eq!(bar_renames.num_sides(), merge.num_sides());
    assert_eq!(bar_renames.get_add(0).unwrap(), &Some(foo.clone()));
    assert_eq!(bar_renames.get_remove(0).unwrap(), &Some(foo.clone()));
    assert_eq!(bar_renames.get_add(1).unwrap(), &Some(bar.clone()));
}

#[test]
fn test_edit_plus_copy() {
    let test_repo = TestRepo::init();
    let repo = &test_repo;
    let store = repo.store();

    let foo = &repo_path("foo");
    let bar = &repo_path("bar");

    // Define copy history: file1 -> file2 -> file3
    let histories = write_copy_histories(repo, &[(foo, vec![]), (bar, vec![foo])]);

    let add0 = create_tree_with_copy_history(repo, &histories, &[(foo, "foo plus edits")]);
    let rem0 = create_tree_with_copy_history(repo, &histories, &[(foo, "foo")]);
    let add1 = create_tree_with_copy_history(repo, &histories, &[(foo, "foo"), (bar, "foo")]);

    let merge = Merge::from_vec(vec![
        add0.tree_ids().get_add(0).unwrap().clone(),
        rem0.tree_ids().get_add(0).unwrap().clone(),
        add1.tree_ids().get_add(0).unwrap().clone(),
    ]);

    let trees = MergedTree::new(store.clone(), merge.clone(), ConflictLabels::unlabeled());
    let rename_map = repo.rename_map(&trees).unwrap();
    assert!(rename_map.contains_key(foo));
    let foo_renames = rename_map.get(foo).unwrap();
    assert_eq!(foo_renames.num_sides(), merge.num_sides());
    assert_eq!(foo_renames.get_add(0).unwrap(), &Some(foo.clone()));
    assert_eq!(foo_renames.get_remove(0).unwrap(), &Some(foo.clone()));
    assert_eq!(foo_renames.get_add(1).unwrap(), &Some(foo.clone()));
    assert!(rename_map.contains_key(bar));
    let bar_renames = rename_map.get(bar).unwrap();
    assert_eq!(bar_renames.num_sides(), merge.num_sides());
    assert_eq!(bar_renames.get_add(0).unwrap(), &Some(foo.clone()));
    assert_eq!(bar_renames.get_remove(0).unwrap(), &Some(foo.clone()));
    assert_eq!(bar_renames.get_add(1).unwrap(), &Some(bar.clone()));
}

#[test]
fn test_five_way_rename_and_copy_merge() {
    let test_repo = TestRepo::init();
    let repo = &test_repo;
    let store = repo.store();

    let foo = &repo_path("foo");
    let bar = &repo_path("bar");
    let baz = &repo_path("baz");

    // Define copy history: file1 -> file2 -> file3
    let histories =
        write_copy_histories(repo, &[(foo, vec![]), (bar, vec![foo]), (baz, vec![foo])]);

    let add0 = create_tree_with_copy_history(repo, &histories, &[(foo, "foo plus edits")]);
    let rem0 = create_tree_with_copy_history(repo, &histories, &[(foo, "foo")]);
    let add1 = create_tree_with_copy_history(repo, &histories, &[(foo, "foo"), (bar, "foo")]);
    // rem1 == rem0
    let add2 = create_tree_with_copy_history(repo, &histories, &[(baz, "foo")]);

    let merge = Merge::from_vec(vec![
        add0.tree_ids().get_add(0).unwrap().clone(),
        rem0.tree_ids().get_add(0).unwrap().clone(),
        add1.tree_ids().get_add(0).unwrap().clone(),
        rem0.tree_ids().get_add(0).unwrap().clone(),
        add2.tree_ids().get_add(0).unwrap().clone(),
    ]);

    let trees = MergedTree::new(store.clone(), merge.clone(), ConflictLabels::unlabeled());
    let rename_map = repo.rename_map(&trees).unwrap();
    assert!(rename_map.contains_key(foo));
    let foo_renames = rename_map.get(foo).unwrap();
    assert!(foo_renames.is_resolved());
    assert_eq!(foo_renames.get_add(0).unwrap(), &None);
    assert!(rename_map.contains_key(bar));
    let bar_renames = rename_map.get(bar).unwrap();
    assert_eq!(bar_renames.num_sides(), merge.num_sides());
    assert_eq!(bar_renames.get_add(0).unwrap(), &Some(foo.clone()));
    assert_eq!(bar_renames.get_remove(0).unwrap(), &Some(foo.clone()));
    assert_eq!(bar_renames.get_add(1).unwrap(), &Some(bar.clone()));
    assert_eq!(bar_renames.get_remove(1).unwrap(), &Some(foo.clone()));
    assert_eq!(bar_renames.get_add(2).unwrap(), &Some(baz.clone()));
}

#[test]
fn streams_with_several_reads_at_once() {
    let test_repo = TestRepo::with_concurrency(4);
    let repo = &test_repo;
    let paths: Vec<RepoPathBuf> = ["a/1", "a/2/x", "b", "c/y/z", "d/w"]
        .iter()
        .map(|path| repo_path(path))
        .collect();
    let before: Vec<_> = paths[..4].iter().map(|path| (path, "before")).collect();
    let after: Vec<_> = paths[1..].iter().map(|path| (path, "after")).collect();
    let tree1 = create_tree(repo, &before);
    let tree2 = create_tree(repo, &after);
    let diff = diff_tuples(repo, &tree1, &tree2, &EverythingMatcher);
    let diff_paths: Vec<_> = diff.into_iter().map(|(path, _)| path).collect();
    assert_eq!(diff_paths, paths);
    diff_stream_equals_iter(repo, &tree1, &tree2, &EverythingMatcher);
}

#[test]
fn reversed_differences() {
    let test_repo = TestRepo::init();
    let repo = &test_repo;
    let tree1 = create_tree(repo, &[(&repo_path("a"), "1"), (&repo_path("b/c"), "2")]);
    let tree2 = create_tree(repo, &[(&repo_path("a/d"), "3"), (&repo_path("b/c"), "4")]);
    let forward = diff_with_trees_tuples(repo, &tree1, &tree2, &EverythingMatcher);
    let backward = diff_with_trees_tuples(repo, &tree2, &tree1, &EverythingMatcher);
    let turned: Vec<_> = backward
        .into_iter()
        .map(|(path, (before, after))| (path, (after, before)))
        .collect();
    assert_eq!(forward, turned);
    assert!(repo.diff(&tree1, &tree1, &EverythingMatcher).is_empty());
}

#[test]
fn removed_files_before_a_file_that_replaces_them() {
    let test_repo = TestRepo::init();
    let repo = &test_repo;
    let tree1 = create_tree(
        repo,
        &[
            (&repo_path("a"), "1"),
            (&repo_path("b/c"), "2"),
            (&repo_path("b/d/e"), "3"),
            (&repo_path("f"), "4"),
        ],
    );
    let tree2 = create_tree(
        repo,
        &[
            (&repo_path("a"), "5"),
            (&repo_path("b"), "6"),
            (&repo_path("f/g"), "7"),
        ],
    );
    let paths: Vec<_> = repo
        .diff_for_file_system(&tree1, &tree2, &EverythingMatcher)
        .into_iter()
        .map(|entry| entry.path.as_internal_file_string())
        .collect();
    assert_eq!(paths, ["a", "b/c", "b/d/e", "b", "f", "f/g"]);
    // In the plain diff, they come after it.
    let paths: Vec<_> = repo
        .diff(&tree1, &tree2, &EverythingMatcher)
        .into_iter()
        .map(|entry| entry.path.as_internal_file_string())
        .collect();
    assert_eq!(paths, ["a", "b", "b/c", "b/d/e", "f", "f/g"]);
}

fn forget_dir(repo: &TestRepo, tree: &MergedTree, dir: &RepoPathBuf) {
    let value = repo.path_value(tree, dir).unwrap();
    let Some(Some(TreeValue::Tree(id))) = value.as_resolved() else {
        panic!("not a directory");
    };
    repo.data
        .borrow_mut()
        .missing_trees
        .insert(id.as_bytes().to_vec());
}

#[test]
fn errors_stay_at_their_directory() {
    let test_repo = TestRepo::init();
    let repo = &test_repo;
    let files = [
        (&repo_path("a/x"), "1"),
        (&repo_path("b/x"), "2"),
        (&repo_path("c"), "3"),
    ];
    let tree1 = create_tree(repo, &files);
    let tree2 = create_tree(repo, &[(&repo_path("b/y"), "4")]);
    forget_dir(repo, &tree1, &repo_path("a"));

    let entries: Vec<_> = repo
        .collect_entries(tree1.entries())
        .into_iter()
        .map(|(path, value)| (path, value.is_ok()))
        .collect();
    assert_eq!(
        entries,
        [
            (repo_path("a"), false),
            (repo_path("b/x"), true),
            (repo_path("c"), true)
        ]
    );
    assert!(repo.path_value(&tree1, &repo_path("a/x")).is_err());
    assert!(repo.path_value(&tree1, &repo_path("b/x")).is_ok());

    let iterated: Vec<_> = repo
        .diff(&tree1, &tree2, &EverythingMatcher)
        .into_iter()
        .map(|entry| (entry.path, entry.values.is_ok()))
        .collect();
    assert_eq!(
        iterated,
        [
            (repo_path("a"), false),
            (repo_path("b/x"), true),
            (repo_path("b/y"), true),
            (repo_path("c"), true)
        ]
    );
    let stream = TreeDiffStreamImpl::new(&tree1, &tree2, &EverythingMatcher, 10);
    let streamed: Vec<_> = repo
        .run_stream(stream, |n| n - 1)
        .into_iter()
        .filter_map(without_trees)
        .map(|entry| (entry.path, entry.values.is_ok()))
        .collect();
    assert_eq!(streamed, iterated);
}

#[test]
fn copies_with_unreadable_source() {
    let test_repo = TestRepo::init();
    let repo = &test_repo;
    let tree1 = create_tree(repo, &[(&repo_path("a/x"), "1")]);
    let tree2 = create_tree(repo, &[(&repo_path("a/x"), "1"), (&repo_path("b"), "1")]);
    let records = create_copy_records(&[(&repo_path("a/x"), &repo_path("b"))]);
    forget_dir(repo, &tree1, &repo_path("a"));
    let diff = repo.diff_with_copies(&tree1, &tree2, &EverythingMatcher, &records);
    assert_eq!(diff.len(), 1);
    // Fall back to "copy" if unknown.
    assert_eq!(
        diff[0].path,
        CopiesTreeDiffEntryPath {
            source: Some((repo_path("a/x"), CopyOperation::Copy)),
            target: repo_path("b"),
        }
    );
    assert!(diff[0].values.is_err());
}

fn conflict_of(repo: &TestRepo, trees: &[&MergedTree]) -> MergedTree {
    let ids = trees
        .iter()
        .map(|tree| tree.tree_ids().first().clone())
        .collect();
    MergedTree::new(
        repo.store().clone(),
        Merge::from_vec(ids),
        ConflictLabels::unlabeled(),
    )
}

#[test]
fn rename_maps_without_renames() {
    let test_repo = TestRepo::init();
    let repo = &test_repo;
    let tree = create_tree(repo, &[(&repo_path("a"), "1")]);
    // A resolved tree has no renames.
    assert!(repo.rename_map(&tree).unwrap().is_empty());
    // Nor has a conflict without differences, or one with edits only.
    let same = conflict_of(repo, &[&tree, &tree, &tree]);
    assert!(repo.rename_map(&same).unwrap().is_empty());
    let other = create_tree(repo, &[(&repo_path("a"), "2")]);
    let edited = conflict_of(repo, &[&other, &tree, &tree]);
    assert!(repo.rename_map(&edited).unwrap().is_empty());
}

#[test]
fn rename_maps_without_copy_support() {
    let test_repo = TestRepo::init();
    let repo = &test_repo;
    let (foo, bar) = (&repo_path("foo"), &repo_path("bar"));
    let histories = write_copy_histories(repo, &[(foo, vec![]), (bar, vec![foo])]);
    let add0 = create_tree_with_copy_history(repo, &histories, &[(foo, "edited")]);
    let rem0 = create_tree_with_copy_history(repo, &histories, &[(foo, "foo")]);
    let add1 = create_tree_with_copy_history(repo, &histories, &[(bar, "foo")]);
    let conflict = conflict_of(repo, &[&add0, &rem0, &add1]);
    assert!(!repo.rename_map(&conflict).unwrap().is_empty());
    repo.data.borrow_mut().no_copies = true;
    assert!(repo.rename_map(&conflict).unwrap().is_empty());
}

#[test]
fn rename_map_of_divergent_renames() {
    let test_repo = TestRepo::init();
    let repo = &test_repo;
    let (foo, bar, baz) = (&repo_path("foo"), &repo_path("bar"), &repo_path("baz"));
    let histories =
        write_copy_histories(repo, &[(foo, vec![]), (bar, vec![foo]), (baz, vec![foo])]);
    let add0 = create_tree_with_copy_history(repo, &histories, &[(bar, "foo")]);
    let rem0 = create_tree_with_copy_history(repo, &histories, &[(foo, "foo")]);
    let add1 = create_tree_with_copy_history(repo, &histories, &[(baz, "foo")]);
    let conflict = conflict_of(repo, &[&add0, &rem0, &add1]);
    let map = repo.rename_map(&conflict).unwrap();
    assert_eq!(map.len(), 3);
    assert_eq!(map.get(foo), Some(&Merge::absent()));
    // Each target has the source in the terms that it comes from.
    assert_eq!(
        map.get(bar),
        Some(&Merge::from_vec(vec![
            Some(bar.clone()),
            Some(foo.clone()),
            None
        ]))
    );
    assert_eq!(
        map.get(baz),
        Some(&Merge::from_vec(vec![
            None,
            Some(foo.clone()),
            Some(baz.clone())
        ]))
    );
}

/// Selects and visits nothing.
struct NothingMatcher;

impl Matcher for NothingMatcher {
    fn matches(&self, _path: &RepoPathBuf) -> bool {
        false
    }

    fn visit(&self, _path: &RepoPathBuf) -> Visit {
        Visit::Nothing
    }
}

#[test]
fn nothing_selected() {
    let test_repo = TestRepo::init();
    let repo = &test_repo;
    let tree1 = create_tree(repo, &[(&repo_path("a"), "1"), (&repo_path("b/c"), "2")]);
    let tree2 = create_tree(repo, &[(&repo_path("a"), "2"), (&repo_path("b/d"), "2")]);
    assert!(diff_with_trees_tuples(repo, &tree1, &tree2, &NothingMatcher).is_empty());
    diff_stream_equals_iter(repo, &tree1, &tree2, &NothingMatcher);
}

/// Selects and visits the given paths only.
struct ListMatcher {
    selected: Vec<RepoPathBuf>,
    visited: Vec<RepoPathBuf>,
}

impl Matcher for ListMatcher {
    fn matches(&self, path: &RepoPathBuf) -> bool {
        self.selected.contains(path)
    }

    fn visit(&self, path: &RepoPathBuf) -> Visit {
        if self.visited.contains(path) {
            Visit::Specific
        } else {
            Visit::Nothing
        }
    }
}

#[test]
fn streams_and_iterators_without_a_visited_root() {
    let test_repo = TestRepo::init();
    let repo = &test_repo;
    let tree1 = create_tree(repo, &[(&repo_path("a"), "1"), (&repo_path("b/c"), "2")]);
    let tree2 = create_tree(repo, &[(&repo_path("a"), "2"), (&repo_path("b/d"), "2")]);
    let both = |tree: &MergedTree, matcher: &ListMatcher| {
        let iterator = repo.run_iterator(TreeDiffIterator::new(&tree1, tree, matcher));
        let stream = repo.run_stream(TreeDiffStreamImpl::new(&tree1, tree, matcher, 10), |_| 0);
        let paths = |entries: Vec<TreeDiffEntry>| -> Vec<RepoPathBuf> {
            entries.into_iter().map(|entry| entry.path).collect()
        };
        (paths(iterator), paths(stream))
    };
    // A directory is visited, but nothing is selected.
    let visits_only = ListMatcher {
        selected: vec![],
        visited: vec![repo_path("b")],
    };
    assert_eq!(both(&tree2, &visits_only), (vec![], vec![]));
    // The stream alone shows what is selected.
    let root = ListMatcher {
        selected: vec![RepoPathBuf::root()],
        visited: vec![],
    };
    assert_eq!(both(&tree2, &root), (vec![], vec![RepoPathBuf::root()]));
    let file = ListMatcher {
        selected: vec![repo_path("a")],
        visited: vec![],
    };
    assert_eq!(both(&tree2, &file), (vec![], vec![repo_path("a")]));
    // Between trees that are the same, there is nothing to show.
    assert_eq!(both(&tree1, &root), (vec![], vec![]));
    assert_eq!(both(&tree1, &file), (vec![], vec![]));
}
