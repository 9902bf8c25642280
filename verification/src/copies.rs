//! Code for working with copies and renames.

pub use crate::copy_graph::CopyGraph;
pub use crate::copy_graph::is_ancestor;
pub use crate::copy_history_stream::CopyHistoryDiffStream;
pub use crate::copy_source::CopyHistoryDiffTerm;
pub use crate::copy_source::CopyHistorySource;
pub use crate::copy_source::CopyHistoryTreeDiffEntry;
pub use crate::rename_scan::RenameMap;
pub use crate::rename_scan::compute_rename_map;

use crate::backend::BackendError;
use crate::backend::BackendResult;
use crate::backend::CopyRecord;
use crate::merge;
use crate::merge::Diff;
use crate::merged_tree::MergedTree;
use crate::path_map::PathMap;
use crate::repo_path::PathView;
use crate::repo_path::RepoPathBuf;
use crate::tree_diff;
use crate::tree_diff::DiffResult;
use crate::tree_diff::TreeDiffEntry;
use crate::tree_value;
use crate::tree_value::MergedTreeValue;
use crate::tree_value::MergedValueView;
use crate::value::Value;
use crate::vectors;
use vstd::prelude::*;

verus! {

/// Whether `place` is the only place of `path` in the list.
pub open spec fn is_sole_place(paths: Seq<PathView>, path: PathView, place: int) -> bool {
    &&& 0 <= place < paths.len()
    &&& paths[place] == path
    &&& forall|i: int| 0 <= i < paths.len() && #[trigger] paths[i] == path ==> i == place
}

/// The place of `path` in the list, if there is exactly one.
pub open spec fn sole_place(paths: Seq<PathView>, path: PathView) -> Option<int> {
    if exists|place: int| is_sole_place(paths, path, place) {
        Some(choose|place: int| is_sole_place(paths, path, place))
    } else {
        None
    }
}

/// The source paths of the records.
pub open spec fn sources_of(records: Seq<CopyRecord>) -> Seq<PathView> {
    Seq::new(records.len(), |i: int| records[i].source@)
}

/// The target paths of the records.
pub open spec fn targets_of(records: Seq<CopyRecord>) -> Seq<PathView> {
    Seq::new(records.len(), |i: int| records[i].target@)
}

/// Whether a record says the same as the only record that there is for its
/// target.
pub open spec fn is_duplicate(records: Seq<CopyRecord>, record: CopyRecord) -> bool {
    match sole_place(targets_of(records), record.target@) {
        Some(i) => records[i].source@ == record.source@,
        None => false,
    }
}

/// The records once more of them have been added. Duplicates are left out.
pub open spec fn with_records(records: Seq<CopyRecord>, added: Seq<CopyRecord>) -> Seq<CopyRecord>
    decreases added.len(),
{
    if added.len() == 0 {
        records
    } else {
        let before = with_records(records, added.drop_last());
        if is_duplicate(before, added.last()) {
            before
        } else {
            before.push(added.last())
        }
    }
}

/// Whether the map has the place of each path of the list that occurs there
/// once, and an out of range value for those that occur more often.
spec fn is_index(map: Map<PathView, usize>, paths: Seq<PathView>) -> bool {
    forall|p: PathView|
        {
            &&& #[trigger] map.dom().contains(p) == paths.contains(p)
            &&& map.dom().contains(p) ==> match sole_place(paths, p) {
                Some(place) => map[p] == place,
                None => map[p] == usize::MAX,
            }
        }
}

proof fn lemma_sole_place(paths: Seq<PathView>, path: PathView, place: int)
    requires
        is_sole_place(paths, path, place),
    ensures
        sole_place(paths, path) == Some(place),
{
    let other = choose|place: int| is_sole_place(paths, path, place);
    assert(is_sole_place(paths, path, other));
}

/// The index of a list with one more path.
proof fn lemma_index_push(map: Map<PathView, usize>, paths: Seq<PathView>, path: PathView)
    requires
        is_index(map, paths),
        paths.len() < usize::MAX,
    ensures
        is_index(
            map.insert(
                path,
                if map.dom().contains(path) {
                    usize::MAX
                } else {
                    paths.len() as usize
                },
            ),
            paths.push(path),
        ),
{
    let next = paths.push(path);
    let value = if map.dom().contains(path) {
        usize::MAX
    } else {
        paths.len() as usize
    };
    let after = map.insert(path, value);
    let n = paths.len() as int;
    assert forall|p: PathView|
        {
            &&& #[trigger] after.dom().contains(p) == next.contains(p)
            &&& after.dom().contains(p) ==> match sole_place(next, p) {
                Some(place) => after[p] == place,
                None => after[p] == usize::MAX,
            }
        } by {
        assert(map.dom().contains(p) == paths.contains(p));
        assert(next[n] == path);
        if paths.contains(p) {
            let i = choose|i: int| 0 <= i < paths.len() && paths[i] == p;
            assert(next[i] == p);
        }
        if next.contains(p) && p != path {
            let i = choose|i: int| 0 <= i < next.len() && next[i] == p;
            assert(paths[i] == p);
        }
        if p == path {
            if paths.contains(p) {
                let i = choose|i: int| 0 <= i < paths.len() && paths[i] == p;
                assert(next[i] == p && next[n] == p);
                assert(sole_place(next, p) is None) by {
                    if exists|place: int| is_sole_place(next, p, place) {
                        let place = choose|place: int| is_sole_place(next, p, place);
                        assert(i == place && n == place);
                    }
                }
            } else {
                assert(is_sole_place(next, p, n)) by {
                    assert forall|i: int| 0 <= i < next.len() && #[trigger] next[i] == p implies i
                        == n by {
                        if i < n {
                            assert(paths[i] == p);
                        }
                    }
                }
                lemma_sole_place(next, p, n);
            }
        } else if paths.contains(p) {
            if let Some(place) = sole_place(paths, p) {
                assert(is_sole_place(paths, p, place));
                assert(is_sole_place(next, p, place)) by {
                    assert(next[place] == p);
                    assert forall|i: int| 0 <= i < next.len() && #[trigger] next[i] == p implies i
                        == place by {
                        assert(i < n);
                        assert(paths[i] == p);
                    }
                }
                lemma_sole_place(next, p, place);
            } else {
                assert(sole_place(next, p) is None) by {
                    if exists|place: int| is_sole_place(next, p, place) {
                        let place = choose|place: int| is_sole_place(next, p, place);
                        assert(place < n);
                        assert(is_sole_place(paths, p, place)) by {
                            assert(paths[place] == p);
                            assert forall|i: int|
                                0 <= i < paths.len() && #[trigger] paths[i] == p implies i
                                == place by {
                                assert(next[i] == p);
                            }
                        }
                    }
                }
            }
        }
    }
}

/// A collection of CopyRecords.
#[derive(Debug)]
pub struct CopyRecords {
    records: Vec<CopyRecord>,
    // Maps from `source` or `target` to the index of the entry in `records`.
    // Conflicts are excluded by keeping an out of range value.
    sources: PathMap<usize>,
    targets: PathMap<usize>,
}

impl Default for CopyRecords {
    fn default() -> (r: Self)
        ensures
            r.records() == Seq::<CopyRecord>::empty(),
    {
        CopyRecords { records: Vec::new(), sources: PathMap::new(), targets: PathMap::new() }
    }
}

/// Adds a path to an index.
fn add_to_index(map: &mut PathMap<usize>, path: &RepoPathBuf, place: usize)
    ensures
        final(map)@ == old(map)@.insert(
            path@,
            if old(map)@.dom().contains(path@) {
                usize::MAX
            } else {
                place
            },
        ),
{
    let value = if map.contains_key(path) {
        usize::MAX
    } else {
        place
    };
    map.insert(path.clone(), value);
}

impl CopyRecords {
    #[verifier::type_invariant]
    spec fn type_inv(self) -> bool {
        &&& is_index(self.sources@, sources_of(self.records@))
        &&& is_index(self.targets@, targets_of(self.records@))
    }

    /// The records that were added, without duplicates.
    pub closed spec fn records(self) -> Seq<CopyRecord> {
        self.records@
    }

    /// Adds information about `CopyRecord`s to `self`. A target with multiple
    /// conflicts is discarded and treated as not having an origin.
    pub fn add_records(&mut self, copy_records: Vec<CopyRecord>)
        ensures
            final(self).records() == with_records(old(self).records(), copy_records@),
    {
        let mut all = CopyRecords::default();
        std::mem::swap(self, &mut all);
        proof {
            use_type_invariant(&all);
        }
        let CopyRecords { mut records, mut sources, mut targets } = all;
        let ghost start = records@;
        let ghost added = copy_records@;
        let n = copy_records.len();
        let mut rest = vectors::reversed(copy_records);
        assert(added.skip(0) =~= added);
        assert(added.take(0) =~= Seq::empty());
        for i in 0..n
            invariant
                n == added.len(),
                rest@ == added.skip(i as int).reverse(),
                is_index(sources@, sources_of(records@)),
                is_index(targets@, targets_of(records@)),
                records@ == with_records(start, added.take(i as int)),
        {
            let ghost before = rest@;
            assert(before.len() > 0);
            let next = rest.pop();
            proof {
                assert(next == Some(added[i as int]));
                assert(rest@ =~= added.skip(i + 1).reverse());
                assert(added.take(i + 1).drop_last() =~= added.take(i as int));
                assert(added.take(i + 1).last() == added[i as int]);
            }
            if let Some(r) = next {
                // The same copy or rename is reported once per parent when diffing a
                // merge commit. Identical (source, target) pairs describe the same
                // operation, so skip the duplicate instead of marking both maps as
                // conflicting, which would otherwise drop the copy/rename entirely.
                let is_duplicate = match find_record(&records, &targets, &r.target) {
                    Some(existing) => existing.source.same(&r.source),
                    None => false,
                };
                proof {
                    lemma_indexed(targets@, targets_of(records@), r.target@);
                    assert(is_duplicate == self::is_duplicate(records@, r));
                }
                if !is_duplicate {
                    let place = records.len();
                    let ghost (s, t) = (sources@, targets@);
                    add_to_index(&mut sources, &r.source, place);
                    add_to_index(&mut targets, &r.target, place);
                    let ghost old_records = records@;
                    records.push(r);
                    proof {
                        assert(records.len() == old_records.len() + 1);
                        lemma_index_push(s, sources_of(old_records), r.source@);
                        lemma_index_push(t, targets_of(old_records), r.target@);
                        assert(sources_of(records@) =~= sources_of(old_records).push(r.source@));
                        assert(targets_of(records@) =~= targets_of(old_records).push(r.target@));
                    }
                }
            }
        }
        assert(added.take(n as int) =~= added);
        *self = CopyRecords { records, sources, targets };
    }

    /// Returns true if there are copy records associated with a source path.
    pub fn has_source(&self, source: &RepoPathBuf) -> (r: bool)
        ensures
            r == sources_of(self.records()).contains(source@),
    {
        proof {
            use_type_invariant(self);
        }
        self.sources.contains_key(source)
    }

    /// Gets any copy record associated with a source path.
    pub fn for_source(&self, source: &RepoPathBuf) -> (r: Option<&CopyRecord>)
        ensures
            match r {
                Some(record) => sole_place(sources_of(self.records()), source@) matches Some(i)
                    && *record == self.records()[i] && record.source@ == source@,
                None => sole_place(sources_of(self.records()), source@) is None,
            },
    {
        proof {
            use_type_invariant(self);
            lemma_indexed(self.sources@, sources_of(self.records@), source@);
        }
        find_record(&self.records, &self.sources, source)
    }

    /// Returns true if there are copy records associated with a target path.
    pub fn has_target(&self, target: &RepoPathBuf) -> (r: bool)
        ensures
            r == targets_of(self.records()).contains(target@),
    {
        proof {
            use_type_invariant(self);
        }
        self.targets.contains_key(target)
    }

    /// Gets any copy record associated with a target path.
    pub fn for_target(&self, target: &RepoPathBuf) -> (r: Option<&CopyRecord>)
        ensures
            match r {
                Some(record) => sole_place(targets_of(self.records()), target@) matches Some(i)
                    && *record == self.records()[i] && record.target@ == target@,
                None => sole_place(targets_of(self.records()), target@) is None,
            },
    {
        proof {
            use_type_invariant(self);
            lemma_indexed(self.targets@, targets_of(self.records@), target@);
        }
        find_record(&self.records, &self.targets, target)
    }

    /// Gets all copy records.
    pub fn iter(&self) -> (r: &[CopyRecord])
        ensures
            r@ == self.records(),
    {
        self.records.as_slice()
    }
}

/// What the index of a list says of a path.
proof fn lemma_indexed(map: Map<PathView, usize>, paths: Seq<PathView>, path: PathView)
    requires
        is_index(map, paths),
    ensures
        match sole_place(paths, path) {
            Some(place) => {
                &&& map.dom().contains(path)
                &&& map[path] == place
                &&& is_sole_place(paths, path, place)
            },
            None => map.dom().contains(path) ==> map[path] == usize::MAX,
        },
{
    assert(map.dom().contains(path) == paths.contains(path));
    if let Some(place) = sole_place(paths, path) {
        assert(is_sole_place(paths, path, place));
        assert(paths[place] == path);
    }
}

/// The record that an index has for a path, unless it is out of range.
fn find_record<'a>(
    records: &'a Vec<CopyRecord>,
    index: &PathMap<usize>,
    path: &RepoPathBuf,
) -> (r: Option<&'a CopyRecord>)
    ensures
        match r {
            Some(record) => {
                &&& index@.dom().contains(path@)
                &&& index@[path@] < records@.len()
                &&& index@[path@] < usize::MAX
                &&& *record == records@[index@[path@] as int]
            },
            None => index@.dom().contains(path@) ==> index@[path@] >= records@.len(),
        },
{
    match index.get(path) {
        Some(place) => if *place < records.len() {
            Some(&records[*place])
        } else {
            None
        },
        None => None,
    }
}

/// Adding records in turn is the same as adding all of them at once.
pub proof fn law_added_in_turn(
    records: Seq<CopyRecord>,
    first: Seq<CopyRecord>,
    second: Seq<CopyRecord>,
)
    ensures
        with_records(records, first + second) == with_records(
            with_records(records, first),
            second,
        ),
    decreases second.len(),
{
    let all = first + second;
    if second.len() == 0 {
        assert(all =~= first);
    } else {
        assert(all.drop_last() =~= first + second.drop_last());
        assert(all.last() == second.last());
        law_added_in_turn(records, first, second.drop_last());
    }
}

/// Whether the record at `place` is the first one with the given target.
pub open spec fn is_first_for(added: Seq<CopyRecord>, target: PathView, place: int) -> bool {
    &&& 0 <= place < added.len()
    &&& added[place].target@ == target
    &&& forall|i: int| 0 <= i < place ==> (#[trigger] added[i]).target@ != target
}

/// Whether all records with the given target have the same source.
pub open spec fn share_source(added: Seq<CopyRecord>, target: PathView) -> bool {
    forall|i: int, j: int|
        0 <= i < added.len() && 0 <= j < added.len() && (#[trigger] added[i]).target@ == target && (
        #[trigger] added[j]).target@ == target ==> added[i].source@ == added[j].source@
}

/// Whether two records have the given target.
spec fn occurs_twice(records: Seq<CopyRecord>, target: PathView) -> bool {
    exists|i: int, j: int|
        0 <= i < j < records.len() && (#[trigger] records[i]).target@ == target && (
        #[trigger] records[j]).target@ == target
}

proof fn lemma_twice_has_no_place(records: Seq<CopyRecord>, target: PathView)
    requires
        occurs_twice(records, target),
    ensures
        sole_place(targets_of(records), target) is None,
{
    let targets = targets_of(records);
    let (i, j) = choose|i: int, j: int|
        0 <= i < j < records.len() && (#[trigger] records[i]).target@ == target && (
        #[trigger] records[j]).target@ == target;
    if exists|place: int| is_sole_place(targets, target, place) {
        let place = choose|place: int| is_sole_place(targets, target, place);
        assert(targets[i] == target && targets[j] == target);
    }
}

proof fn lemma_place_stays(records: Seq<CopyRecord>, record: CopyRecord, target: PathView)
    requires
        record.target@ != target,
    ensures
        sole_place(targets_of(records.push(record)), target) == sole_place(
            targets_of(records),
            target,
        ),
        occurs_twice(records, target) ==> occurs_twice(records.push(record), target),
{
    let before = targets_of(records);
    let after = targets_of(records.push(record));
    assert(after =~= before.push(record.target@));
    if exists|place: int| is_sole_place(before, target, place) {
        let place = choose|place: int| is_sole_place(before, target, place);
        assert(is_sole_place(after, target, place)) by {
            assert(after[place] == target);
            assert forall|i: int| 0 <= i < after.len() && #[trigger] after[i] == target implies i
                == place by {
                assert(before[i] == target);
            }
        }
        lemma_sole_place(before, target, place);
        lemma_sole_place(after, target, place);
    } else if exists|place: int| is_sole_place(after, target, place) {
        let place = choose|place: int| is_sole_place(after, target, place);
        assert(is_sole_place(before, target, place)) by {
            assert(before[place] == target);
            assert forall|i: int| 0 <= i < before.len() && #[trigger] before[i] == target implies i
                == place by {
                assert(after[i] == target);
            }
        }
    }
    if occurs_twice(records, target) {
        let (i, j) = choose|i: int, j: int|
            0 <= i < j < records.len() && (#[trigger] records[i]).target@ == target && (
            #[trigger] records[j]).target@ == target;
        let next = records.push(record);
        assert(next[i] == records[i] && next[j] == records[j]);
    }
}

/// Whether the kept records have what the added ones say of a target: nothing if none
/// of them has it, the first of those that have it if they share one source, and else
/// several of them.
spec fn kept_for(kept: Seq<CopyRecord>, added: Seq<CopyRecord>, target: PathView) -> bool {
    if !targets_of(added).contains(target) {
        !targets_of(kept).contains(target)
    } else if share_source(added, target) {
        exists|place: int, first: int| #[trigger]
            is_sole_place(targets_of(kept), target, place) && #[trigger] is_first_for(
                added,
                target,
                first,
            ) && kept[place] == added[first]
    } else {
        occurs_twice(kept, target)
    }
}

proof fn lemma_kept_for(added: Seq<CopyRecord>, target: PathView)
    ensures
        kept_for(with_records(Seq::empty(), added), added, target),
    decreases added.len(),
{
    let kept = with_records(Seq::empty(), added);
    if added.len() > 0 {
        let fewer = added.drop_last();
        let last = added.last();
        let n = fewer.len() as int;
        let before = with_records(Seq::empty(), fewer);
        lemma_kept_for(fewer, target);
        assert(targets_of(added) =~= targets_of(fewer).push(last.target@));
        assert(targets_of(before.push(last)) =~= targets_of(before).push(last.target@));
        assert(fewer.push(last) =~= added);
        assert forall|i: int| 0 <= i < n implies #[trigger] added[i] == fewer[i] by {}
        if last.target@ != target {
            lemma_other_target(before, fewer, last, target);
        } else {
            assert(targets_of(added)[n] == target);
            assert(targets_of(added).contains(target));
            if !targets_of(fewer).contains(target) {
                lemma_new_target(before, fewer, last, target);
            } else if share_source(fewer, target) {
                let (place, first) = choose|place: int, first: int| #[trigger]
                    is_sole_place(targets_of(before), target, place) && #[trigger] is_first_for(
                        fewer,
                        target,
                        first,
                    ) && before[place] == fewer[first];
                lemma_sole_place(targets_of(before), target, place);
                assert(is_first_for(added, target, first));
                if before[place].source@ == last.source@ {
                    assert(kept == before);
                    assert(share_source(added, target)) by {
                        assert forall|i: int, j: int|
                            0 <= i < added.len() && 0 <= j < added.len() && (
                            #[trigger] added[i]).target@ == target && (
                            #[trigger] added[j]).target@ == target implies added[i].source@
                            == added[j].source@ by {
                            if i < n {
                                assert(fewer[i].source@ == fewer[first].source@);
                            }
                            if j < n {
                                assert(fewer[j].source@ == fewer[first].source@);
                            }
                        }
                    }
                } else {
                    assert(kept == before.push(last));
                    assert(added[first].source@ != added[n].source@);
                    assert(targets_of(before)[place] == target);
                    assert(kept[place].target@ == target);
                    assert(kept[before.len() as int].target@ == target);
                    assert(occurs_twice(kept, target));
                }
            } else {
                lemma_twice_has_no_place(before, target);
                assert(kept == before.push(last));
                let (i, j) = choose|i: int, j: int|
                    0 <= i < j < before.len() && (#[trigger] before[i]).target@ == target && (
                    #[trigger] before[j]).target@ == target;
                assert(kept[i] == before[i] && kept[j] == before[j]);
                assert(occurs_twice(kept, target));
                let (a, b) = choose|a: int, b: int|
                    0 <= a < fewer.len() && 0 <= b < fewer.len() && (
                    #[trigger] fewer[a]).target@ == target && (#[trigger] fewer[b]).target@
                        == target && fewer[a].source@ != fewer[b].source@;
                assert(added[a].source@ != added[b].source@);
            }
        }
    }
}

proof fn lemma_other_target(
    kept: Seq<CopyRecord>,
    added: Seq<CopyRecord>,
    record: CopyRecord,
    target: PathView,
)
    requires
        kept_for(kept, added, target),
        record.target@ != target,
    ensures
        kept_for(kept, added.push(record), target),
        kept_for(kept.push(record), added.push(record), target),
{
    let all = added.push(record);
    let next = kept.push(record);
    let n = added.len() as int;
    lemma_place_stays(kept, record, target);
    assert(targets_of(all) =~= targets_of(added).push(record.target@));
    assert(targets_of(next) =~= targets_of(kept).push(record.target@));
    assert(targets_of(all).contains(target) == targets_of(added).contains(target)) by {
        if targets_of(added).contains(target) {
            let i = choose|i: int|
                0 <= i < targets_of(added).len() && targets_of(added)[i] == target;
            assert(targets_of(all)[i] == target);
        }
    }
    if !targets_of(added).contains(target) {
        if targets_of(next).contains(target) {
            let i = choose|i: int| 0 <= i < targets_of(next).len() && targets_of(next)[i] == target;
            assert(targets_of(kept)[i] == target);
        }
    }
    assert(share_source(all, target) == share_source(added, target)) by {
        if share_source(added, target) {
            assert forall|i: int, j: int|
                0 <= i < all.len() && 0 <= j < all.len() && (#[trigger] all[i]).target@ == target
                    && (#[trigger] all[j]).target@ == target implies all[i].source@
                == all[j].source@ by {
                assert(all[i] == added[i] && all[j] == added[j]);
            }
        } else {
            let (a, b) = choose|a: int, b: int|
                0 <= a < added.len() && 0 <= b < added.len() && (#[trigger] added[a]).target@
                    == target && (#[trigger] added[b]).target@ == target && added[a].source@
                    != added[b].source@;
            assert(all[a].source@ != all[b].source@);
        }
    }
    if targets_of(added).contains(target) && share_source(added, target) {
        let (place, first) = choose|place: int, first: int| #[trigger]
            is_sole_place(targets_of(kept), target, place) && #[trigger] is_first_for(
                added,
                target,
                first,
            ) && kept[place] == added[first];
        assert(is_first_for(all, target, first)) by {
            assert forall|i: int| 0 <= i < first implies (#[trigger] all[i]).target@ != target by {
                assert(all[i] == added[i]);
            }
        }
        lemma_sole_place(targets_of(kept), target, place);
        assert(is_sole_place(targets_of(next), target, place));
        assert(next[place] == all[first]);
    }
}

proof fn lemma_new_target(
    kept: Seq<CopyRecord>,
    added: Seq<CopyRecord>,
    record: CopyRecord,
    target: PathView,
)
    requires
        !targets_of(kept).contains(target),
        !targets_of(added).contains(target),
        record.target@ == target,
    ensures
        !is_duplicate(kept, record),
        kept_for(kept.push(record), added.push(record), target),
{
    let all = added.push(record);
    let next = kept.push(record);
    let n = added.len() as int;
    let m = kept.len() as int;
    if let Some(place) = sole_place(targets_of(kept), target) {
        assert(is_sole_place(targets_of(kept), target, place));
        assert(targets_of(kept)[place] == target);
    }
    assert forall|i: int| 0 <= i < n implies (#[trigger] all[i]).target@ != target by {
        assert(targets_of(added)[i] == all[i].target@);
    }
    assert(is_first_for(all, target, n));
    assert(is_sole_place(targets_of(next), target, m)) by {
        assert(targets_of(next)[m] == target);
        assert forall|i: int|
            0 <= i < next.len() && #[trigger] targets_of(next)[i] == target implies i == m by {
            if i < m {
                assert(targets_of(kept)[i] == target);
            }
        }
    }
    assert(targets_of(all)[n] == target);
    assert(share_source(all, target));
    assert(next[m] == all[n]);
}

/// Of all records that were added, a target has an origin if and only if there are
/// records for it and all of these have the same source. The origin is then the first
/// of them.
pub proof fn law_record_for_target(added: Seq<CopyRecord>, target: PathView)
    ensures
        ({
            let kept = with_records(Seq::empty(), added);
            match sole_place(targets_of(kept), target) {
                Some(place) => {
                    &&& share_source(added, target)
                    &&& exists|first: int| #[trigger]
                        is_first_for(added, target, first) && kept[place] == added[first]
                },
                None => !targets_of(added).contains(target) || !share_source(added, target),
            }
        }),
{
    let kept = with_records(Seq::empty(), added);
    let targets = targets_of(kept);
    lemma_kept_for(added, target);
    if !targets_of(added).contains(target) {
        if let Some(place) = sole_place(targets, target) {
            assert(is_sole_place(targets, target, place));
            assert(targets[place] == target);
        }
    } else if share_source(added, target) {
        let (place, first) = choose|place: int, first: int| #[trigger]
            is_sole_place(targets, target, place) && #[trigger] is_first_for(added, target, first)
                && kept[place] == added[first];
        lemma_sole_place(targets, target, place);
    } else {
        lemma_twice_has_no_place(kept, target);
    }
}

/// No path is lost: the sources and the targets of all records that were added are
/// those of the kept ones.
pub proof fn law_known_paths(added: Seq<CopyRecord>, path: PathView)
    ensures
        targets_of(with_records(Seq::empty(), added)).contains(path) == targets_of(
            added,
        ).contains(path),
        sources_of(with_records(Seq::empty(), added)).contains(path) == sources_of(
            added,
        ).contains(path),
    decreases added.len(),
{
    let kept = with_records(Seq::empty(), added);
    if added.len() == 0 {
        assert(targets_of(kept) =~= targets_of(added));
        assert(sources_of(kept) =~= sources_of(added));
    } else {
        let fewer = added.drop_last();
        let last = added.last();
        let before = with_records(Seq::empty(), fewer);
        law_known_paths(fewer, path);
        assert(targets_of(added) =~= targets_of(fewer).push(last.target@));
        assert(sources_of(added) =~= sources_of(fewer).push(last.source@));
        lemma_contains_push(targets_of(fewer), last.target@, path);
        lemma_contains_push(sources_of(fewer), last.source@, path);
        if is_duplicate(before, last) {
            let place = sole_place(targets_of(before), last.target@)->0;
            assert(is_sole_place(targets_of(before), last.target@, place));
            assert(targets_of(before)[place] == last.target@);
            assert(sources_of(before)[place] == last.source@);
        } else {
            assert(targets_of(kept) =~= targets_of(before).push(last.target@));
            assert(sources_of(kept) =~= sources_of(before).push(last.source@));
            lemma_contains_push(targets_of(before), last.target@, path);
            lemma_contains_push(sources_of(before), last.source@, path);
        }
    }
}

proof fn lemma_contains_push(paths: Seq<PathView>, last: PathView, path: PathView)
    ensures
        paths.push(last).contains(path) == (paths.contains(path) || path == last),
{
    let all = paths.push(last);
    assert(all[paths.len() as int] == last);
    if paths.contains(path) {
        let i = choose|i: int| 0 <= i < paths.len() && paths[i] == path;
        assert(all[i] == path);
    }
    if all.contains(path) && path != last {
        let i = choose|i: int| 0 <= i < all.len() && all[i] == path;
        assert(paths[i] == path);
    }
}

/// Adding a record once more, after any records of which all for its target have its
/// source, changes nothing.
pub proof fn law_duplicate_record(added: Seq<CopyRecord>, again: CopyRecord)
    requires
        targets_of(added).contains(again.target@),
        share_source(added.push(again), again.target@),
    ensures
        with_records(Seq::empty(), added.push(again)) == with_records(Seq::empty(), added),
{
    let target = again.target@;
    let all = added.push(again);
    let n = added.len() as int;
    assert(all.drop_last() =~= added);
    assert forall|i: int| 0 <= i < n implies #[trigger] added[i] == all[i] by {}
    law_record_for_target(added, target);
    let first = choose|first: int| #[trigger]
        is_first_for(added, target, first) && with_records(
            Seq::empty(),
            added,
        )[sole_place(targets_of(with_records(Seq::empty(), added)), target)->0] == added[first];
    assert(all[first].source@ == all[n].source@);
}

/// A target for which records with two different sources were added has no origin.
pub proof fn law_conflicting_target(added: Seq<CopyRecord>, i: int, j: int)
    requires
        0 <= i < added.len(),
        0 <= j < added.len(),
        added[i].target@ == added[j].target@,
        added[i].source@ != added[j].source@,
    ensures
        sole_place(targets_of(with_records(Seq::empty(), added)), added[i].target@) is None,
{
    law_record_for_target(added, added[i].target@);
}

/// Whether or not the source path was deleted.
#[derive(Clone, Copy, Debug, Eq, PartialEq, Structural)]
pub enum CopyOperation {
    /// The source path was not deleted.
    Copy,
    /// The source path was renamed to the destination.
    Rename,
}

/// A `TreeDiffEntry` with copy information.
#[derive(Debug)]
pub struct CopiesTreeDiffEntry {
    /// The path.
    pub path: CopiesTreeDiffEntryPath,
    /// The resolved tree values if available.
    pub values: BackendResult<Diff<MergedTreeValue>>,
}

/// Path and copy information of `CopiesTreeDiffEntry`.
#[derive(Debug, Eq, PartialEq)]
pub struct CopiesTreeDiffEntryPath {
    /// The source path and copy information if this is a copy or rename.
    pub source: Option<(RepoPathBuf, CopyOperation)>,
    /// The target path.
    pub target: RepoPathBuf,
}

/// The model of a `CopiesTreeDiffEntryPath`.
#[verifier::ext_equal]
pub ghost struct CopiesPathView {
    /// The source path and copy information if this is a copy or rename.
    pub source: Option<(PathView, CopyOperation)>,
    /// The target path.
    pub target: PathView,
}

impl View for CopiesTreeDiffEntryPath {
    type V = CopiesPathView;

    open spec fn view(&self) -> CopiesPathView {
        CopiesPathView {
            source: match self.source {
                Some((path, op)) => Some((path@, op)),
                None => None,
            },
            target: self.target@,
        }
    }
}

impl Clone for CopiesTreeDiffEntryPath {
    fn clone(&self) -> (r: Self)
        ensures
            r@ == self@,
    {
        CopiesTreeDiffEntryPath {
            source: match &self.source {
                Some((path, op)) => Some((path.clone(), *op)),
                None => None,
            },
            target: self.target.clone(),
        }
    }
}

impl CopiesTreeDiffEntryPath {
    /// The source path.
    pub fn source(&self) -> (r: &RepoPathBuf)
        ensures
            r@ == (match self@.source {
                Some((path, _)) => path,
                None => self@.target,
            }),
    {
        match &self.source {
            Some((path, _)) => path,
            None => &self.target,
        }
    }

    /// The target path.
    pub fn target(&self) -> (r: &RepoPathBuf)
        ensures
            r@ == self@.target,
    {
        &self.target
    }

    /// Whether this entry was copied or renamed from the source. Returns `None`
    /// if the path is unchanged.
    pub fn copy_operation(&self) -> (r: Option<CopyOperation>)
        ensures
            r == (match self@.source {
                Some((path, op)) => if path != self@.target {
                    Some(op)
                } else {
                    None
                },
                None => None,
            }),
    {
        match &self.source {
            Some((source, op)) => if source.same(&self.target) {
                None
            } else {
                Some(*op)
            },
            None => None,
        }
    }

    /// Returns source/target paths as [`Diff`] if they differ.
    pub fn to_diff(&self) -> (r: Option<Diff<&RepoPathBuf>>)
        ensures
            match r {
                Some(diff) => self@.source matches Some((path, _)) && path != self@.target
                    && diff.before@ == path && diff.after@ == self@.target,
                None => self@.source is None || (self@.source->0).0 == self@.target,
            },
    {
        match &self.source {
            Some((source, _)) => if source.same(&self.target) {
                None
            } else {
                Some(Diff::new(source, &self.target))
            },
            None => None,
        }
    }
}

impl View for CopiesTreeDiffEntry {
    type V = (CopiesPathView, DiffResult);

    open spec fn view(&self) -> (CopiesPathView, DiffResult) {
        (self.path@, tree_diff::diff_values_view(self.values))
    }
}

/// What is done with a difference, given the copy records.
#[verifier::ext_equal]
pub ghost enum CopiesStepView {
    /// Nothing is shown.
    Skip,
    /// This entry is shown.
    Entry((CopiesPathView, DiffResult)),
    /// The entry shows the value of the source path, which has to be looked up.
    Resolve { source: PathView, target: PathView, value: MergedValueView },
}

/// What is done with a difference: one at the target of a copy shows the source,
/// and a deletion is not shown where there is a copy from it.
pub open spec fn copies_step(records: Seq<CopyRecord>, path: PathView, values: DiffResult) -> CopiesStepView {
    match sole_place(targets_of(records), path) {
        Some(i) => match values {
            Ok(diff) => CopiesStepView::Resolve {
                source: records[i].source@,
                target: path,
                value: diff.after,
            },
            // Fall back to "copy" (= path still exists) if unknown.
            Err(err) => CopiesStepView::Entry(
                (
                    CopiesPathView {
                        source: Some((records[i].source@, CopyOperation::Copy)),
                        target: path,
                    },
                    Err(err),
                ),
            ),
        },
        None => if (values matches Ok(diff) && merge::is_absent(diff.after)) && sources_of(
            records,
        ).contains(path) {
            CopiesStepView::Skip
        } else {
            CopiesStepView::Entry((CopiesPathView { source: None, target: path }, values))
        },
    }
}

/// How a copy is shown: it is a rename if the source path is gone, or a
/// directory, in the target tree.
pub open spec fn resolved_copy(
    target_value: MergedValueView,
    source_value: MergedValueView,
    source_value_at_target: MergedValueView,
) -> (CopyOperation, Diff<MergedValueView>) {
    (
        if merge::is_absent(source_value_at_target) || tree_value::is_tree(source_value_at_target) {
            CopyOperation::Rename
        } else {
            CopyOperation::Copy
        },
        Diff { before: source_value, after: target_value },
    )
}

/// The entry for a copy, given what was found at the source path in both trees.
pub open spec fn copy_entry(
    source: PathView,
    target: PathView,
    target_value: MergedValueView,
    source_value: Result<MergedValueView, BackendError>,
    source_value_at_target: Result<MergedValueView, BackendError>,
) -> (CopiesPathView, DiffResult) {
    let (op, values) = match (source_value, source_value_at_target) {
        (Ok(a), Ok(b)) => (
            resolved_copy(target_value, a, b).0,
            Ok(resolved_copy(target_value, a, b).1),
        ),
        (Err(err), _) => (CopyOperation::Copy, Err(err)),
        (_, Err(err)) => (CopyOperation::Copy, Err(err)),
    };
    (CopiesPathView { source: Some((source, op)), target }, values)
}

/// The model of a value that may not be known.
pub open spec fn value_result(value: BackendResult<MergedTreeValue>) -> Result<
    MergedValueView,
    BackendError,
> {
    match value {
        Ok(value) => Ok(value@),
        Err(err) => Err(err),
    }
}

/// A copy whose source has to be looked up in both trees.
#[derive(Debug)]
pub struct CopySourceLookup {
    source: RepoPathBuf,
    target: RepoPathBuf,
    target_value: MergedTreeValue,
}

impl View for CopySourceLookup {
    type V = (PathView, PathView, MergedValueView);

    closed spec fn view(&self) -> (PathView, PathView, MergedValueView) {
        (self.source@, self.target@, self.target_value@)
    }
}

/// What is done with a difference.
#[derive(Debug)]
pub enum CopiesTreeDiffStep {
    /// Nothing is shown.
    Skip,
    /// This entry is shown.
    Entry(CopiesTreeDiffEntry),
    /// The source path has to be looked up in both trees.
    Resolve(CopySourceLookup),
}

/// Wraps a `TreeDiffStream`, adding support for copies and renames.
#[derive(Debug)]
pub struct CopiesTreeDiffStream<'a> {
    source_tree: MergedTree,
    target_tree: MergedTree,
    copy_records: &'a CopyRecords,
}

impl<'a> CopiesTreeDiffStream<'a> {
    /// Create a new diff stream with copy information.
    pub fn new(
        source_tree: MergedTree,
        target_tree: MergedTree,
        copy_records: &'a CopyRecords,
    ) -> (r: Self)
        ensures
            r.known_copies() == copy_records.records(),
            r.trees() == (source_tree, target_tree),
    {
        CopiesTreeDiffStream { source_tree, target_tree, copy_records }
    }

    /// The copy records of this stream.
    pub closed spec fn known_copies(self) -> Seq<CopyRecord> {
        self.copy_records.records()
    }

    /// The trees of this stream.
    pub closed spec fn trees(self) -> (MergedTree, MergedTree) {
        (self.source_tree, self.target_tree)
    }

    /// The tree with the sources of the copies.
    pub fn source_tree(&self) -> (r: &MergedTree)
        ensures
            *r == self.trees().0,
    {
        &self.source_tree
    }

    /// The tree with the targets of the copies.
    pub fn target_tree(&self) -> (r: &MergedTree)
        ensures
            *r == self.trees().1,
    {
        &self.target_tree
    }

    /// What is done with the next difference.
    pub fn take_entry(&self, diff_entry: TreeDiffEntry) -> (r: CopiesTreeDiffStep)
        ensures
            match r {
                CopiesTreeDiffStep::Skip => copies_step(
                    self.known_copies(),
                    diff_entry@.0,
                    diff_entry@.1,
                ) is Skip,
                CopiesTreeDiffStep::Entry(entry) => copies_step(
                    self.known_copies(),
                    diff_entry@.0,
                    diff_entry@.1,
                ) == CopiesStepView::Entry(entry@),
                CopiesTreeDiffStep::Resolve(lookup) => copies_step(
                    self.known_copies(),
                    diff_entry@.0,
                    diff_entry@.1,
                ) == (CopiesStepView::Resolve {
                    source: lookup@.0,
                    target: lookup@.1,
                    value: lookup@.2,
                }),
            },
    {
        match self.copy_records.for_target(&diff_entry.path) {
            None => {
                let target_deleted = match &diff_entry.values {
                    Ok(diff) => diff.after.is_absent(),
                    Err(_) => false,
                };
                if target_deleted && self.copy_records.has_source(&diff_entry.path) {
                    // Skip the "delete" entry when there is a rename.
                    CopiesTreeDiffStep::Skip
                } else {
                    CopiesTreeDiffStep::Entry(
                        CopiesTreeDiffEntry {
                            path: CopiesTreeDiffEntryPath {
                                source: None,
                                target: diff_entry.path,
                            },
                            values: diff_entry.values,
                        },
                    )
                }
            },
            Some(record) => match diff_entry.values {
                Ok(diff) => CopiesTreeDiffStep::Resolve(
                    CopySourceLookup {
                        source: record.source.clone(),
                        target: diff_entry.path,
                        target_value: diff.after,
                    },
                ),
                // Fall back to "copy" (= path still exists) if unknown.
                Err(err) => CopiesTreeDiffStep::Entry(
                    CopiesTreeDiffEntry {
                        path: CopiesTreeDiffEntryPath {
                            source: Some((record.source.clone(), CopyOperation::Copy)),
                            target: diff_entry.path,
                        },
                        values: Err(err),
                    },
                ),
            },
        }
    }
}

impl CopySourceLookup {
    /// The path to look up in both trees.
    pub fn source(&self) -> (r: &RepoPathBuf)
        ensures
            r@ == self@.0,
    {
        &self.source
    }

    fn resolve_copy_source(
        target_value: MergedTreeValue,
        source_value: BackendResult<MergedTreeValue>,
        source_value_at_target: BackendResult<MergedTreeValue>,
    ) -> (r: BackendResult<(CopyOperation, Diff<MergedTreeValue>)>)
        ensures
            match r {
                Ok((op, diff)) => {
                    &&& source_value is Ok
                    &&& source_value_at_target is Ok
                    &&& (op, diff.deep_view()) == resolved_copy(
                        target_value@,
                        source_value->Ok_0@,
                        source_value_at_target->Ok_0@,
                    )
                },
                Err(err) => {
                    ||| source_value == Err::<MergedTreeValue, BackendError>(err)
                    ||| source_value is Ok && source_value_at_target == Err::<
                        MergedTreeValue,
                        BackendError,
                    >(err)
                },
            },
    {
        let source_value = match source_value {
            Ok(value) => value,
            Err(err) => return Err(err),
        };
        // If the source path is deleted in the target tree, it's a rename.
        let source_value_at_target = match source_value_at_target {
            Ok(value) => value,
            Err(err) => return Err(err),
        };
        let copy_op = if source_value_at_target.is_absent() || source_value_at_target.is_tree() {
            CopyOperation::Rename
        } else {
            CopyOperation::Copy
        };
        Ok((copy_op, Diff::new(source_value, target_value)))
    }

    /// The entry for the copy, given what was found at the source path in the
    /// source tree and in the target tree.
    pub fn finish(
        self,
        source_value: BackendResult<MergedTreeValue>,
        source_value_at_target: BackendResult<MergedTreeValue>,
    ) -> (r: CopiesTreeDiffEntry)
        ensures
            r@ == copy_entry(
                self@.0,
                self@.1,
                self@.2,
                value_result(source_value),
                value_result(source_value_at_target),
            ),
    {
        let (copy_op, values) = match Self::resolve_copy_source(
            self.target_value,
            source_value,
            source_value_at_target,
        ) {
            Ok((copy_op, values)) => (copy_op, Ok(values)),
            // Fall back to "copy" (= path still exists) if unknown.
            Err(err) => (CopyOperation::Copy, Err(err)),
        };
        CopiesTreeDiffEntry {
            path: CopiesTreeDiffEntryPath {
                source: Some((self.source, copy_op)),
                target: self.target,
            },
            values,
        }
    }
}

} // verus!
