//! Which copy records are kept, and which of them are found.

use crate::backend::CopyRecord;
use crate::copies;
use crate::repo_path::PathView;
use vstd::prelude::*;

verus! {

/// Whether a record repeats what is known: there is an earlier record for its target, and
/// all earlier ones have the same source as it.
pub open spec fn is_repeated(added: Seq<CopyRecord>, i: int) -> bool {
    &&& exists|j: int| 0 <= j < i && (#[trigger] added[j]).target@ == added[i].target@
    &&& forall|j: int|
        0 <= j < i && (#[trigger] added[j]).target@ == added[i].target@ ==> added[j].source@
            == added[i].source@
}

/// The first `n` records without those that are repeated.
pub open spec fn without_repeated(added: Seq<CopyRecord>, n: int) -> Seq<CopyRecord>
    decreases n,
{
    if n <= 0 {
        Seq::empty()
    } else if is_repeated(added, n - 1) {
        without_repeated(added, n - 1)
    } else {
        without_repeated(added, n - 1).push(added[n - 1])
    }
}

/// Of all records that are added, those that are repeated are left out. The others are
/// kept in their order.
pub proof fn law_records_kept(added: Seq<CopyRecord>)
    ensures
        copies::with_records(Seq::empty(), added) == without_repeated(added, added.len() as int),
{
    lemma_kept(added, added.len() as int);
    assert(added.take(added.len() as int) =~= added);
}

proof fn lemma_kept(added: Seq<CopyRecord>, n: int)
    requires
        0 <= n <= added.len(),
    ensures
        copies::with_records(Seq::empty(), added.take(n)) == without_repeated(added, n),
    decreases n,
{
    if n > 0 {
        let i = n - 1;
        let fewer = added.take(i);
        let record = added[i];
        let target = record.target@;
        lemma_kept(added, i);
        assert(added.take(n).drop_last() =~= fewer);
        assert(added.take(n).last() == record);
        let kept = copies::with_records(Seq::empty(), fewer);
        copies::law_record_for_target(fewer, target);
        let known = exists|j: int| 0 <= j < i && (#[trigger] added[j]).target@ == target;
        assert(copies::targets_of(fewer).contains(target) == known) by {
            let targets = copies::targets_of(fewer);
            if targets.contains(target) {
                let j = choose|j: int| 0 <= j < targets.len() && targets[j] == target;
                assert(added[j].target@ == target);
            }
            if known {
                let j = choose|j: int| 0 <= j < i && (#[trigger] added[j]).target@ == target;
                assert(targets[j] == target);
            }
        }
        if let Some(place) = copies::sole_place(copies::targets_of(kept), target) {
            let first = choose|first: int| #[trigger]
                copies::is_first_for(fewer, target, first) && kept[place] == fewer[first];
            assert(added[first].target@ == target);
            assert(fewer[first] == added[first]);
            assert forall|j: int| 0 <= j < i && (#[trigger] added[j]).target@ == target implies
                added[j].source@ == added[first].source@ by {
                assert(fewer[j].target@ == target && fewer[first].target@ == target);
            }
        } else if is_repeated(added, i) {
            assert(copies::share_source(fewer, target)) by {
                assert forall|j: int, k: int|
                    0 <= j < fewer.len() && 0 <= k < fewer.len() && (
                    #[trigger] fewer[j]).target@ == target && (#[trigger] fewer[k]).target@
                        == target implies fewer[j].source@ == fewer[k].source@ by {
                    assert(added[j].target@ == target && added[k].target@ == target);
                }
            }
        }
    } else {
        assert(added.take(0) =~= Seq::empty());
    }
}

/// Among the kept records, the one that is found for a source or a target is the only one
/// with it. Where there are several or none, none is found.
pub proof fn law_found_record(records: Seq<CopyRecord>, path: PathView, place: int)
    ensures
        (copies::sole_place(copies::sources_of(records), path) == Some(place)) == (0 <= place
            < records.len() && forall|i: int|
            0 <= i < records.len() ==> ((#[trigger] records[i]).source@ == path) == (i == place)),
        (copies::sole_place(copies::targets_of(records), path) == Some(place)) == (0 <= place
            < records.len() && forall|i: int|
            0 <= i < records.len() ==> ((#[trigger] records[i]).target@ == path) == (i == place)),
        copies::sources_of(records).contains(path) == exists|i: int|
            0 <= i < records.len() && (#[trigger] records[i]).source@ == path,
        copies::targets_of(records).contains(path) == exists|i: int|
            0 <= i < records.len() && (#[trigger] records[i]).target@ == path,
{
    let sources = copies::sources_of(records);
    let targets = copies::targets_of(records);
    assert(sources.len() == records.len() && targets.len() == records.len());
    assert forall|i: int| 0 <= i < records.len() implies sources[i] == (
    #[trigger] records[i]).source@ && targets[i] == records[i].target@ by {}
    lemma_sole(sources, path, place);
    lemma_sole(targets, path, place);
    if sources.contains(path) {
        let i = choose|i: int| 0 <= i < sources.len() && sources[i] == path;
        assert(records[i].source@ == path);
    }
    if exists|i: int| 0 <= i < records.len() && (#[trigger] records[i]).source@ == path {
        let i = choose|i: int| 0 <= i < records.len() && (#[trigger] records[i]).source@ == path;
        assert(sources[i] == path);
    }
    if targets.contains(path) {
        let i = choose|i: int| 0 <= i < targets.len() && targets[i] == path;
        assert(records[i].target@ == path);
    }
    if exists|i: int| 0 <= i < records.len() && (#[trigger] records[i]).target@ == path {
        let i = choose|i: int| 0 <= i < records.len() && (#[trigger] records[i]).target@ == path;
        assert(targets[i] == path);
    }
    assert((forall|i: int|
        0 <= i < records.len() ==> ((#[trigger] records[i]).source@ == path) == (i == place)) == (
    forall|i: int| 0 <= i < sources.len() ==> (#[trigger] sources[i] == path) == (i == place))) by {
        if forall|i: int| 0 <= i < sources.len() ==> (#[trigger] sources[i] == path) == (i == place) {
            assert forall|i: int| 0 <= i < records.len() implies ((
            #[trigger] records[i]).source@ == path) == (i == place) by {
                assert((sources[i] == path) == (i == place));
            }
        }
    }
    assert((forall|i: int|
        0 <= i < records.len() ==> ((#[trigger] records[i]).target@ == path) == (i == place)) == (
    forall|i: int| 0 <= i < targets.len() ==> (#[trigger] targets[i] == path) == (i == place))) by {
        if forall|i: int| 0 <= i < targets.len() ==> (#[trigger] targets[i] == path) == (i == place) {
            assert forall|i: int| 0 <= i < records.len() implies ((
            #[trigger] records[i]).target@ == path) == (i == place) by {
                assert((targets[i] == path) == (i == place));
            }
        }
    }
}

proof fn lemma_sole(paths: Seq<PathView>, path: PathView, place: int)
    ensures
        (copies::sole_place(paths, path) == Some(place)) == (0 <= place < paths.len() && forall|
            i: int,
        |
            0 <= i < paths.len() ==> (#[trigger] paths[i] == path) == (i == place)),
{
    if copies::sole_place(paths, path) is Some {
        let found = copies::sole_place(paths, path)->0;
        assert(copies::is_sole_place(paths, path, found));
        assert(paths[found] == path);
        assert forall|i: int| 0 <= i < paths.len() implies (#[trigger] paths[i] == path) == (i
            == found) by {}
        if 0 <= place < paths.len() && forall|i: int|
            0 <= i < paths.len() ==> (#[trigger] paths[i] == path) == (i == place) {
            assert((paths[found] == path) == (found == place));
        }
    } else if 0 <= place < paths.len() && forall|i: int|
        0 <= i < paths.len() ==> (#[trigger] paths[i] == path) == (i == place) {
        assert((paths[place] == path) == (place == place));
        assert(copies::is_sole_place(paths, path, place));
    }
}

} // verus!
