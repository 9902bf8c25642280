//! What the entries of a rename map are, by what the differences show.

use crate::ancestor_paths;
use crate::backend::BackendError;
use crate::copy_source::CopyEntryView;
use crate::copy_source::CopySourceView;
use crate::copy_source::DiffTermView;
use crate::copy_source::SourcesView;
use crate::order;
use crate::path_groups;
use crate::rename_laws;
use crate::rename_laws::RenameOracle;
use crate::rename_map;
use crate::rename_scan;
use crate::rename_scan::RenameFactsModel;
use crate::repo_path::PathView;
use crate::tree_value::MergedValueView;
use vstd::prelude::*;

verus! {

/// Something that differences can show about the paths of a merge.
pub ghost enum Fact {
    /// The path is mentioned.
    Mention(PathView),
    /// The path is present in the merge term.
    Present(int, PathView),
    /// Something was renamed from the path on the way to the merge term.
    Rename(int, PathView),
    /// A file at the second path is a copy of one at the first path, or was renamed from
    /// it.
    Link(PathView, PathView),
}

/// The removed term that a transition starts from: each removed term has a transition to
/// the term before it and one to the term after it.
pub open spec fn start_of(transition: int) -> int {
    if transition % 2 == 0 {
        transition + 1
    } else {
        transition
    }
}

/// The added term that a transition leads to.
pub open spec fn end_of(transition: int) -> int {
    if transition % 2 == 0 {
        transition
    } else {
        transition + 1
    }
}

/// What a source of a difference at a path shows. Only a resolved one shows something.
pub open spec fn source_shows(
    transition: int,
    target: PathView,
    source: (CopySourceView, MergedValueView),
    fact: Fact,
) -> bool {
    source.1.len() == 1 && match source.0 {
        CopySourceView::Normal => source.1[0] is Some && fact == Fact::Present(
            start_of(transition),
            target,
        ),
        CopySourceView::Copy(path) => {
            ||| fact == Fact::Mention(path)
            ||| fact == Fact::Link(path, target)
            ||| source.1[0] is Some && fact == Fact::Present(start_of(transition), path)
        },
        CopySourceView::Rename(path) => {
            ||| fact == Fact::Mention(path)
            ||| fact == Fact::Link(path, target)
            ||| source.1[0] is Some && fact == Fact::Present(start_of(transition), path)
            ||| fact == Fact::Rename(end_of(transition), path)
        },
    }
}

/// What some of the sources show.
pub open spec fn sources_show(
    transition: int,
    target: PathView,
    sources: SourcesView,
    fact: Fact,
) -> bool {
    exists|k: int|
        0 <= k < sources.len() && source_shows(transition, target, #[trigger] sources[k], fact)
}

/// What a term of a difference at a path shows.
pub open spec fn term_shows(
    transition: int,
    target: PathView,
    term: DiffTermView,
    fact: Fact,
) -> bool {
    ||| fact == Fact::Mention(target)
    ||| term.target_value is Some && fact == Fact::Present(end_of(transition), target)
    ||| sources_show(transition, target, term.sources, fact)
}

/// What some of the terms of a difference show.
pub open spec fn terms_show(
    transition: int,
    target: PathView,
    terms: Seq<DiffTermView>,
    fact: Fact,
) -> bool {
    exists|i: int|
        0 <= i < terms.len() && term_shows(transition, target, #[trigger] terms[i], fact)
}

/// What a difference shows.
pub open spec fn entry_shows(transition: int, entry: CopyEntryView, fact: Fact) -> bool {
    entry.1 is Ok && terms_show(transition, entry.0, entry.1->Ok_0, fact)
}

/// What some of the differences of a transition show.
pub open spec fn entries_show(
    transition: int,
    entries: Seq<CopyEntryView>,
    fact: Fact,
) -> bool {
    exists|i: int|
        0 <= i < entries.len() && entry_shows(transition, #[trigger] entries[i], fact)
}

/// What the differences of the first `n` transitions show.
pub open spec fn shows_until(oracle: RenameOracle, n: int, fact: Fact) -> bool {
    exists|t: int|
        0 <= t < n && #[trigger] entries_show(t, (oracle.entries)(t), fact)
}

/// What the differences between the terms of a merge show.
pub open spec fn shows(oracle: RenameOracle, fact: Fact) -> bool {
    shows_until(oracle, oracle.num_terms - 1, fact)
}

/// Whether all differences are known.
pub open spec fn all_known(oracle: RenameOracle) -> bool {
    forall|t: int, i: int|
        0 <= t < oracle.num_terms - 1 && 0 <= i < (oracle.entries)(t).len() ==> (
        #[trigger] (oracle.entries)(t)[i]).1 is Ok
}

/// Whether something is among what is known.
spec fn is_noted(facts: RenameFactsModel, fact: Fact) -> bool {
    match fact {
        Fact::Mention(path) => facts.mentioned.contains(path),
        Fact::Present(j, path) => 0 <= j < facts.presence.len() && facts.presence[j].contains(
            path,
        ),
        Fact::Rename(j, path) => 0 <= j < facts.renamed_from.len()
            && facts.renamed_from[j].contains(path),
        Fact::Link(a, b) => facts.links.contains((a, b)),
    }
}

spec fn well_sized(facts: RenameFactsModel, num_terms: nat) -> bool {
    &&& facts.presence.len() == num_terms
    &&& facts.renamed_from.len() == num_terms
    &&& facts.mentioned.finite()
}

proof fn lemma_link(facts: RenameFactsModel, a: PathView, b: PathView, fact: Fact)
    ensures
        is_noted(facts.with_link(a, b), fact) == (is_noted(facts, fact) || fact == Fact::Link(
            a,
            b,
        )),
{
    let links = facts.links;
    let more = links.push((a, b));
    if let Fact::Link(x, y) = fact {
        if links.contains((x, y)) {
            let i = choose|i: int| 0 <= i < links.len() && links[i] == (x, y);
            assert(more[i] == (x, y));
        }
        if more.contains((x, y)) {
            let i = choose|i: int| 0 <= i < more.len() && more[i] == (x, y);
            if i < links.len() {
                assert(links[i] == (x, y));
            }
        }
        assert(more[links.len() as int] == (a, b));
    }
}

proof fn lemma_source(
    facts: RenameFactsModel,
    num_terms: nat,
    transition: int,
    target: PathView,
    source: (CopySourceView, MergedValueView),
    fact: Fact,
)
    requires
        well_sized(facts, num_terms),
        0 <= start_of(transition) < num_terms,
        0 <= end_of(transition) < num_terms,
    ensures
        well_sized(
            rename_scan::with_source(
                facts,
                start_of(transition),
                end_of(transition),
                target,
                source,
            ),
            num_terms,
        ),
        is_noted(
            rename_scan::with_source(
                facts,
                start_of(transition),
                end_of(transition),
                target,
                source,
            ),
            fact,
        ) == (is_noted(facts, fact) || source_shows(transition, target, source, fact)),
{
    match source.0 {
        CopySourceView::Normal => {},
        CopySourceView::Copy(path) => {
            lemma_link(facts, path, target, fact);
        },
        CopySourceView::Rename(path) => {
            lemma_link(facts, path, target, fact);
        },
    }
}

proof fn lemma_sources(
    facts: RenameFactsModel,
    num_terms: nat,
    transition: int,
    target: PathView,
    sources: SourcesView,
    fact: Fact,
)
    requires
        well_sized(facts, num_terms),
        0 <= start_of(transition) < num_terms,
        0 <= end_of(transition) < num_terms,
    ensures
        well_sized(
            rename_scan::with_sources(
                facts,
                start_of(transition),
                end_of(transition),
                target,
                sources,
            ),
            num_terms,
        ),
        is_noted(
            rename_scan::with_sources(
                facts,
                start_of(transition),
                end_of(transition),
                target,
                sources,
            ),
            fact,
        ) == (is_noted(facts, fact) || sources_show(transition, target, sources, fact)),
    decreases sources.len(),
{
    if sources.len() > 0 {
        let fewer = sources.drop_last();
        let last = sources.len() - 1;
        lemma_sources(facts, num_terms, transition, target, fewer, fact);
        lemma_source(
            rename_scan::with_sources(
                facts,
                start_of(transition),
                end_of(transition),
                target,
                fewer,
            ),
            num_terms,
            transition,
            target,
            sources.last(),
            fact,
        );
        assert(sources[last] == sources.last());
        if sources_show(transition, target, fewer, fact) {
            let k = choose|k: int|
                0 <= k < fewer.len() && source_shows(
                    transition,
                    target,
                    #[trigger] fewer[k],
                    fact,
                );
            assert(source_shows(transition, target, sources[k], fact));
        }
        if sources_show(transition, target, sources, fact) {
            let k = choose|k: int|
                0 <= k < sources.len() && source_shows(
                    transition,
                    target,
                    #[trigger] sources[k],
                    fact,
                );
            if k < last {
                assert(source_shows(transition, target, fewer[k], fact));
            }
        }
    }
}

proof fn lemma_terms(
    facts: RenameFactsModel,
    num_terms: nat,
    transition: int,
    target: PathView,
    terms: Seq<DiffTermView>,
    fact: Fact,
)
    requires
        well_sized(facts, num_terms),
        0 <= start_of(transition) < num_terms,
        0 <= end_of(transition) < num_terms,
    ensures
        well_sized(
            rename_scan::with_terms(
                facts,
                start_of(transition),
                end_of(transition),
                target,
                terms,
            ),
            num_terms,
        ),
        is_noted(
            rename_scan::with_terms(
                facts,
                start_of(transition),
                end_of(transition),
                target,
                terms,
            ),
            fact,
        ) == (is_noted(facts, fact) || terms_show(transition, target, terms, fact)),
    decreases terms.len(),
{
    if terms.len() > 0 {
        let fewer = terms.drop_last();
        let last = terms.len() - 1;
        let (before, after) = (start_of(transition), end_of(transition));
        lemma_terms(facts, num_terms, transition, target, fewer, fact);
        let known = rename_scan::with_terms(facts, before, after, target, fewer);
        let noted = known.with_mention(target).with_presence(
            after,
            target,
            terms.last().target_value is Some,
        );
        assert(well_sized(noted, num_terms));
        lemma_sources(noted, num_terms, transition, target, terms.last().sources, fact);
        assert(terms[last] == terms.last());
        if terms_show(transition, target, fewer, fact) {
            let k = choose|k: int|
                0 <= k < fewer.len() && term_shows(transition, target, #[trigger] fewer[k], fact);
            assert(term_shows(transition, target, terms[k], fact));
        }
        if terms_show(transition, target, terms, fact) {
            let k = choose|k: int|
                0 <= k < terms.len() && term_shows(transition, target, #[trigger] terms[k], fact);
            if k < last {
                assert(term_shows(transition, target, fewer[k], fact));
            }
        }
        if term_shows(transition, target, terms.last(), fact) {
            assert(term_shows(transition, target, terms[last], fact));
        }
    }
}

proof fn lemma_entries(
    facts: RenameFactsModel,
    num_terms: nat,
    transition: int,
    entries: Seq<CopyEntryView>,
    fact: Fact,
)
    requires
        well_sized(facts, num_terms),
        0 <= transition < num_terms - 1,
        num_terms % 2 == 1,
        forall|i: int| 0 <= i < entries.len() ==> (#[trigger] entries[i]).1 is Ok,
    ensures
        rename_laws::with_entries(facts, transition, entries) is Ok,
        well_sized(rename_laws::with_entries(facts, transition, entries)->Ok_0, num_terms),
        is_noted(rename_laws::with_entries(facts, transition, entries)->Ok_0, fact) == (is_noted(
            facts,
            fact,
        ) || entries_show(transition, entries, fact)),
    decreases entries.len(),
{
    if entries.len() > 0 {
        let fewer = entries.drop_last();
        let last = entries.len() - 1;
        assert forall|i: int| 0 <= i < fewer.len() implies (#[trigger] fewer[i]).1 is Ok by {
            assert(fewer[i] == entries[i]);
        }
        lemma_entries(facts, num_terms, transition, fewer, fact);
        assert(rename_scan::transition_terms(transition) == (
            start_of(transition),
            end_of(transition),
        ));
        assert(entries[last] == entries.last());
        lemma_terms(
            rename_laws::with_entries(facts, transition, fewer)->Ok_0,
            num_terms,
            transition,
            entries.last().0,
            entries.last().1->Ok_0,
            fact,
        );
        if entries_show(transition, fewer, fact) {
            let k = choose|k: int|
                0 <= k < fewer.len() && entry_shows(transition, #[trigger] fewer[k], fact);
            assert(entry_shows(transition, entries[k], fact));
        }
        if entries_show(transition, entries, fact) {
            let k = choose|k: int|
                0 <= k < entries.len() && entry_shows(transition, #[trigger] entries[k], fact);
            if k < last {
                assert(entry_shows(transition, fewer[k], fact));
            }
        }
        if entry_shows(transition, entries.last(), fact) {
            assert(entry_shows(transition, entries[last], fact));
        }
    }
}

proof fn lemma_scanned(oracle: RenameOracle, n: nat, fact: Fact)
    requires
        oracle.num_terms % 2 == 1,
        all_known(oracle),
        n <= oracle.num_terms - 1,
    ensures
        rename_laws::scanned(oracle, n) is Ok,
        well_sized(rename_laws::scanned(oracle, n)->Ok_0, oracle.num_terms),
        is_noted(rename_laws::scanned(oracle, n)->Ok_0, fact) == shows_until(
            oracle,
            n as int,
            fact,
        ),
    decreases n,
{
    if n > 0 {
        let t = n - 1;
        let entries = (oracle.entries)(t);
        lemma_scanned(oracle, t as nat, fact);
        assert forall|i: int| 0 <= i < entries.len() implies (#[trigger] entries[i]).1 is Ok by {
            assert((oracle.entries)(t)[i].1 is Ok);
        }
        lemma_entries(
            rename_laws::scanned(oracle, t as nat)->Ok_0,
            oracle.num_terms,
            t,
            entries,
            fact,
        );
        if shows_until(oracle, t, fact) {
            let s = choose|s: int|
                0 <= s < t && #[trigger] entries_show(s, (oracle.entries)(s), fact);
            assert(entries_show(s, (oracle.entries)(s), fact));
        }
        if shows_until(oracle, n as int, fact) {
            let s = choose|s: int|
                0 <= s < n && #[trigger] entries_show(s, (oracle.entries)(s), fact);
            if s < t {
                assert(shows_until(oracle, t, fact));
            }
        }
    }
}

/// Whether the mark is the same for both paths of each link that the differences show.
pub open spec fn marks_links(oracle: RenameOracle, mark: spec_fn(PathView) -> bool) -> bool {
    forall|a: PathView, b: PathView| #[trigger]
        shows(oracle, Fact::Link(a, b)) ==> mark(a) == mark(b)
}

/// Whether there is a way from one path to another by links that the differences show:
/// no mark that is the same for linked paths tells them apart.
pub open spec fn are_connected(oracle: RenameOracle, a: PathView, b: PathView) -> bool {
    forall|mark: spec_fn(PathView) -> bool| #[trigger]
        marks_links(oracle, mark) ==> mark(a) == mark(b)
}

/// Whether another path than the given one is a relative of it: both are mentioned, and
/// they are connected.
pub open spec fn are_relatives(oracle: RenameOracle, a: PathView, b: PathView) -> bool {
    &&& shows(oracle, Fact::Mention(a))
    &&& shows(oracle, Fact::Mention(b))
    &&& are_connected(oracle, a, b)
}

/// Whether a path is found in a merge term: a difference shows that it is present, or it
/// is mentioned, and the tree of the term has it.
pub open spec fn is_found(oracle: RenameOracle, term: int, path: PathView) -> bool {
    ||| shows(oracle, Fact::Present(term, path))
    ||| {
        let value = (oracle.values)(term, path);
        shows(oracle, Fact::Mention(path)) && !(value.len() == 1 && value[0] is None)
    }
}

/// The paths that are found in each merge term.
pub open spec fn found_paths(oracle: RenameOracle) -> Seq<Set<PathView>> {
    Seq::new(
        oracle.num_terms,
        |j: int| Set::new(|path: PathView| is_found(oracle, j, path)),
    )
}

/// The paths of the ancestors of a path.
pub open spec fn ancestors_of(oracle: RenameOracle, path: PathView) -> Seq<PathView> {
    ancestor_paths::ancestor_list(
        found_paths(oracle),
        oracle.values,
        oracle.copies,
        oracle.files(),
        path,
    )
}

/// Whether something was renamed from the path in some transition.
pub open spec fn is_renamed(oracle: RenameOracle, path: PathView) -> bool {
    exists|j: int| #[trigger] shows(oracle, Fact::Rename(j, path))
}

/// Whether something was renamed from the path on the way to two different merge terms.
pub open spec fn diverges(oracle: RenameOracle, path: PathView) -> bool {
    exists|i: int, j: int|
        i != j && #[trigger] shows(oracle, Fact::Rename(i, path)) && #[trigger] shows(
            oracle,
            Fact::Rename(j, path),
        )
}

/// Whether a relative of the path, or the path itself, diverges.
pub open spec fn group_diverges(oracle: RenameOracle, path: PathView) -> bool {
    exists|q: PathView| #[trigger] are_relatives(oracle, path, q) && diverges(oracle, q)
}

proof fn lemma_known(oracle: RenameOracle, fact: Fact)
    requires
        oracle.num_terms % 2 == 1,
        oracle.num_terms >= 3,
        all_known(oracle),
    ensures
        ({
            let scanned = rename_laws::scanned(oracle, (oracle.num_terms - 1) as nat);
            let known = rename_laws::known_facts(oracle, scanned->Ok_0);
            &&& scanned is Ok
            &&& rename_laws::rename_map_of(oracle) is Ok
            &&& well_sized(known, oracle.num_terms)
            &&& is_noted(known, fact) == match fact {
                Fact::Present(j, path) => 0 <= j < oracle.num_terms && is_found(oracle, j, path),
                _ => shows(oracle, fact),
            }
        }),
{
    let n = (oracle.num_terms - 1) as nat;
    lemma_scanned(oracle, n, fact);
    if let Fact::Present(j, path) = fact {
        lemma_scanned(oracle, n, Fact::Mention(path));
    }
}

spec fn known_of(oracle: RenameOracle) -> RenameFactsModel {
    rename_laws::known_facts(
        oracle,
        rename_laws::scanned(oracle, (oracle.num_terms - 1) as nat)->Ok_0,
    )
}

proof fn lemma_connected(oracle: RenameOracle, a: PathView, b: PathView)
    requires
        oracle.num_terms % 2 == 1,
        oracle.num_terms >= 3,
        all_known(oracle),
    ensures
        are_connected(oracle, a, b) == (path_groups::label(known_of(oracle).links, a)
            == path_groups::label(known_of(oracle).links, b)),
        are_relatives(oracle, a, b) == rename_map::in_same_group(known_of(oracle), a, b),
{
    let links = known_of(oracle).links;
    lemma_known(oracle, Fact::Mention(a));
    lemma_known(oracle, Fact::Mention(b));
    let same_label = |p: PathView| path_groups::label(links, p) == path_groups::label(links, a);
    let label_of = |p: PathView| path_groups::label(links, p);
    path_groups::law_groups(links, label_of, a, b);
    assert(marks_links(oracle, same_label)) by {
        assert forall|x: PathView, y: PathView| #[trigger]
            shows(oracle, Fact::Link(x, y)) implies same_label(x) == same_label(y) by {
            lemma_known(oracle, Fact::Link(x, y));
            let i = choose|i: int| 0 <= i < links.len() && links[i] == (x, y);
            assert(label_of(links[i].0) == label_of(links[i].1));
        }
    }
    if are_connected(oracle, a, b) {
        assert(same_label(a) == same_label(b));
    }
    if path_groups::label(links, a) == path_groups::label(links, b) {
        assert forall|mark: spec_fn(PathView) -> bool| #[trigger]
            marks_links(oracle, mark) implies mark(a) == mark(b) by {
            assert forall|i: int| 0 <= i < links.len() implies mark((#[trigger] links[i]).0)
                == mark(links[i].1) by {
                let (x, y) = links[i];
                assert(links.contains((x, y)));
                lemma_known(oracle, Fact::Link(x, y));
                assert(shows(oracle, Fact::Link(x, y)));
            }
            path_groups::law_groups(links, mark, a, b);
        }
    }
}

proof fn lemma_rename_count(sets: Seq<Set<PathView>>, path: PathView)
    ensures
        (rename_map::rename_count(sets, path) > 0) == exists|j: int|
            0 <= j < sets.len() && (#[trigger] sets[j]).contains(path),
        (rename_map::rename_count(sets, path) >= 2) == exists|i: int, j: int|
            0 <= i < j < sets.len() && (#[trigger] sets[i]).contains(path) && (
            #[trigger] sets[j]).contains(path),
    decreases sets.len(),
{
    if sets.len() > 0 {
        let fewer = sets.drop_last();
        let last = sets.len() - 1;
        lemma_rename_count(fewer, path);
        assert(sets[last] == sets.last());
        if rename_map::rename_count(fewer, path) > 0 {
            let j = choose|j: int| 0 <= j < fewer.len() && (#[trigger] fewer[j]).contains(path);
            assert(sets[j].contains(path));
        }
        if rename_map::rename_count(fewer, path) >= 2 {
            let (i, j) = choose|i: int, j: int|
                0 <= i < j < fewer.len() && (#[trigger] fewer[i]).contains(path) && (
                #[trigger] fewer[j]).contains(path);
            assert(sets[i].contains(path) && sets[j].contains(path));
        }
        if exists|j: int| 0 <= j < sets.len() && (#[trigger] sets[j]).contains(path) {
            let j = choose|j: int| 0 <= j < sets.len() && (#[trigger] sets[j]).contains(path);
            if j < last {
                assert(fewer[j].contains(path));
            }
        }
        if exists|i: int, j: int|
            0 <= i < j < sets.len() && (#[trigger] sets[i]).contains(path) && (
            #[trigger] sets[j]).contains(path) {
            let (i, j) = choose|i: int, j: int|
                0 <= i < j < sets.len() && (#[trigger] sets[i]).contains(path) && (
                #[trigger] sets[j]).contains(path);
            assert(fewer[i].contains(path));
            if j < last {
                assert(fewer[j].contains(path));
            }
        }
    }
}

proof fn lemma_renames(oracle: RenameOracle, path: PathView)
    requires
        oracle.num_terms % 2 == 1,
        oracle.num_terms >= 3,
        all_known(oracle),
    ensures
        is_renamed(oracle, path) == (rename_map::rename_count(known_of(oracle).renamed_from, path)
            > 0),
        diverges(oracle, path) == (rename_map::rename_count(known_of(oracle).renamed_from, path)
            >= 2),
{
    let sets = known_of(oracle).renamed_from;
    lemma_rename_count(sets, path);
    assert forall|j: int| #[trigger]
        shows(oracle, Fact::Rename(j, path)) == (0 <= j < sets.len() && sets[j].contains(path)) by {
        lemma_known(oracle, Fact::Rename(j, path));
    }
    if rename_map::rename_count(sets, path) > 0 {
        let j = choose|j: int| 0 <= j < sets.len() && (#[trigger] sets[j]).contains(path);
        assert(shows(oracle, Fact::Rename(j, path)));
    }
    if rename_map::rename_count(sets, path) >= 2 {
        let (i, j) = choose|i: int, j: int|
            0 <= i < j < sets.len() && (#[trigger] sets[i]).contains(path) && (
            #[trigger] sets[j]).contains(path);
        assert(shows(oracle, Fact::Rename(i, path)) && shows(oracle, Fact::Rename(j, path)));
    }
    if diverges(oracle, path) {
        let (i, j) = choose|i: int, j: int|
            i != j && #[trigger] shows(oracle, Fact::Rename(i, path)) && #[trigger] shows(
                oracle,
                Fact::Rename(j, path),
            );
        if i < j {
            assert(sets[i].contains(path) && sets[j].contains(path));
        } else {
            assert(sets[j].contains(path) && sets[i].contains(path));
        }
    }
}

proof fn lemma_found(oracle: RenameOracle, j: int, path: PathView)
    requires
        oracle.num_terms % 2 == 1,
        oracle.num_terms >= 3,
        all_known(oracle),
        0 <= j < oracle.num_terms,
    ensures
        known_of(oracle).presence.len() == oracle.num_terms,
        known_of(oracle).presence[j].contains(path) == is_found(oracle, j, path),
{
    lemma_known(oracle, Fact::Present(j, path));
}

proof fn lemma_found_paths(oracle: RenameOracle)
    requires
        oracle.num_terms % 2 == 1,
        oracle.num_terms >= 3,
        all_known(oracle),
    ensures
        known_of(oracle).presence == found_paths(oracle),
{
    let presence = known_of(oracle).presence;
    lemma_found(oracle, 0, Seq::empty());
    assert forall|j: int| 0 <= j < presence.len() implies presence[j] == found_paths(oracle)[j] by {
        assert forall|path: PathView| #[trigger]
            presence[j].contains(path) == found_paths(oracle)[j].contains(path) by {
            lemma_found(oracle, j, path);
        }
        assert(presence[j] =~= found_paths(oracle)[j]);
    }
    assert(presence =~= found_paths(oracle));
}

/// The lowest of the paths of a set that have a property.
proof fn lemma_lowest(paths: Set<PathView>, has: spec_fn(PathView) -> bool, path: PathView) -> (r:
    PathView)
    requires
        paths.finite(),
        paths.contains(path),
        has(path),
    ensures
        paths.contains(r),
        has(r),
        forall|q: PathView| #[trigger]
            paths.contains(q) && has(q) ==> q == r || order::path_less(r, q),
    decreases paths.len(),
{
    let rest = paths.remove(path);
    if exists|q: PathView| #[trigger] rest.contains(q) && has(q) {
        let other = choose|q: PathView| #[trigger] rest.contains(q) && has(q);
        let low = lemma_lowest(rest, has, other);
        order::lemma_paths(path, low, low);
        let r = if order::path_less(path, low) {
            path
        } else {
            low
        };
        assert forall|q: PathView| #[trigger] paths.contains(q) && has(q) implies q == r
            || order::path_less(r, q) by {
            if q != path {
                assert(rest.contains(q));
                order::lemma_paths(path, low, q);
            }
        }
        r
    } else {
        assert forall|q: PathView| #[trigger] paths.contains(q) && has(q) implies q == path by {
            if q != path {
                assert(rest.contains(q));
            }
        }
        path
    }
}

/// A path has an entry if and only if it has a relative.
pub proof fn law_mapped_paths(oracle: RenameOracle, path: PathView)
    requires
        oracle.num_terms % 2 == 1,
        oracle.num_terms >= 3,
        all_known(oracle),
    ensures
        rename_laws::rename_map_of(oracle) is Ok,
        (rename_laws::rename_map_of(oracle)->Ok_0)(path) is Some <==> exists|q: PathView|
            q != path && #[trigger] are_relatives(oracle, path, q),
{
    let known = known_of(oracle);
    lemma_known(oracle, Fact::Mention(path));
    assert forall|q: PathView| #[trigger] are_relatives(oracle, path, q)
        == rename_map::in_same_group(known, path, q) by {
        lemma_connected(oracle, path, q);
    }
    if rename_map::has_relatives(known, path) {
        let q = choose|q: PathView|
            q != path && #[trigger] rename_map::in_same_group(known, path, q);
        assert(are_relatives(oracle, path, q));
    }
}

/// A path with a relative is mapped to the absent merge if something was renamed from it in
/// any transition, and also if it is found in no side.
pub proof fn law_inactive_paths(oracle: RenameOracle, path: PathView)
    requires
        oracle.num_terms % 2 == 1,
        oracle.num_terms >= 3,
        all_known(oracle),
        is_renamed(oracle, path) || forall|j: int|
            0 <= j < oracle.num_terms && j % 2 == 0 ==> !#[trigger] is_found(oracle, j, path),
    ensures
        rename_laws::rename_map_of(oracle) is Ok,
        (rename_laws::rename_map_of(oracle)->Ok_0)(path) == if exists|q: PathView|
            q != path && #[trigger] are_relatives(oracle, path, q) {
            Some(seq![None::<PathView>])
        } else {
            None
        },
{
    let known = known_of(oracle);
    law_mapped_paths(oracle, path);
    lemma_known(oracle, Fact::Mention(path));
    lemma_renames(oracle, path);
    assert forall|j: int| 0 <= j < known.presence.len() implies (
    #[trigger] known.presence[j]).contains(path) == is_found(oracle, j, path) by {
        lemma_found(oracle, j, path);
    }
}

/// If a difference at another path has a resolved source that was renamed from a path, in
/// whichever transition, term and place, then that path is mapped to the absent merge.
pub proof fn law_renamed_away(
    oracle: RenameOracle,
    path: PathView,
    transition: int,
    entry: int,
    term: int,
    place: int,
)
    requires
        oracle.num_terms % 2 == 1,
        oracle.num_terms >= 3,
        all_known(oracle),
        0 <= transition < oracle.num_terms - 1,
        0 <= entry < (oracle.entries)(transition).len(),
        0 <= term < (oracle.entries)(transition)[entry].1->Ok_0.len(),
        0 <= place < (oracle.entries)(transition)[entry].1->Ok_0[term].sources.len(),
        (oracle.entries)(transition)[entry].1->Ok_0[term].sources[place].0
            == CopySourceView::Rename(path),
        (oracle.entries)(transition)[entry].1->Ok_0[term].sources[place].1.len() == 1,
        (oracle.entries)(transition)[entry].0 != path,
    ensures
        (rename_laws::rename_map_of(oracle)->Ok_0)(path) == Some(seq![None::<PathView>]),
{
    let shown = (oracle.entries)(transition)[entry];
    let target = shown.0;
    assert(shown.1 is Ok);
    let renamed = Fact::Rename(end_of(transition), path);
    let link = Fact::Link(path, target);
    lemma_shown_by(oracle, transition, entry, term, place, renamed);
    lemma_shown_by(oracle, transition, entry, term, place, link);
    lemma_shown_by(oracle, transition, entry, term, place, Fact::Mention(path));
    lemma_shown_by(oracle, transition, entry, term, place, Fact::Mention(target));
    assert(are_connected(oracle, path, target)) by {
        assert forall|mark: spec_fn(PathView) -> bool| #[trigger]
            marks_links(oracle, mark) implies mark(path) == mark(target) by {
            assert(shows(oracle, link));
        }
    }
    assert(are_relatives(oracle, path, target));
    law_mapped_paths(oracle, path);
    law_inactive_paths(oracle, path);
}

proof fn lemma_shown_by(
    oracle: RenameOracle,
    transition: int,
    entry: int,
    term: int,
    place: int,
    fact: Fact,
)
    requires
        0 <= transition < oracle.num_terms - 1,
        0 <= entry < (oracle.entries)(transition).len(),
        (oracle.entries)(transition)[entry].1 is Ok,
        0 <= term < (oracle.entries)(transition)[entry].1->Ok_0.len(),
        0 <= place < (oracle.entries)(transition)[entry].1->Ok_0[term].sources.len(),
        fact == Fact::Mention((oracle.entries)(transition)[entry].0) || source_shows(
            transition,
            (oracle.entries)(transition)[entry].0,
            (oracle.entries)(transition)[entry].1->Ok_0[term].sources[place],
            fact,
        ),
    ensures
        shows(oracle, fact),
{
    let entries = (oracle.entries)(transition);
    let target = entries[entry].0;
    let terms = entries[entry].1->Ok_0;
    if fact != Fact::Mention(target) {
        assert(source_shows(transition, target, terms[term].sources[place], fact));
        assert(sources_show(transition, target, terms[term].sources, fact));
    }
    assert(term_shows(transition, target, terms[term], fact));
    assert(terms_show(transition, target, terms, fact));
    assert(entry_shows(transition, entries[entry], fact));
    assert(entries_show(transition, (oracle.entries)(transition), fact));
}

/// A path that is found in a side, and from which nothing was renamed, has a path in each
/// term, if it has relatives. Where it is found, it is its own path. Elsewhere, if no
/// relative diverges, it is the lowest of the relatives that are found there. If one
/// does, it is the first of the ancestors that are found there.
pub proof fn law_active_paths(oracle: RenameOracle, path: PathView, relative: PathView, j: int)
    requires
        oracle.num_terms % 2 == 1,
        oracle.num_terms >= 3,
        all_known(oracle),
        relative != path,
        are_relatives(oracle, path, relative),
        !is_renamed(oracle, path),
        exists|side: int|
            0 <= side < oracle.num_terms && side % 2 == 0 && #[trigger] is_found(
                oracle,
                side,
                path,
            ),
        0 <= j < oracle.num_terms,
    ensures
        (rename_laws::rename_map_of(oracle)->Ok_0)(path) is Some,
        ({
            let terms = (rename_laws::rename_map_of(oracle)->Ok_0)(path)->0;
            let ancestors = ancestors_of(oracle, path);
            &&& terms.len() == oracle.num_terms
            &&& is_found(oracle, j, path) ==> terms[j] == Some(path)
            &&& !is_found(oracle, j, path) && !group_diverges(oracle, path) ==> match terms[j] {
                Some(first) => {
                    &&& are_relatives(oracle, path, first)
                    &&& is_found(oracle, j, first)
                    &&& forall|q: PathView| #[trigger]
                        are_relatives(oracle, path, q) && is_found(oracle, j, q) ==> q == first
                            || order::path_less(first, q)
                },
                None => forall|q: PathView| #[trigger]
                    are_relatives(oracle, path, q) ==> !is_found(oracle, j, q),
            }
            &&& !is_found(oracle, j, path) && group_diverges(oracle, path) ==> match terms[j] {
                Some(first) => exists|i: int|
                    {
                        &&& 0 <= i < ancestors.len()
                        &&& #[trigger] ancestors[i] == first
                        &&& is_found(oracle, j, first)
                        &&& forall|k: int|
                            0 <= k < i ==> !is_found(oracle, j, #[trigger] ancestors[k])
                    },
                None => forall|k: int|
                    0 <= k < ancestors.len() ==> !is_found(oracle, j, #[trigger] ancestors[k]),
            }
        }),
{
    let known = known_of(oracle);
    lemma_known(oracle, Fact::Mention(path));
    lemma_renames(oracle, path);
    lemma_found_paths(oracle);
    assert(ancestors_of(oracle, path) == oracle.ancestors(known, path));
    let ancestors = ancestors_of(oracle, path);
    assert forall|q: PathView| #[trigger] are_relatives(oracle, path, q)
        == rename_map::in_same_group(known, path, q) by {
        lemma_connected(oracle, path, q);
    }
    assert(rename_map::in_same_group(known, path, relative));
    let side = choose|side: int|
        0 <= side < oracle.num_terms && side % 2 == 0 && #[trigger] is_found(oracle, side, path);
    assert(known.presence[side].contains(path));
    assert(rename_map::is_active(known, path));
    let entry = rename_map::rename_entry(known, ancestors, path);
    let terms = entry->0;
    assert(terms[j] == rename_map::path_in_term(known, ancestors, path, j));
    assert forall|q: PathView| #[trigger] is_found(oracle, j, q) == known.presence[j].contains(
        q,
    ) by {}
    if !is_found(oracle, j, path) {
        assert(rename_map::has_divergent_rename(known, path) == group_diverges(oracle, path)) by {
            if rename_map::has_divergent_rename(known, path) {
                let q = choose|q: PathView| #[trigger]
                    rename_map::in_same_group(known, path, q) && rename_map::rename_count(
                        known.renamed_from,
                        q,
                    ) >= 2;
                lemma_renames(oracle, q);
                assert(are_relatives(oracle, path, q));
            }
            if group_diverges(oracle, path) {
                let q = choose|q: PathView| #[trigger]
                    are_relatives(oracle, path, q) && diverges(oracle, q);
                lemma_renames(oracle, q);
                assert(rename_map::in_same_group(known, path, q));
            }
        }
        if group_diverges(oracle, path) {
            let i = rename_map::lemma_first_in(ancestors, known.presence[j]);
        } else if exists|q: PathView| #[trigger]
            are_relatives(oracle, path, q) && is_found(oracle, j, q) {
            let q = choose|q: PathView| #[trigger]
                are_relatives(oracle, path, q) && is_found(oracle, j, q);
            let has = |p: PathView|
                rename_map::in_same_group(known, path, p) && known.presence[j].contains(p);
            let low = lemma_lowest(known.mentioned, has, q);
            assert forall|p: PathView| #[trigger]
                rename_map::in_same_group(known, path, p) && known.presence[j].contains(
                    p,
                ) implies p == low || order::path_less(low, p) by {
                assert(known.mentioned.contains(p) && has(p));
            }
            assert(rename_map::is_first_in_group(known, path, j, low));
            let first = choose|first: PathView|
                rename_map::is_first_in_group(known, path, j, first);
            assert(rename_map::is_first_in_group(known, path, j, first));
            assert(terms[j] == Some(first));
            assert(are_relatives(oracle, path, first));
            assert forall|p: PathView| #[trigger]
                are_relatives(oracle, path, p) && is_found(oracle, j, p) implies p == first
                || order::path_less(first, p) by {
                assert(rename_map::in_same_group(known, path, p));
            }
        } else {
            if exists|first: PathView| rename_map::is_first_in_group(known, path, j, first) {
                let first = choose|first: PathView|
                    rename_map::is_first_in_group(known, path, j, first);
                assert(are_relatives(oracle, path, first));
                assert(is_found(oracle, j, first));
            }
        }
    }
}

proof fn lemma_entries_error(
    facts: RenameFactsModel,
    transition: int,
    entries: Seq<CopyEntryView>,
    i: int,
)
    requires
        0 <= i < entries.len(),
        entries[i].1 is Err,
        forall|k: int| 0 <= k < i ==> (#[trigger] entries[k]).1 is Ok,
    ensures
        rename_laws::with_entries(facts, transition, entries) == Err::<
            RenameFactsModel,
            BackendError,
        >(entries[i].1->Err_0),
    decreases entries.len(),
{
    let fewer = entries.drop_last();
    if i < fewer.len() {
        assert forall|k: int| 0 <= k < i implies (#[trigger] fewer[k]).1 is Ok by {
            assert(fewer[k] == entries[k]);
        }
        lemma_entries_error(facts, transition, fewer, i);
    } else {
        assert forall|k: int| 0 <= k < fewer.len() implies (#[trigger] fewer[k]).1 is Ok by {
            assert(fewer[k] == entries[k]);
        }
        lemma_entries_known(facts, transition, fewer);
    }
}

proof fn lemma_entries_known(
    facts: RenameFactsModel,
    transition: int,
    entries: Seq<CopyEntryView>,
)
    requires
        forall|k: int| 0 <= k < entries.len() ==> (#[trigger] entries[k]).1 is Ok,
    ensures
        rename_laws::with_entries(facts, transition, entries) is Ok,
    decreases entries.len(),
{
    if entries.len() > 0 {
        let fewer = entries.drop_last();
        assert forall|k: int| 0 <= k < fewer.len() implies (#[trigger] fewer[k]).1 is Ok by {
            assert(fewer[k] == entries[k]);
        }
        lemma_entries_known(facts, transition, fewer);
        assert(entries[entries.len() - 1].1 is Ok);
    }
}

/// The first difference, in the order of the transitions, that is not known decides: if
/// copies are not supported there are no entries, and any other error is passed on.
pub proof fn law_unknown_difference(oracle: RenameOracle, transition: int, entry: int)
    requires
        oracle.num_terms >= 3,
        0 <= transition < oracle.num_terms - 1,
        0 <= entry < (oracle.entries)(transition).len(),
        (oracle.entries)(transition)[entry].1 is Err,
        forall|t: int, i: int|
            0 <= t < transition && 0 <= i < (oracle.entries)(t).len() ==> (
            #[trigger] (oracle.entries)(t)[i]).1 is Ok,
        forall|i: int|
            0 <= i < entry ==> (#[trigger] (oracle.entries)(transition)[i]).1 is Ok,
    ensures
        match (oracle.entries)(transition)[entry].1->Err_0 {
            BackendError::Unsupported(_) => rename_laws::rename_map_of(oracle) is Ok
                && forall|path: PathView|
                (#[trigger] (rename_laws::rename_map_of(oracle)->Ok_0)(path)) is None,
            err => rename_laws::rename_map_of(oracle) is Err && rename_laws::rename_map_of(
                oracle,
            )->Err_0 == err,
        },
{
    lemma_scan_error(oracle, transition, entry, (oracle.num_terms - 1) as nat);
}

proof fn lemma_scan_known(oracle: RenameOracle, n: nat)
    requires
        forall|t: int, i: int|
            0 <= t < n && 0 <= i < (oracle.entries)(t).len() ==> (
            #[trigger] (oracle.entries)(t)[i]).1 is Ok,
    ensures
        rename_laws::scanned(oracle, n) is Ok,
    decreases n,
{
    if n > 0 {
        let t = n - 1;
        let entries = (oracle.entries)(t);
        lemma_scan_known(oracle, t as nat);
        assert forall|k: int| 0 <= k < entries.len() implies (#[trigger] entries[k]).1 is Ok by {
            assert((oracle.entries)(t)[k].1 is Ok);
        }
        lemma_entries_known(
            rename_laws::scanned(oracle, t as nat)->Ok_0,
            t,
            entries,
        );
    }
}

proof fn lemma_scan_error(oracle: RenameOracle, transition: int, entry: int, n: nat)
    requires
        0 <= transition < n,
        0 <= entry < (oracle.entries)(transition).len(),
        (oracle.entries)(transition)[entry].1 is Err,
        forall|t: int, i: int|
            0 <= t < transition && 0 <= i < (oracle.entries)(t).len() ==> (
            #[trigger] (oracle.entries)(t)[i]).1 is Ok,
        forall|i: int|
            0 <= i < entry ==> (#[trigger] (oracle.entries)(transition)[i]).1 is Ok,
    ensures
        rename_laws::scanned(oracle, n) == Err::<RenameFactsModel, BackendError>(
            (oracle.entries)(transition)[entry].1->Err_0,
        ),
    decreases n,
{
    if transition == n - 1 {
        lemma_scan_known(oracle, transition as nat);
        lemma_entries_error(
            rename_laws::scanned(oracle, transition as nat)->Ok_0,
            transition,
            (oracle.entries)(transition),
            entry,
        );
    } else {
        lemma_scan_error(oracle, transition, entry, (n - 1) as nat);
    }
}

/// A merge of one side has no renames.
pub proof fn law_no_renames(oracle: RenameOracle, path: PathView)
    requires
        oracle.num_terms == 1,
    ensures
        rename_laws::rename_map_of(oracle) is Ok,
        (rename_laws::rename_map_of(oracle)->Ok_0)(path) is None,
{
}

} // verus!
