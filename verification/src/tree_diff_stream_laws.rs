//! What a stream of differences gives, in whatever order the trees are read.

use crate::backend::BackendError;
use crate::listing;
use crate::matchers::Matcher;
use crate::merge;
use crate::merge::Diff;
use crate::order;
use crate::path_map;
use crate::repo_path;
use crate::repo_path::PathView;
use crate::store::Store;
use crate::tree_diff;
use crate::tree_diff::DiffResult;
use crate::tree_diff_laws;
use crate::tree_diff_laws::TreePair;
use crate::tree_diff_stream;
use crate::tree_diff_stream::DiffStreamModel;
use crate::tree_diff_stream::PolledView;
use crate::tree_diff_stream::TreePairResult;
use crate::tree_read;
use crate::tree_read::Reads;
use crate::tree_value::MergedValueView;
use crate::tree_value::TreeValueView;
use crate::tree_walk_laws;
use vstd::prelude::*;

verus! {

/// Something that happens to a stream.
pub ghost enum StreamEvent {
    /// The trees of a pending directory have been read.
    Read(PathView),
    /// The first item is emitted.
    Emit,
}

/// Whether the first item can be emitted: it comes before all pending
/// directories.
pub open spec fn is_ready(model: DiffStreamModel, path: PathView) -> bool {
    &&& path_map::is_first_path(model.items.dom(), path)
    &&& forall|dir: PathView| #[trigger]
        model.pending.dom().contains(dir) ==> order::path_less(path, dir)
}

/// All that a stream emits in the course of the given events, if they can happen
/// and nothing is left then.
pub open spec fn stream_run<M: Matcher>(
    reads: Reads,
    matcher: &M,
    model: DiffStreamModel,
    events: Seq<StreamEvent>,
) -> Option<Seq<(PathView, DiffResult)>>
    decreases events.len(),
{
    if events.len() == 0 {
        if model.items.dom() == Set::<PathView>::empty() && model.pending.dom() == Set::<
            PathView,
        >::empty() {
            Some(Seq::empty())
        } else {
            None
        }
    } else {
        let rest = events.drop_first();
        match events[0] {
            StreamEvent::Read(dir) => if model.pending.dom().contains(dir) {
                let trees = tree_diff_laws::read_pair(
                    reads,
                    model.store,
                    dir,
                    model.pending[dir],
                );
                stream_run(
                    reads,
                    matcher,
                    tree_diff_stream::with_trees(matcher, model, dir, trees),
                    rest,
                )
            } else {
                None
            },
            StreamEvent::Emit => if exists|path: PathView| is_ready(model, path) {
                let path = choose|path: PathView| is_ready(model, path);
                tree_walk_laws::prepend(
                    (path, model.items[path]),
                    stream_run(
                        reads,
                        matcher,
                        DiffStreamModel { items: model.items.remove(path), ..model },
                        rest,
                    ),
                )
            } else {
                None
            },
        }
    }
}

/// Whether a path lies in a pending directory.
pub open spec fn in_pending(model: DiffStreamModel, path: PathView) -> bool {
    exists|dir: PathView| #[trigger]
        model.pending.dom().contains(dir) && repo_path::path_starts_with(path, dir)
}

/// What is still to be emitted: what is shown in the pending directories, and
/// the items elsewhere.
pub open spec fn still_to_emit<M: Matcher>(
    pair: TreePair,
    matcher: &M,
    model: DiffStreamModel,
) -> spec_fn(PathView) -> Option<DiffResult> {
    |path: PathView|
        if in_pending(model, path) {
            pair.shown_diff(matcher)(path)
        } else if model.items.dom().contains(path) {
            Some(model.items[path])
        } else {
            None
        }
}

/// Whether a stream can be in this state: the pending directories differ and are
/// apart, and the only items in them are what they may show themselves.
pub open spec fn valid_stream<M: Matcher>(
    pair: TreePair,
    matcher: &M,
    model: DiffStreamModel,
) -> bool {
    &&& model.store == pair.store
    &&& forall|q: PathView| #[trigger]
        model.pending.dom().contains(q) ==> {
            &&& pair.differs_at(matcher, q)
            &&& model.pending[q] == pair.diff_at(matcher, q)
            &&& tree_diff::has_tree(model.pending[q])
            &&& model.items.dom().contains(q) == (matcher.selects(q) && model.pending[q].before
                != model.pending[q].after)
            &&& model.items.dom().contains(q) ==> model.items[q] == Ok::<
                Diff<MergedValueView>,
                BackendError,
            >(model.pending[q])
        }
    &&& forall|q: PathView, r: PathView| #[trigger]
        model.pending.dom().contains(q) && #[trigger] model.pending.dom().contains(r) && q != r
            ==> !repo_path::path_starts_with(q, r)
    &&& forall|p: PathView, q: PathView| #[trigger]
        model.items.dom().contains(p) && #[trigger] model.pending.dom().contains(q)
            && repo_path::path_starts_with(p, q) ==> p == q
}

/// What is pending and what is to be emitted once more differences have been
/// added.
proof fn lemma_with_diffs<M: Matcher>(
    matcher: &M,
    model: DiffStreamModel,
    diffs: Seq<(PathView, Diff<MergedValueView>)>,
)
    requires
        listing::sorted_by(order::path_order(), diffs),
    ensures
        ({
            let next = tree_diff_stream::with_diffs(matcher, model, diffs);
            &&& next.store == model.store
            &&& forall|p: PathView| #[trigger]
                next.pending.dom().contains(p) == (model.pending.dom().contains(p) || (
                listing::lookup(diffs, p) is Some && tree_diff::has_tree(
                    listing::lookup(diffs, p)->0,
                )))
            &&& forall|p: PathView| #[trigger]
                next.items.dom().contains(p) == (model.items.dom().contains(p) || (listing::lookup(
                    diffs,
                    p,
                ) is Some && matcher.selects(p)))
            &&& forall|p: PathView| #[trigger]
                next.pending.dom().contains(p) ==> next.pending[p] == (if listing::lookup(
                    diffs,
                    p,
                ) is Some && tree_diff::has_tree(listing::lookup(diffs, p)->0) {
                    listing::lookup(diffs, p)->0
                } else {
                    model.pending[p]
                })
            &&& forall|p: PathView| #[trigger]
                next.items.dom().contains(p) ==> next.items[p] == (if listing::lookup(
                    diffs,
                    p,
                ) is Some && matcher.selects(p) {
                    Ok(listing::lookup(diffs, p)->0)
                } else {
                    model.items[p]
                })
        }),
    decreases diffs.len(),
{
    order::lemma_path_order();
    if diffs.len() > 0 {
        let last = diffs.len() - 1;
        let rest = diffs.drop_last();
        assert(rest =~= diffs.remove(last));
        listing::lemma_lookup_remove(order::path_order(), diffs, last);
        listing::lemma_lookup_at(order::path_order(), diffs, last);
        lemma_with_diffs(matcher, model, rest);
        let before = tree_diff_stream::with_diffs(matcher, model, rest);
        let next = tree_diff_stream::with_diffs(matcher, model, diffs);
        assert forall|p: PathView| true implies {
            &&& #[trigger] next.pending.dom().contains(p) == (model.pending.dom().contains(p) || (
            listing::lookup(diffs, p) is Some && tree_diff::has_tree(listing::lookup(diffs, p)->0)))
            &&& next.pending.dom().contains(p) ==> next.pending[p] == (if listing::lookup(
                diffs,
                p,
            ) is Some && tree_diff::has_tree(listing::lookup(diffs, p)->0) {
                listing::lookup(diffs, p)->0
            } else {
                model.pending[p]
            })
        } by {
            assert(before.pending.dom().contains(p) == (model.pending.dom().contains(p) || (
            listing::lookup(rest, p) is Some && tree_diff::has_tree(listing::lookup(rest, p)->0))));
        }
        assert forall|p: PathView| true implies {
            &&& #[trigger] next.items.dom().contains(p) == (model.items.dom().contains(p) || (
            listing::lookup(diffs, p) is Some && matcher.selects(p)))
            &&& next.items.dom().contains(p) ==> next.items[p] == (if listing::lookup(
                diffs,
                p,
            ) is Some && matcher.selects(p) {
                Ok(listing::lookup(diffs, p)->0)
            } else {
                model.items[p]
            })
        } by {
            assert(before.items.dom().contains(p) == (model.items.dom().contains(p) || (
            listing::lookup(rest, p) is Some && matcher.selects(p))));
        }
    }
}

/// Reading the trees of a pending directory changes nothing in what is still to
/// be emitted.
pub proof fn law_stream_read<M: Matcher>(
    pair: TreePair,
    matcher: &M,
    model: DiffStreamModel,
    dir: PathView,
)
    requires
        pair.valid(),
        valid_stream(pair, matcher, model),
        model.pending.dom().contains(dir),
    ensures
        ({
            let trees = tree_diff_laws::read_pair(
                pair.reads,
                pair.store,
                dir,
                model.pending[dir],
            );
            let next = tree_diff_stream::with_trees(matcher, model, dir, trees);
            &&& valid_stream(pair, matcher, next)
            &&& forall|p: PathView| #[trigger]
                still_to_emit(pair, matcher, next)(p) == still_to_emit(pair, matcher, model)(p)
        }),
{
    let diff = model.pending[dir];
    let trees = tree_diff_laws::read_pair(pair.reads, pair.store, dir, diff);
    let next = tree_diff_stream::with_trees(matcher, model, dir, trees);
    let rest = DiffStreamModel { pending: model.pending.remove(dir), ..model };
    assert(dir.take(dir.len() as int) =~= dir);
    match trees {
        Err(err) => {
            assert forall|p: PathView| #[trigger]
                still_to_emit(pair, matcher, next)(p) == still_to_emit(pair, matcher, model)(p) by {
                lemma_one_pending(pair, matcher, model, dir, next, p);
                if repo_path::path_starts_with(p, dir) {
                    assert(in_pending(model, p));
                    if p != dir {
                        tree_diff_laws::lemma_nothing_below_unreadable(pair, matcher, dir, p);
                        if next.items.dom().contains(p) {
                            assert(model.items.dom().contains(p));
                        }
                    }
                }
            }
            assert forall|p: PathView, q: PathView| #[trigger]
                next.items.dom().contains(p) && #[trigger] next.pending.dom().contains(q)
                    && repo_path::path_starts_with(p, q) implies p == q by {
                assert(model.pending.dom().contains(q));
                if p != dir {
                    assert(model.items.dom().contains(p));
                }
            }
            assert forall|q: PathView| #[trigger] next.pending.dom().contains(q) implies {
                &&& pair.differs_at(matcher, q)
                &&& next.pending[q] == pair.diff_at(matcher, q)
                &&& tree_diff::has_tree(next.pending[q])
                &&& next.items.dom().contains(q) == (matcher.selects(q) && next.pending[q].before
                    != next.pending[q].after)
                &&& next.items.dom().contains(q) ==> next.items[q] == Ok::<
                    Diff<MergedValueView>,
                    BackendError,
                >(next.pending[q])
            } by {
                assert(model.pending.dom().contains(q));
            }
            assert forall|q: PathView, r: PathView| #[trigger]
                next.pending.dom().contains(q) && #[trigger] next.pending.dom().contains(r) && q
                    != r implies !repo_path::path_starts_with(q, r) by {
                assert(model.pending.dom().contains(q) && model.pending.dom().contains(r));
            }
        },
        Ok((trees1, trees2)) => {
            let c = tree_diff::dir_diff(matcher, dir, trees1, trees2);
            tree_diff_laws::lemma_dir_diff(pair, matcher, dir);
            lemma_with_diffs(matcher, rest, c);
            lemma_read_valid(pair, matcher, model, dir, c, next);
            assert forall|p: PathView| #[trigger]
                still_to_emit(pair, matcher, next)(p) == still_to_emit(pair, matcher, model)(p) by {
                lemma_read_same(pair, matcher, model, dir, c, next, p);
            }
        },
    }
}

/// A path lies in a pending directory after one has been read and nothing was
/// added, if it lay in another one.
proof fn lemma_one_pending<M: Matcher>(
    pair: TreePair,
    matcher: &M,
    model: DiffStreamModel,
    dir: PathView,
    next: DiffStreamModel,
    p: PathView,
)
    requires
        valid_stream(pair, matcher, model),
        model.pending.dom().contains(dir),
        next.pending == model.pending.remove(dir),
    ensures
        repo_path::path_starts_with(p, dir) ==> !in_pending(next, p),
        !repo_path::path_starts_with(p, dir) ==> in_pending(next, p) == in_pending(model, p),
{
    if in_pending(next, p) {
        let q = choose|q: PathView| #[trigger]
            next.pending.dom().contains(q) && repo_path::path_starts_with(p, q);
        assert(model.pending.dom().contains(q));
        if repo_path::path_starts_with(p, dir) {
            repo_path::lemma_bases_nested(p, q, dir);
        }
    }
    if in_pending(model, p) && !repo_path::path_starts_with(p, dir) {
        let q = choose|q: PathView| #[trigger]
            model.pending.dom().contains(q) && repo_path::path_starts_with(p, q);
        assert(next.pending.dom().contains(q));
    }
}

/// What was added when a directory was read.
spec fn read_into<M: Matcher>(
    pair: TreePair,
    matcher: &M,
    model: DiffStreamModel,
    dir: PathView,
    c: Seq<(PathView, Diff<MergedValueView>)>,
    next: DiffStreamModel,
) -> bool {
    &&& pair.valid()
    &&& valid_stream(pair, matcher, model)
    &&& model.pending.dom().contains(dir)
    &&& tree_walk_laws::apart(c)
    &&& forall|i: int|
        0 <= i < c.len() ==> {
            &&& repo_path::path_starts_with((#[trigger] c[i]).0, dir)
            &&& c[i].0.len() == dir.len() + 1
            &&& pair.differs_at(matcher, c[i].0)
            &&& c[i].1 == pair.diff_at(matcher, c[i].0)
        }
    &&& next.store == model.store
    &&& forall|p: PathView| #[trigger]
        next.pending.dom().contains(p) == ((model.pending.dom().contains(p) && p != dir) || (
        listing::lookup(c, p) is Some && tree_diff::has_tree(listing::lookup(c, p)->0)))
    &&& forall|p: PathView| #[trigger]
        next.items.dom().contains(p) == (model.items.dom().contains(p) || (listing::lookup(
            c,
            p,
        ) is Some && matcher.selects(p)))
    &&& forall|p: PathView| #[trigger]
        next.pending.dom().contains(p) ==> next.pending[p] == (if listing::lookup(c, p) is Some
            && tree_diff::has_tree(listing::lookup(c, p)->0) {
            listing::lookup(c, p)->0
        } else {
            model.pending[p]
        })
    &&& forall|p: PathView| #[trigger]
        next.items.dom().contains(p) ==> next.items[p] == (if listing::lookup(c, p) is Some
            && matcher.selects(p) {
            Ok(listing::lookup(c, p)->0)
        } else {
            model.items[p]
        })
}

/// What was found in a directory lies in it and differs.
proof fn lemma_found<M: Matcher>(
    pair: TreePair,
    matcher: &M,
    model: DiffStreamModel,
    dir: PathView,
    c: Seq<(PathView, Diff<MergedValueView>)>,
    next: DiffStreamModel,
    p: PathView,
)
    requires
        read_into(pair, matcher, model, dir, c, next),
        listing::lookup(c, p) is Some,
    ensures
        repo_path::path_starts_with(p, dir),
        p.len() == dir.len() + 1,
        pair.differs_at(matcher, p),
        listing::lookup(c, p)->0 == pair.diff_at(matcher, p),
        !model.items.dom().contains(p),
        !model.pending.dom().contains(p),
        forall|q: PathView| #[trigger]
            model.pending.dom().contains(q) && q != dir ==> !repo_path::path_starts_with(p, q)
                && !repo_path::path_starts_with(q, p),
        forall|q: PathView| #[trigger]
            model.items.dom().contains(q) ==> !repo_path::path_starts_with(q, p),
{
    let i = listing::lemma_lookup_some(c, p);
    assert(c[i].0 == p);
    if model.items.dom().contains(p) {
        assert(p == dir);
    }
    if model.pending.dom().contains(p) {
        assert(p == dir);
    }
    assert forall|q: PathView| #[trigger] model.pending.dom().contains(q) && q != dir implies !
    repo_path::path_starts_with(p, q) && !repo_path::path_starts_with(q, p) by {
        if repo_path::path_starts_with(p, q) {
            repo_path::lemma_bases_nested(p, q, dir);
        }
        if repo_path::path_starts_with(q, p) {
            repo_path::lemma_starts_with_trans(q, p, dir);
        }
    }
    assert forall|q: PathView| #[trigger] model.items.dom().contains(q) implies !
    repo_path::path_starts_with(q, p) by {
        if repo_path::path_starts_with(q, p) {
            repo_path::lemma_starts_with_trans(q, p, dir);
            assert(q == dir);
        }
    }
}

proof fn lemma_read_valid<M: Matcher>(
    pair: TreePair,
    matcher: &M,
    model: DiffStreamModel,
    dir: PathView,
    c: Seq<(PathView, Diff<MergedValueView>)>,
    next: DiffStreamModel,
)
    requires
        read_into(pair, matcher, model, dir, c, next),
    ensures
        valid_stream(pair, matcher, next),
{
    assert forall|q: PathView| #[trigger] next.pending.dom().contains(q) implies {
        &&& pair.differs_at(matcher, q)
        &&& next.pending[q] == pair.diff_at(matcher, q)
        &&& tree_diff::has_tree(next.pending[q])
        &&& next.items.dom().contains(q) == (matcher.selects(q) && next.pending[q].before
            != next.pending[q].after)
        &&& next.items.dom().contains(q) ==> next.items[q] == Ok::<
            Diff<MergedValueView>,
            BackendError,
        >(next.pending[q])
    } by {
        if listing::lookup(c, q) is Some {
            lemma_found(pair, matcher, model, dir, c, next, q);
            tree_diff_laws::lemma_shown_differ(pair, matcher, q);
        } else {
            assert(model.pending.dom().contains(q));
            assert(next.items.dom().contains(q) == model.items.dom().contains(q));
        }
    }
    assert forall|q: PathView, r: PathView| #[trigger]
        next.pending.dom().contains(q) && #[trigger] next.pending.dom().contains(r) && q
            != r implies !repo_path::path_starts_with(q, r) by {
        if listing::lookup(c, q) is Some {
            lemma_found(pair, matcher, model, dir, c, next, q);
            if listing::lookup(c, r) is Some {
                lemma_found(pair, matcher, model, dir, c, next, r);
                if repo_path::path_starts_with(q, r) {
                    assert(q.take(r.len() as int) =~= q);
                }
            } else {
                assert(model.pending.dom().contains(r));
            }
        } else {
            assert(model.pending.dom().contains(q));
            if listing::lookup(c, r) is Some {
                lemma_found(pair, matcher, model, dir, c, next, r);
            } else {
                assert(model.pending.dom().contains(r));
            }
        }
    }
    assert forall|p: PathView, q: PathView| #[trigger]
        next.items.dom().contains(p) && #[trigger] next.pending.dom().contains(q)
            && repo_path::path_starts_with(p, q) implies p == q by {
        if listing::lookup(c, p) is Some {
            lemma_found(pair, matcher, model, dir, c, next, p);
            if listing::lookup(c, q) is Some {
                lemma_found(pair, matcher, model, dir, c, next, q);
                assert(p.take(q.len() as int) =~= p);
            } else {
                assert(model.pending.dom().contains(q));
            }
        } else {
            assert(model.items.dom().contains(p));
            if listing::lookup(c, q) is Some {
                lemma_found(pair, matcher, model, dir, c, next, q);
            } else {
                assert(model.pending.dom().contains(q));
            }
        }
    }
}

proof fn lemma_read_same<M: Matcher>(
    pair: TreePair,
    matcher: &M,
    model: DiffStreamModel,
    dir: PathView,
    c: Seq<(PathView, Diff<MergedValueView>)>,
    next: DiffStreamModel,
    p: PathView,
)
    requires
        read_into(pair, matcher, model, dir, c, next),
        tree_diff_laws::read_pair(pair.reads, pair.store, dir, model.pending[dir]) is Ok,
        repo_path::path_starts_with(p, dir) && p != dir && pair.shown_diff(matcher)(p) is Some
            ==> tree_walk_laws::covered(c, p),
    ensures
        still_to_emit(pair, matcher, next)(p) == still_to_emit(pair, matcher, model)(p),
{
    let f = pair.shown_diff(matcher);
    order::lemma_path_order();
    if !repo_path::path_starts_with(p, dir) {
        if in_pending(model, p) {
            let q = choose|q: PathView| #[trigger]
                model.pending.dom().contains(q) && repo_path::path_starts_with(p, q);
            assert(next.pending.dom().contains(q));
        }
        if in_pending(next, p) {
            let q = choose|q: PathView| #[trigger]
                next.pending.dom().contains(q) && repo_path::path_starts_with(p, q);
            if listing::lookup(c, q) is Some {
                lemma_found(pair, matcher, model, dir, c, next, q);
                repo_path::lemma_starts_with_trans(p, q, dir);
            }
            assert(model.pending.dom().contains(q));
        }
        if listing::lookup(c, p) is Some {
            lemma_found(pair, matcher, model, dir, c, next, p);
        }
        assert(next.items.dom().contains(p) == model.items.dom().contains(p));
    } else {
        assert(in_pending(model, p));
        if in_pending(next, p) {
        } else {
            // Not pending any more: the directory itself, or a file in it.
            if p == dir {
                if listing::lookup(c, p) is Some {
                    lemma_found(pair, matcher, model, dir, c, next, p);
                }
                assert(next.items.dom().contains(p) == model.items.dom().contains(p));
            } else if listing::lookup(c, p) is Some {
                lemma_found(pair, matcher, model, dir, c, next, p);
                assert(p.take(p.len() as int) =~= p);
                let found = listing::lookup(c, p)->0;
                if tree_diff::has_tree(found) {
                    assert(next.pending.dom().contains(p));
                    assert(in_pending(next, p));
                }
                tree_diff_laws::lemma_shown_differ(pair, matcher, p);
                assert(next.items.dom().contains(p));
            } else {
                if model.items.dom().contains(p) {
                    assert(p == dir);
                }
                assert(!next.items.dom().contains(p));
                if f(p) is Some {
                    let i = choose|i: int|
                        0 <= i < c.len() && repo_path::path_starts_with(p, (#[trigger] c[i]).0);
                    listing::lemma_lookup_at(order::path_order(), c, i);
                    let q = c[i].0;
                    if tree_diff::has_tree(c[i].1) {
                        assert(next.pending.dom().contains(q));
                        assert(in_pending(next, p));
                    } else {
                        assert(p != q);
                        tree_diff_laws::lemma_nothing_below_files_item(pair, matcher, q, p);
                    }
                }
            }
        }
    }
}

/// The first item that is emitted is the first of all that is still to be
/// emitted, and the rest is still to be emitted then.
pub proof fn law_stream_emit<M: Matcher>(
    pair: TreePair,
    matcher: &M,
    model: DiffStreamModel,
    path: PathView,
)
    requires
        valid_stream(pair, matcher, model),
        is_ready(model, path),
    ensures
        ({
            let next = DiffStreamModel { items: model.items.remove(path), ..model };
            &&& valid_stream(pair, matcher, next)
            &&& still_to_emit(pair, matcher, model)(path) == Some(model.items[path])
            &&& forall|p: PathView| #[trigger]
                still_to_emit(pair, matcher, next)(p) == (if p == path {
                    None
                } else {
                    still_to_emit(pair, matcher, model)(p)
                })
            &&& forall|p: PathView|
                (#[trigger] still_to_emit(pair, matcher, model)(p)) is Some ==> p == path
                    || order::path_less(path, p)
        }),
{
    let next = DiffStreamModel { items: model.items.remove(path), ..model };
    assert(!in_pending(model, path)) by {
        if in_pending(model, path) {
            let q = choose|q: PathView| #[trigger]
                model.pending.dom().contains(q) && repo_path::path_starts_with(path, q);
            repo_path::lemma_prefix_before(q, path);
            order::lemma_paths(path, q, path);
        }
    }
    assert forall|q: PathView| #[trigger] next.pending.dom().contains(q) implies {
        &&& pair.differs_at(matcher, q)
        &&& next.pending[q] == pair.diff_at(matcher, q)
        &&& tree_diff::has_tree(next.pending[q])
        &&& next.items.dom().contains(q) == (matcher.selects(q) && next.pending[q].before
            != next.pending[q].after)
        &&& next.items.dom().contains(q) ==> next.items[q] == Ok::<
            Diff<MergedValueView>,
            BackendError,
        >(next.pending[q])
    } by {
        assert(model.pending.dom().contains(q));
        order::lemma_paths(path, path, path);
    }
    assert forall|p: PathView| in_pending(next, p) == #[trigger] in_pending(model, p) by {
        if in_pending(model, p) {
            let q = choose|q: PathView| #[trigger]
                model.pending.dom().contains(q) && repo_path::path_starts_with(p, q);
            assert(next.pending.dom().contains(q));
        }
        if in_pending(next, p) {
            let q = choose|q: PathView| #[trigger]
                next.pending.dom().contains(q) && repo_path::path_starts_with(p, q);
            assert(model.pending.dom().contains(q));
        }
    }
    assert forall|p: PathView| #[trigger]
        still_to_emit(pair, matcher, next)(p) == (if p == path {
            None
        } else {
            still_to_emit(pair, matcher, model)(p)
        }) by {
        assert(in_pending(next, p) == in_pending(model, p));
    }
    assert forall|p: PathView|
        (#[trigger] still_to_emit(pair, matcher, model)(p)) is Some implies p == path
        || order::path_less(path, p) by {
        if in_pending(model, p) {
            let q = choose|q: PathView| #[trigger]
                model.pending.dom().contains(q) && repo_path::path_starts_with(p, q);
            repo_path::lemma_prefix_before(q, p);
            order::lemma_paths(path, q, p);
        } else {
            assert(model.items.dom().contains(p));
        }
    }
}

proof fn lemma_stream_run<M: Matcher>(
    pair: TreePair,
    matcher: &M,
    model: DiffStreamModel,
    events: Seq<StreamEvent>,
)
    requires
        pair.valid(),
        valid_stream(pair, matcher, model),
        stream_run(pair.reads, matcher, model, events) is Some,
    ensures
        listing::tabulates(
            order::path_order(),
            stream_run(pair.reads, matcher, model, events)->0,
            still_to_emit(pair, matcher, model),
        ),
    decreases events.len(),
{
    let out = stream_run(pair.reads, matcher, model, events)->0;
    let f = still_to_emit(pair, matcher, model);
    let less = order::path_order();
    order::lemma_path_order();
    if events.len() == 0 {
        assert forall|p: PathView| #[trigger] listing::lookup(out, p) == f(p) by {
            assert(!model.items.dom().contains(p));
            if in_pending(model, p) {
                let q = choose|q: PathView| #[trigger]
                    model.pending.dom().contains(q) && repo_path::path_starts_with(p, q);
                assert(Set::<PathView>::empty().contains(q));
            }
        }
    } else {
        let rest = events.drop_first();
        match events[0] {
            StreamEvent::Read(dir) => {
                law_stream_read(pair, matcher, model, dir);
                let trees = tree_diff_laws::read_pair(
                    pair.reads,
                    pair.store,
                    dir,
                    model.pending[dir],
                );
                let next = tree_diff_stream::with_trees(matcher, model, dir, trees);
                lemma_stream_run(pair, matcher, next, rest);
                let g = still_to_emit(pair, matcher, next);
                assert forall|p: PathView| #[trigger] listing::lookup(out, p) == f(p) by {
                    assert(listing::lookup(out, p) == g(p));
                    assert(g(p) == still_to_emit(pair, matcher, next)(p));
                }
            },
            StreamEvent::Emit => {
                let path = choose|path: PathView| is_ready(model, path);
                law_stream_emit(pair, matcher, model, path);
                let next = DiffStreamModel { items: model.items.remove(path), ..model };
                lemma_stream_run(pair, matcher, next, rest);
                let after = stream_run(pair.reads, matcher, next, rest)->0;
                let g = still_to_emit(pair, matcher, next);
                let value = model.items[path];
                assert forall|i: int| 0 <= i < after.len() implies less(
                    path,
                    (#[trigger] after[i]).0,
                ) by {
                    listing::lemma_lookup_at(less, after, i);
                    let p = after[i].0;
                    assert(listing::lookup(after, p) == g(p));
                    assert(still_to_emit(pair, matcher, next)(p) is Some);
                    assert(still_to_emit(pair, matcher, model)(p) is Some);
                }
                assert(after.insert(0, (path, value)) =~= seq![(path, value)] + after);
                listing::lemma_lookup_insert(less, after, 0, path, value);
                assert forall|p: PathView| #[trigger] listing::lookup(out, p) == f(p) by {
                    assert(listing::lookup(after, p) == g(p));
                    assert(still_to_emit(pair, matcher, next)(p) == g(p));
                }
            },
        }
    }
}

/// A stream of the differences between two trees gives what is shown at each
/// path, sorted by path, in whatever order the trees are read.
pub proof fn law_diff_stream<M: Matcher>(
    reads: Reads,
    store: Store,
    ids1: Seq<Seq<u8>>,
    ids2: Seq<Seq<u8>>,
    matcher: &M,
    max_concurrent_reads: usize,
    events: Seq<StreamEvent>,
)
    requires
        tree_read::valid_reads(reads),
        ids1.len() % 2 == 1,
        ids2.len() % 2 == 1,
        stream_run(
            reads,
            matcher,
            tree_diff_stream::stream_start(matcher, store, ids1, ids2, max_concurrent_reads),
            events,
        ) is Some,
    ensures
        listing::tabulates(
            order::path_order(),
            stream_run(
                reads,
                matcher,
                tree_diff_stream::stream_start(matcher, store, ids1, ids2, max_concurrent_reads),
                events,
            )->0,
            tree_diff_laws::pair_of(reads, store, ids1, ids2).shown_diff(matcher),
        ),
{
    let pair = tree_diff_laws::pair_of(reads, store, ids1, ids2);
    let model = tree_diff_stream::stream_start(matcher, store, ids1, ids2, max_concurrent_reads);
    let root = PathView::empty();
    assert(pair.before[0] is Some && pair.after[0] is Some);
    assert(pair.valid());
    assert(pair.differs_at(matcher, root));
    assert(valid_stream(pair, matcher, model));
    lemma_stream_run(pair, matcher, model, events);
    let out = stream_run(reads, matcher, model, events)->0;
    let f = pair.shown_diff(matcher);
    assert forall|p: PathView| #[trigger] listing::lookup(out, p) == f(p) by {
        assert(p.take(0) =~= root);
        assert(model.pending.dom().contains(root));
        assert(in_pending(model, p));
        assert(listing::lookup(out, p) == still_to_emit(pair, matcher, model)(p));
    }
}

/// Whether nothing is shown of the differences between two root directories.
pub open spec fn shows_nothing<M: Matcher>(pair: TreePair, matcher: &M) -> bool {
    forall|path: PathView| #[trigger] pair.shown_diff(matcher)(path) is None
}

/// For every matcher, a stream and an iterator over the differences between the same
/// trees give the same if and only if the iterator has something to walk, as the root
/// directories differ and the matcher visits them, or else there is nothing to show.
pub proof fn law_stream_and_iterator<M: Matcher>(
    reads: Reads,
    store: Store,
    ids1: Seq<Seq<u8>>,
    ids2: Seq<Seq<u8>>,
    matcher: &M,
    max_concurrent_reads: usize,
    events: Seq<StreamEvent>,
    steps: nat,
)
    requires
        tree_read::valid_reads(reads),
        ids1.len() % 2 == 1,
        ids2.len() % 2 == 1,
        stream_run(
            reads,
            matcher,
            tree_diff_stream::stream_start(matcher, store, ids1, ids2, max_concurrent_reads),
            events,
        ) is Some,
        tree_diff_laws::diff_run(
            reads,
            store,
            matcher,
            tree_diff::diff_start(matcher, store, ids1, ids2).todo,
            steps,
        ) is Some,
    ensures
        ({
            let pair = tree_diff_laws::pair_of(reads, store, ids1, ids2);
            (stream_run(
                reads,
                matcher,
                tree_diff_stream::stream_start(matcher, store, ids1, ids2, max_concurrent_reads),
                events,
            ) == tree_diff_laws::diff_run(
                reads,
                store,
                matcher,
                tree_diff::diff_start(matcher, store, ids1, ids2).todo,
                steps,
            )) == ((pair.before != pair.after && matcher.visits(PathView::empty()))
                || shows_nothing(pair, matcher))
        }),
{
    law_diff_stream(reads, store, ids1, ids2, matcher, max_concurrent_reads, events);
    tree_diff_laws::law_diff_iterator(reads, store, ids1, ids2, matcher, steps);
    order::lemma_path_order();
    let pair = tree_diff_laws::pair_of(reads, store, ids1, ids2);
    let f = pair.shown_diff(matcher);
    let a = stream_run(
        reads,
        matcher,
        tree_diff_stream::stream_start(matcher, store, ids1, ids2, max_concurrent_reads),
        events,
    )->0;
    let b = tree_diff_laws::diff_run(
        reads,
        store,
        matcher,
        tree_diff::diff_start(matcher, store, ids1, ids2).todo,
        steps,
    )->0;
    let walked = pair.before != pair.after && matcher.visits(PathView::empty());
    if walked || shows_nothing(pair, matcher) {
        assert forall|p: PathView| #[trigger] listing::lookup(a, p) == listing::lookup(b, p) by {
            assert(listing::lookup(a, p) == f(p));
            if walked {
                assert(listing::lookup(b, p) == f(p));
            }
        }
        listing::lemma_listings_equal(order::path_order(), a, b);
    } else if a == b {
        assert forall|p: PathView| #[trigger] f(p) is None by {
            assert(listing::lookup(a, p) == f(p));
            assert(listing::lookup(b, p) is None);
        }
        assert(shows_nothing(pair, matcher));
    }
}

/// Whether the matcher leaves out all that is in the root directory: it neither selects
/// nor visits anything there.
pub open spec fn skips_below_root<M: Matcher>(matcher: &M) -> bool {
    forall|path: PathView|
        #![trigger matcher.selects(path)]
        #![trigger matcher.visits(path)]
        path.len() == 1 ==> !matcher.selects(path) && !matcher.visits(path)
}

/// Whether the matcher selects nothing below the root directory, and all directories
/// that it visits can be read.
pub open spec fn selects_nothing_below_root<M: Matcher>(pair: TreePair, matcher: &M) -> bool {
    &&& forall|path: PathView| path.len() > 0 ==> !#[trigger] matcher.selects(path)
    &&& forall|path: PathView|
        (#[trigger] pair.differs_at(matcher, path)) && tree_diff::has_tree(
            pair.diff_at(matcher, path),
        ) ==> tree_diff_laws::read_pair(
            pair.reads,
            pair.store,
            path,
            pair.diff_at(matcher, path),
        ) is Ok
}

/// A stream and an iterator over the differences between the same trees give the
/// same if the matcher visits the root directories and these differ. They also do where
/// the root directories can be read and are the same, whatever the matcher. Where they
/// can be read and differ, they do for a matcher that does not visit them, if it does
/// not select the root either and leaves out what is below it.
pub proof fn law_stream_like_iterator<M: Matcher>(
    reads: Reads,
    store: Store,
    ids1: Seq<Seq<u8>>,
    ids2: Seq<Seq<u8>>,
    matcher: &M,
    max_concurrent_reads: usize,
    events: Seq<StreamEvent>,
    steps: nat,
)
    requires
        tree_read::valid_reads(reads),
        ids1.len() % 2 == 1,
        ids2.len() % 2 == 1,
        ({
            let diff = tree_diff::root_diff(ids1, ids2);
            let pair = tree_diff_laws::pair_of(reads, store, ids1, ids2);
            let readable = tree_diff_laws::read_pair(reads, store, PathView::empty(), diff) is Ok;
            if diff.before == diff.after {
                readable
            } else {
                matcher.visits(PathView::empty()) || (readable && !matcher.selects(
                    PathView::empty(),
                ) && (skips_below_root(matcher) || selects_nothing_below_root(pair, matcher)))
            }
        }),
        stream_run(
            reads,
            matcher,
            tree_diff_stream::stream_start(matcher, store, ids1, ids2, max_concurrent_reads),
            events,
        ) is Some,
        tree_diff_laws::diff_run(
            reads,
            store,
            matcher,
            tree_diff::diff_start(matcher, store, ids1, ids2).todo,
            steps,
        ) is Some,
    ensures
        stream_run(
            reads,
            matcher,
            tree_diff_stream::stream_start(matcher, store, ids1, ids2, max_concurrent_reads),
            events,
        ) == tree_diff_laws::diff_run(
            reads,
            store,
            matcher,
            tree_diff::diff_start(matcher, store, ids1, ids2).todo,
            steps,
        ),
{
    law_stream_and_iterator(
        reads,
        store,
        ids1,
        ids2,
        matcher,
        max_concurrent_reads,
        events,
        steps,
    );
    let pair = tree_diff_laws::pair_of(reads, store, ids1, ids2);
    let root = PathView::empty();
    if pair.before == pair.after || !matcher.visits(root) {
        assert forall|p: PathView| #[trigger] pair.shown_diff(matcher)(p) is None by {
            if p.len() == 0 {
                assert(p =~= root);
            } else if pair.before == pair.after {
                assert(p.take(0) =~= root);
                tree_diff_laws::lemma_nothing_below_same(pair, matcher, root, p);
            } else {
                assert(p.take(1).len() == 1);
                assert(p.len() == 1 ==> p.take(1) =~= p);
            }
        }
        assert(shows_nothing(pair, matcher));
    }
}

/// A stream begins with the root directory pending, and with a difference there to emit if
/// the trees differ and the matcher selects it.
pub proof fn law_stream_begins<M: Matcher>(
    matcher: &M,
    store: Store,
    ids1: Seq<Seq<u8>>,
    ids2: Seq<Seq<u8>>,
    max_concurrent_reads: usize,
    path: PathView,
)
    requires
        ids1.len() > 0,
        ids2.len() > 0,
    ensures
        ({
            let start = tree_diff_stream::stream_start(
                matcher,
                store,
                ids1,
                ids2,
                max_concurrent_reads,
            );
            let before = Seq::new(ids1.len(), |i: int| Some(TreeValueView::Tree(ids1[i])));
            let after = Seq::new(ids2.len(), |i: int| Some(TreeValueView::Tree(ids2[i])));
            let diff = Diff { before, after };
            &&& start.store == store
            &&& start.max_concurrent_reads == max_concurrent_reads
            &&& start.pending.dom().contains(path) == (path.len() == 0)
            &&& path.len() == 0 ==> start.pending[path] == diff
            &&& start.items.dom().contains(path) == (path.len() == 0 && ids1 != ids2
                && matcher.selects(path))
            &&& start.items.dom().contains(path) ==> start.items[path] == Ok::<
                Diff<MergedValueView>,
                BackendError,
            >(diff)
        }),
{
    let before = Seq::new(ids1.len(), |i: int| Some(TreeValueView::Tree(ids1[i])));
    let after = Seq::new(ids2.len(), |i: int| Some(TreeValueView::Tree(ids2[i])));
    let diff = tree_diff::root_diff(ids1, ids2);
    assert(diff.before =~= before);
    assert(diff.after =~= after);
    assert(path.len() == 0 ==> path =~= PathView::empty());
    if before == after && ids1.len() == ids2.len() {
        assert forall|i: int| 0 <= i < ids1.len() implies ids1[i] == ids2[i] by {
            assert(before[i] == after[i]);
        }
        assert(ids1 =~= ids2);
    }
    if before == after {
        assert(before.len() == after.len());
    }
}

/// What was polled is taken in one after the other: a directory whose trees are there as
/// one that was read, and one that is not ready changes nothing.
pub proof fn law_polled_in_turn<M: Matcher>(
    matcher: &M,
    model: DiffStreamModel,
    polled: Seq<PolledView>,
    dir: PathView,
    trees: Option<TreePairResult>,
)
    ensures
        tree_diff_stream::with_polled(matcher, model, Seq::empty()) == model,
        ({
            let before = tree_diff_stream::with_polled(matcher, model, polled);
            let more = polled.push((dir, trees));
            tree_diff_stream::with_polled(matcher, model, more) == match trees {
                Some(trees) => tree_diff_stream::with_trees(matcher, before, dir, trees),
                None => before,
            }
        }),
        tree_diff_stream::all_pending(polled) == !(exists|i: int|
            0 <= i < polled.len() && (#[trigger] polled[i]).1 is Some),
        tree_diff_stream::some_pending(polled) == !(forall|i: int|
            0 <= i < polled.len() ==> (#[trigger] polled[i]).1 is Some),
{
    let more = polled.push((dir, trees));
    assert(more.drop_last() =~= polled);
    assert(more.last() == (dir, trees));
    if tree_diff_stream::some_pending(polled) {
        let i = choose|i: int| 0 <= i < polled.len() && (#[trigger] polled[i]).1 is None;
        assert(!(polled[i].1 is Some));
    }
}

} // verus!
