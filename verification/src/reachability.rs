//! What the engine's output means for the graph that the stream encodes.
//!
//! The stream is read as a graph window: each record is a node, its parents
//! point at earlier nodes or at bases.  [`stream_vis`] is the reachability
//! property the engine is meant to decide: a node is visible when some chain
//! of parents leads from it to a base.  [`lemma_run_states`] characterises
//! the table that [`crate::engine::run`] folds up, state by state, against
//! that property, and the laws at the bottom of this module state what the
//! emitted include/exclude boundary means: visibility equals membership in
//! the ancestry closure of `includes` minus that of `excludes`, and neither
//! boundary set holds a redundant member.

use vstd::prelude::*;

use crate::engine::{
    excludes_of, includes_of, promote, prune, rec_visible, run, seeded, step, visible_in,
    NodeState,
};
use crate::record::EdgeRecordView;

verus! {

/// No two records carry the same commit id.
pub open spec fn distinct_ids(recs: Seq<EdgeRecordView>) -> bool {
    forall|a: int, b: int| 0 <= a < b < recs.len() ==> recs[a].id != recs[b].id
}

/// No record carries the id of a base commit.
pub open spec fn ids_not_bases(recs: Seq<EdgeRecordView>, bases: Set<Seq<u8>>) -> bool {
    forall|a: int| 0 <= a < recs.len() ==> !bases.contains((#[trigger] recs[a]).id)
}

/// The ordering precondition of the stream: every parent of a record is a
/// base or the id of an earlier record.
pub open spec fn ordered_stream(recs: Seq<EdgeRecordView>, bases: Set<Seq<u8>>) -> bool {
    forall|j: int, t: int|
        0 <= j < recs.len() && 0 <= t < recs[j].parents.len() ==> bases.contains(
            #[trigger] recs[j].parents[t],
        ) || exists|l: int| 0 <= l < j && (#[trigger] recs[l].id) == recs[j].parents[t]
}

/// A well-formed stream: distinct ids, none of them a base, every parent
/// resolved earlier or a base.
pub open spec fn wf_stream(recs: Seq<EdgeRecordView>, bases: Set<Seq<u8>>) -> bool {
    distinct_ids(recs) && ids_not_bases(recs, bases) && ordered_stream(recs, bases)
}

/// The table that pre-seeds exactly the members of `bases` as `VisibleLeaf`.
pub open spec fn seeded_set(bases: Set<Seq<u8>>) -> Map<Seq<u8>, NodeState> {
    Map::new(|id: Seq<u8>| bases.contains(id), |id: Seq<u8>| NodeState::VisibleLeaf)
}

/// Seeding from a sequence of base ids seeds their set.
pub proof fn lemma_seeded_to_set(b: Seq<Seq<u8>>)
    ensures
        seeded(b) == seeded_set(b.to_set()),
{
    assert(seeded(b) =~= seeded_set(b.to_set()));
}

/// Whether the node of record `j` is visible: some parent is a base, or is
/// an earlier record's visible node.  This is reachability-to-base within
/// the streamed window.
pub open spec fn stream_vis(recs: Seq<EdgeRecordView>, bases: Set<Seq<u8>>, j: int) -> bool
    decreases j,
{
    exists|t: int|
        0 <= t < recs[j].parents.len() && ((bases.contains(#[trigger] recs[j].parents[t]))
            || (exists|l: int|
            0 <= l < j && (#[trigger] recs[l].id) == recs[j].parents[t] && stream_vis(
                recs,
                bases,
                l,
            )))
}

/// Whether some later record is a visible child of record `j`'s node.
pub open spec fn has_visible_child(recs: Seq<EdgeRecordView>, bases: Set<Seq<u8>>, j: int) -> bool {
    exists|l: int|
        j < l < recs.len() && (#[trigger] recs[l]).parents.contains(recs[j].id) && stream_vis(
            recs,
            bases,
            l,
        )
}

/// Whether some later record is an invisible child of record `j`'s node.
pub open spec fn has_invisible_child(
    recs: Seq<EdgeRecordView>,
    bases: Set<Seq<u8>>,
    j: int,
) -> bool {
    exists|l: int|
        j < l < recs.len() && (#[trigger] recs[l]).parents.contains(recs[j].id) && !stream_vis(
            recs,
            bases,
            l,
        )
}

/// Whether some record is a visible child of base `b`.
pub open spec fn base_promoted(recs: Seq<EdgeRecordView>, bases: Set<Seq<u8>>, b: Seq<u8>) -> bool {
    exists|l: int|
        0 <= l < recs.len() && (#[trigger] recs[l]).parents.contains(b) && stream_vis(
            recs,
            bases,
            l,
        )
}

/// Whether record `j`'s node ends in `includes`: visible, with no visible
/// child — an element of the outer frontier of the visible region.
pub open spec fn is_include(recs: Seq<EdgeRecordView>, bases: Set<Seq<u8>>, j: int) -> bool {
    stream_vis(recs, bases, j) && !has_visible_child(recs, bases, j)
}

/// Whether record `j`'s node ends in `excludes`: invisible, with no
/// invisible child — the boundary of the invisible region.
pub open spec fn is_exclude(recs: Seq<EdgeRecordView>, bases: Set<Seq<u8>>, j: int) -> bool {
    !stream_vis(recs, bases, j) && !has_invisible_child(recs, bases, j)
}

/// The state the engine's table holds for record `j`'s node after the whole
/// stream, `None` when the node was forgotten.
pub open spec fn expected_state(recs: Seq<EdgeRecordView>, bases: Set<Seq<u8>>, j: int) -> Option<
    NodeState,
> {
    if stream_vis(recs, bases, j) {
        if has_visible_child(recs, bases, j) {
            Some(NodeState::VisibleInterior)
        } else {
            Some(NodeState::VisibleLeaf)
        }
    } else {
        if has_invisible_child(recs, bases, j) {
            None
        } else {
            Some(NodeState::PendingInvisible)
        }
    }
}

/// Visibility of a node only depends on the records up to it.
pub proof fn lemma_vis_prefix(recs: Seq<EdgeRecordView>, bases: Set<Seq<u8>>, j: int)
    requires
        0 <= j < recs.len() - 1,
    ensures
        stream_vis(recs, bases, j) == stream_vis(recs.drop_last(), bases, j),
    decreases j,
{
    let prev = recs.drop_last();
    assert(prev[j] == recs[j]);
    assert forall|l: int| 0 <= l < j implies #[trigger] stream_vis(recs, bases, l) == stream_vis(
        prev,
        bases,
        l,
    ) by {
        lemma_vis_prefix(recs, bases, l);
    }
    if stream_vis(recs, bases, j) {
        let t = choose|t: int|
            0 <= t < recs[j].parents.len() && ((bases.contains(#[trigger] recs[j].parents[t]))
                || (exists|l: int|
                0 <= l < j && (#[trigger] recs[l].id) == recs[j].parents[t] && stream_vis(
                    recs,
                    bases,
                    l,
                )));
        if !bases.contains(recs[j].parents[t]) {
            let l = choose|l: int|
                0 <= l < j && (#[trigger] recs[l].id) == recs[j].parents[t] && stream_vis(
                    recs,
                    bases,
                    l,
                );
            assert(prev[l].id == prev[j].parents[t] && stream_vis(prev, bases, l));
        }
        assert(stream_vis(prev, bases, j));
    }
    if stream_vis(prev, bases, j) {
        let t = choose|t: int|
            0 <= t < prev[j].parents.len() && ((bases.contains(#[trigger] prev[j].parents[t]))
                || (exists|l: int|
                0 <= l < j && (#[trigger] prev[l].id) == prev[j].parents[t] && stream_vis(
                    prev,
                    bases,
                    l,
                )));
        if !bases.contains(prev[j].parents[t]) {
            let l = choose|l: int|
                0 <= l < j && (#[trigger] prev[l].id) == prev[j].parents[t] && stream_vis(
                    prev,
                    bases,
                    l,
                );
            assert(recs[l].id == recs[j].parents[t] && stream_vis(recs, bases, l));
        }
        assert(stream_vis(recs, bases, j));
    }
}

/// Splitting off the last record splits the visible-child and
/// invisible-child tests of an earlier node.
proof fn lemma_children_prefix(recs: Seq<EdgeRecordView>, bases: Set<Seq<u8>>, j: int)
    requires
        0 <= j < recs.len() - 1,
    ensures
        has_visible_child(recs, bases, j) == (has_visible_child(recs.drop_last(), bases, j) || (
        recs.last().parents.contains(recs[j].id) && stream_vis(recs, bases, recs.len() - 1))),
        has_invisible_child(recs, bases, j) == (has_invisible_child(recs.drop_last(), bases, j)
            || (recs.last().parents.contains(recs[j].id) && !stream_vis(
            recs,
            bases,
            recs.len() - 1,
        ))),
{
    let prev = recs.drop_last();
    let n = recs.len() as int;
    assert forall|l: int| 0 <= l < n - 1 implies #[trigger] stream_vis(recs, bases, l)
        == stream_vis(prev, bases, l) by {
        lemma_vis_prefix(recs, bases, l);
    }
    assert(forall|l: int| 0 <= l < n - 1 ==> recs[l] == prev[l]);
    if has_visible_child(recs, bases, j) {
        let l = choose|l: int|
            j < l < recs.len() && (#[trigger] recs[l]).parents.contains(recs[j].id)
                && stream_vis(recs, bases, l);
        if l < n - 1 {
            assert((#[trigger] prev[l]).parents.contains(prev[j].id) && stream_vis(
                prev,
                bases,
                l,
            ));
        }
    }
    if has_visible_child(prev, bases, j) {
        let l = choose|l: int|
            j < l < prev.len() && (#[trigger] prev[l]).parents.contains(prev[j].id)
                && stream_vis(prev, bases, l);
        assert((#[trigger] recs[l]).parents.contains(recs[j].id) && stream_vis(recs, bases, l));
    }
    if recs.last().parents.contains(recs[j].id) && stream_vis(recs, bases, n - 1) {
        assert((#[trigger] recs[n - 1]).parents.contains(recs[j].id) && stream_vis(
            recs,
            bases,
            n - 1,
        ));
    }
    if has_invisible_child(recs, bases, j) {
        let l = choose|l: int|
            j < l < recs.len() && (#[trigger] recs[l]).parents.contains(recs[j].id)
                && !stream_vis(recs, bases, l);
        if l < n - 1 {
            assert((#[trigger] prev[l]).parents.contains(prev[j].id) && !stream_vis(
                prev,
                bases,
                l,
            ));
        }
    }
    if has_invisible_child(prev, bases, j) {
        let l = choose|l: int|
            j < l < prev.len() && (#[trigger] prev[l]).parents.contains(prev[j].id)
                && !stream_vis(prev, bases, l);
        assert((#[trigger] recs[l]).parents.contains(recs[j].id) && !stream_vis(recs, bases, l));
    }
    if recs.last().parents.contains(recs[j].id) && !stream_vis(recs, bases, n - 1) {
        assert((#[trigger] recs[n - 1]).parents.contains(recs[j].id) && !stream_vis(
            recs,
            bases,
            n - 1,
        ));
    }
}

/// Splitting off the last record splits the visible-child test of a base.
proof fn lemma_base_promoted_prefix(recs: Seq<EdgeRecordView>, bases: Set<Seq<u8>>, b: Seq<u8>)
    requires
        recs.len() > 0,
    ensures
        base_promoted(recs, bases, b) == (base_promoted(recs.drop_last(), bases, b) || (
        recs.last().parents.contains(b) && stream_vis(recs, bases, recs.len() - 1))),
{
    let prev = recs.drop_last();
    let n = recs.len() as int;
    assert forall|l: int| 0 <= l < n - 1 implies #[trigger] stream_vis(recs, bases, l)
        == stream_vis(prev, bases, l) by {
        lemma_vis_prefix(recs, bases, l);
    }
    assert(forall|l: int| 0 <= l < n - 1 ==> recs[l] == prev[l]);
    if base_promoted(recs, bases, b) {
        let l = choose|l: int|
            0 <= l < recs.len() && (#[trigger] recs[l]).parents.contains(b) && stream_vis(
                recs,
                bases,
                l,
            );
        if l < n - 1 {
            assert((#[trigger] prev[l]).parents.contains(b) && stream_vis(prev, bases, l));
        }
    }
    if base_promoted(prev, bases, b) {
        let l = choose|l: int|
            0 <= l < prev.len() && (#[trigger] prev[l]).parents.contains(b) && stream_vis(
                prev,
                bases,
                l,
            );
        assert((#[trigger] recs[l]).parents.contains(b) && stream_vis(recs, bases, l));
    }
    if recs.last().parents.contains(b) && stream_vis(recs, bases, n - 1) {
        assert((#[trigger] recs[n - 1]).parents.contains(b) && stream_vis(recs, bases, n - 1));
    }
}

/// The table folded over a well-formed stream holds exactly the states of
/// [`expected_state`]: visible nodes are `VisibleLeaf` until a visible child
/// promotes them, invisible nodes are `PendingInvisible` until an invisible
/// child lets them be forgotten, and bases are promoted by their first
/// visible child.
pub proof fn lemma_run_states(recs: Seq<EdgeRecordView>, bases: Set<Seq<u8>>)
    requires
        distinct_ids(recs),
        ids_not_bases(recs, bases),
    ensures
        forall|b: Seq<u8>| #[trigger]
            bases.contains(b) ==> run(seeded_set(bases), recs).dom().contains(b) && run(
                seeded_set(bases),
                recs,
            )[b] == if base_promoted(recs, bases, b) {
                NodeState::VisibleInterior
            } else {
                NodeState::VisibleLeaf
            },
        forall|j: int|
            0 <= j < recs.len() ==> match expected_state(recs, bases, j) {
                Some(s) => run(seeded_set(bases), recs).dom().contains((#[trigger] recs[j]).id)
                    && run(seeded_set(bases), recs)[recs[j].id] == s,
                None => !run(seeded_set(bases), recs).dom().contains((#[trigger] recs[j]).id),
            },
        forall|x: Seq<u8>| #[trigger]
            run(seeded_set(bases), recs).dom().contains(x) ==> bases.contains(x) || exists|j: int|
                0 <= j < recs.len() && (#[trigger] recs[j]).id == x,
    decreases recs.len(),
{
    let m0 = seeded_set(bases);
    let m = run(m0, recs);
    if recs.len() == 0 {
        assert forall|b: Seq<u8>| #[trigger] bases.contains(b) implies m.dom().contains(b) && m[b]
            == if base_promoted(recs, bases, b) {
            NodeState::VisibleInterior
        } else {
            NodeState::VisibleLeaf
        } by {
            if base_promoted(recs, bases, b) {
                let l = choose|l: int|
                    0 <= l < recs.len() && (#[trigger] recs[l]).parents.contains(b) && stream_vis(
                        recs,
                        bases,
                        l,
                    );
            }
        }
    } else {
        let prev = recs.drop_last();
        let n = recs.len() as int;
        let last = recs[n - 1];
        assert(recs.last() == last);
        assert(forall|l: int| 0 <= l < n - 1 ==> recs[l] == prev[l]);
        lemma_run_states(prev, bases);
        let mp = run(m0, prev);
        assert(m == step(mp, last));
        assert forall|l: int| 0 <= l < n - 1 implies #[trigger] stream_vis(recs, bases, l)
            == stream_vis(prev, bases, l) by {
            lemma_vis_prefix(recs, bases, l);
        }
        let vis_last = stream_vis(recs, bases, n - 1);
        assert(rec_visible(mp, last.parents) == vis_last) by {
            if rec_visible(mp, last.parents) {
                let t = choose|t: int|
                    0 <= t < last.parents.len() && #[trigger] visible_in(mp, last.parents[t]);
                let p = last.parents[t];
                if bases.contains(p) {
                    assert(recs[n - 1].parents[t] == p);
                    assert(stream_vis(recs, bases, n - 1));
                } else {
                    let j = choose|j: int| 0 <= j < prev.len() && (#[trigger] prev[j]).id == p;
                    if !stream_vis(prev, bases, j) {
                        assert(false) by {
                            if has_invisible_child(prev, bases, j) {
                                assert(!mp.dom().contains(p));
                            } else {
                                assert(mp[p] == NodeState::PendingInvisible);
                            }
                        }
                    }
                    assert((#[trigger] recs[j].id) == recs[n - 1].parents[t] && stream_vis(
                        recs,
                        bases,
                        j,
                    ));
                    assert(stream_vis(recs, bases, n - 1));
                }
            }
            if vis_last {
                let t = choose|t: int|
                    0 <= t < recs[n - 1].parents.len() && ((bases.contains(
                        #[trigger] recs[n - 1].parents[t],
                    )) || (exists|l: int|
                        0 <= l < n - 1 && (#[trigger] recs[l].id) == recs[n - 1].parents[t]
                            && stream_vis(recs, bases, l)));
                let p = last.parents[t];
                if bases.contains(p) {
                    assert(visible_in(mp, p));
                } else {
                    let l = choose|l: int|
                        0 <= l < n - 1 && (#[trigger] recs[l].id) == recs[n - 1].parents[t]
                            && stream_vis(recs, bases, l);
                    assert(stream_vis(prev, bases, l));
                    assert(mp.dom().contains(p) && mp[p] != NodeState::PendingInvisible) by {
                        assert(expected_state(prev, bases, l) matches Some(s) && s
                            != NodeState::PendingInvisible);
                    }
                    assert(visible_in(mp, p));
                }
                assert(rec_visible(mp, last.parents));
            }
        }
        // The last record's own node.
        assert(m.dom().contains(last.id));
        assert(!has_visible_child(recs, bases, n - 1) && !has_invisible_child(
            recs,
            bases,
            n - 1,
        )) by {
            if has_visible_child(recs, bases, n - 1) {
                let l = choose|l: int|
                    n - 1 < l < recs.len() && (#[trigger] recs[l]).parents.contains(recs[n - 1].id)
                        && stream_vis(recs, bases, l);
            }
            if has_invisible_child(recs, bases, n - 1) {
                let l = choose|l: int|
                    n - 1 < l < recs.len() && (#[trigger] recs[l]).parents.contains(recs[n - 1].id)
                        && !stream_vis(recs, bases, l);
            }
        }
        // Bases.
        assert forall|b: Seq<u8>| #[trigger] bases.contains(b) implies m.dom().contains(b) && m[b]
            == if base_promoted(recs, bases, b) {
            NodeState::VisibleInterior
        } else {
            NodeState::VisibleLeaf
        } by {
            lemma_base_promoted_prefix(recs, bases, b);
            assert(b != last.id);
            assert(mp.dom().contains(b));
            if vis_last {
                assert(m[b] == promote(mp, last.parents)[b]);
            } else {
                assert(mp[b] != NodeState::PendingInvisible);
                assert(m[b] == prune(mp, last.parents)[b]);
            }
        }
        // Earlier stream nodes.
        assert forall|j: int| 0 <= j < n - 1 implies match expected_state(recs, bases, j) {
            Some(s) => m.dom().contains((#[trigger] recs[j]).id) && m[recs[j].id] == s,
            None => !m.dom().contains((#[trigger] recs[j]).id),
        } by {
            lemma_children_prefix(recs, bases, j);
            let x = recs[j].id;
            assert(x != last.id);
            assert(prev[j].id == x);
            let vis_j = stream_vis(recs, bases, j);
            assert(vis_j == stream_vis(prev, bases, j));
            if vis_last {
                assert(forall|y: Seq<u8>| #[trigger]
                    m.dom().contains(y) == (promote(mp, last.parents).insert(
                        last.id,
                        NodeState::VisibleLeaf,
                    )).dom().contains(y));
                if vis_j {
                    if has_visible_child(prev, bases, j) {
                        assert(mp[x] == NodeState::VisibleInterior);
                        assert(m[x] == NodeState::VisibleInterior);
                    } else {
                        assert(mp[x] == NodeState::VisibleLeaf);
                        if last.parents.contains(x) {
                            assert(m[x] == NodeState::VisibleInterior);
                            assert(has_visible_child(recs, bases, j));
                        } else {
                            assert(m[x] == NodeState::VisibleLeaf);
                            assert(!has_visible_child(recs, bases, j));
                        }
                    }
                } else {
                    assert(has_invisible_child(recs, bases, j) == has_invisible_child(
                        prev,
                        bases,
                        j,
                    ));
                    if has_invisible_child(prev, bases, j) {
                        assert(!mp.dom().contains(x));
                        assert(!m.dom().contains(x));
                    } else {
                        assert(mp[x] == NodeState::PendingInvisible);
                        assert(m[x] == NodeState::PendingInvisible);
                    }
                }
            } else {
                assert(has_visible_child(recs, bases, j) == has_visible_child(prev, bases, j));
                if vis_j {
                    assert(mp[x] != NodeState::PendingInvisible) by {
                        assert(expected_state(prev, bases, j) matches Some(s) && s
                            != NodeState::PendingInvisible);
                    }
                    assert(m[x] == mp[x]);
                } else {
                    if has_invisible_child(prev, bases, j) {
                        assert(!mp.dom().contains(x));
                        assert(!m.dom().contains(x));
                    } else {
                        assert(mp[x] == NodeState::PendingInvisible);
                        if last.parents.contains(x) {
                            assert(!m.dom().contains(x));
                            assert(has_invisible_child(recs, bases, j));
                        } else {
                            assert(m[x] == NodeState::PendingInvisible);
                            assert(!has_invisible_child(recs, bases, j));
                        }
                    }
                }
            }
        }
        // Domain bound.
        assert forall|x: Seq<u8>| #[trigger] m.dom().contains(x) implies bases.contains(x)
            || exists|j: int| 0 <= j < recs.len() && (#[trigger] recs[j]).id == x by {
            if x == last.id {
                assert((#[trigger] recs[n - 1]).id == x);
            } else {
                assert(mp.dom().contains(x));
                if !bases.contains(x) {
                    let j = choose|j: int| 0 <= j < prev.len() && (#[trigger] prev[j]).id == x;
                    assert((#[trigger] recs[j]).id == x);
                }
            }
        }
    }
}

/// The ids that a well-formed stream sends to `includes`, named by their
/// record: exactly the visible nodes with no visible child.
pub proof fn lemma_boundary_sets(recs: Seq<EdgeRecordView>, bases: Set<Seq<u8>>)
    requires
        distinct_ids(recs),
        ids_not_bases(recs, bases),
    ensures
        includes_of(run(seeded_set(bases), recs), bases) == Set::new(
            |x: Seq<u8>|
                exists|j: int|
                    0 <= j < recs.len() && (#[trigger] recs[j]).id == x && is_include(
                        recs,
                        bases,
                        j,
                    ),
        ),
        excludes_of(run(seeded_set(bases), recs)) == Set::new(
            |x: Seq<u8>|
                exists|j: int|
                    0 <= j < recs.len() && (#[trigger] recs[j]).id == x && is_exclude(
                        recs,
                        bases,
                        j,
                    ),
        ),
{
    lemma_run_states(recs, bases);
    let m = run(seeded_set(bases), recs);
    let inc = Set::new(
        |x: Seq<u8>|
            exists|j: int|
                0 <= j < recs.len() && (#[trigger] recs[j]).id == x && is_include(recs, bases, j),
    );
    let exc = Set::new(
        |x: Seq<u8>|
            exists|j: int|
                0 <= j < recs.len() && (#[trigger] recs[j]).id == x && is_exclude(recs, bases, j),
    );
    assert forall|x: Seq<u8>| includes_of(m, bases).contains(x) implies inc.contains(x) by {
        let j = choose|j: int| 0 <= j < recs.len() && (#[trigger] recs[j]).id == x;
        assert(is_include(recs, bases, j));
    }
    assert forall|x: Seq<u8>| inc.contains(x) implies includes_of(m, bases).contains(x) by {
        let j = choose|j: int|
            0 <= j < recs.len() && (#[trigger] recs[j]).id == x && is_include(recs, bases, j);
        assert(m.dom().contains(x) && m[x] == NodeState::VisibleLeaf);
    }
    assert(includes_of(m, bases) =~= inc);
    assert forall|x: Seq<u8>| excludes_of(m).contains(x) implies exc.contains(x) by {
        if bases.contains(x) {
            assert(m[x] != NodeState::PendingInvisible);
        }
        let j = choose|j: int| 0 <= j < recs.len() && (#[trigger] recs[j]).id == x;
        assert(is_exclude(recs, bases, j));
    }
    assert forall|x: Seq<u8>| exc.contains(x) implies excludes_of(m).contains(x) by {
        let j = choose|j: int|
            0 <= j < recs.len() && (#[trigger] recs[j]).id == x && is_exclude(recs, bases, j);
        assert(m.dom().contains(x) && m[x] == NodeState::PendingInvisible);
    }
    assert(excludes_of(m) =~= exc);
}

/// What [`crate::engine::includes_excludes`] emits, read through the graph:
/// its `includes` are exactly the ids of the visible nodes with no visible
/// child, its `excludes` exactly the ids of the invisible nodes with no
/// invisible child, for the base list it was seeded with.
pub proof fn lemma_emitted_boundary(bases: Seq<Seq<u8>>, recs: Seq<EdgeRecordView>)
    requires
        wf_stream(recs, bases.to_set()),
    ensures
        includes_of(run(seeded(bases), recs), bases.to_set()) == Set::new(
            |x: Seq<u8>|
                exists|j: int|
                    0 <= j < recs.len() && (#[trigger] recs[j]).id == x && is_include(
                        recs,
                        bases.to_set(),
                        j,
                    ),
        ),
        excludes_of(run(seeded(bases), recs)) == Set::new(
            |x: Seq<u8>|
                exists|j: int|
                    0 <= j < recs.len() && (#[trigger] recs[j]).id == x && is_exclude(
                        recs,
                        bases.to_set(),
                        j,
                    ),
        ),
{
    lemma_seeded_to_set(bases);
    lemma_boundary_sets(recs, bases.to_set());
}

/// Whether `y` lies in the ancestry closure of record `j`'s node: `y` is
/// that node's own id, one of its parents, or in the closure of an earlier
/// record that one of its parents names.
pub open spec fn in_closure(recs: Seq<EdgeRecordView>, j: int, y: Seq<u8>) -> bool
    decreases j,
{
    recs[j].id == y || exists|t: int|
        0 <= t < recs[j].parents.len() && (((#[trigger] recs[j].parents[t]) == y) || (exists|
            l: int,
        |
            0 <= l < j && (#[trigger] recs[l].id) == recs[j].parents[t] && in_closure(
                recs,
                l,
                y,
            )))
}

/// In a well-formed stream, a record naming `recs[j].id` as a parent comes
/// after record `j`.
proof fn lemma_parent_index(recs: Seq<EdgeRecordView>, bases: Set<Seq<u8>>, l: int, j: int)
    requires
        wf_stream(recs, bases),
        0 <= l < recs.len(),
        0 <= j < recs.len(),
        recs[l].parents.contains(recs[j].id),
    ensures
        j < l,
{
    let t = choose|t: int| 0 <= t < recs[l].parents.len() && recs[l].parents[t] == recs[j].id;
    assert(recs[l].parents[t] == recs[j].id);
    assert(!bases.contains(recs[l].parents[t]));
    let l2 = choose|l2: int| 0 <= l2 < l && (#[trigger] recs[l2].id) == recs[l].parents[t];
    if l2 < j {
        assert(recs[l2].id != recs[j].id);
    } else if j < l2 {
        assert(recs[j].id != recs[l2].id);
    }
}

/// The ancestry closure is closed under parent edges: whatever reaches a
/// node also reaches each of that node's parents.
proof fn lemma_closure_step(
    recs: Seq<EdgeRecordView>,
    bases: Set<Seq<u8>>,
    a: int,
    l: int,
    t: int,
)
    requires
        wf_stream(recs, bases),
        0 <= a < recs.len(),
        0 <= l < recs.len(),
        in_closure(recs, a, recs[l].id),
        0 <= t < recs[l].parents.len(),
    ensures
        in_closure(recs, a, recs[l].parents[t]),
    decreases a,
{
    let y = recs[l].id;
    let p = recs[l].parents[t];
    if recs[a].id == y {
        if a < l {
            assert(recs[a].id != recs[l].id);
        } else if l < a {
            assert(recs[l].id != recs[a].id);
        }
        assert(a == l);
        assert((#[trigger] recs[a].parents[t]) == p);
    } else {
        let t2 = choose|t2: int|
            0 <= t2 < recs[a].parents.len() && (((#[trigger] recs[a].parents[t2]) == y) || (exists|
                l2: int,
            |
                0 <= l2 < a && (#[trigger] recs[l2].id) == recs[a].parents[t2] && in_closure(
                    recs,
                    l2,
                    y,
                )));
        if recs[a].parents[t2] == y {
            assert(recs[a].parents.contains(y)) by {
                assert((#[trigger] recs[a].parents[t2]) == y);
            }
            lemma_parent_index(recs, bases, a, l);
            assert(in_closure(recs, l, p)) by {
                assert((#[trigger] recs[l].parents[t]) == p);
            }
            assert((#[trigger] recs[l].id) == recs[a].parents[t2] && in_closure(recs, l, p));
            assert((#[trigger] recs[a].parents[t2]) == recs[a].parents[t2]);
            assert(in_closure(recs, a, p));
        } else {
            let l2 = choose|l2: int|
                0 <= l2 < a && (#[trigger] recs[l2].id) == recs[a].parents[t2] && in_closure(
                    recs,
                    l2,
                    y,
                );
            lemma_closure_step(recs, bases, l2, l, t);
            assert((#[trigger] recs[l2].id) == recs[a].parents[t2] && in_closure(recs, l2, p));
            assert(in_closure(recs, a, p));
        }
    }
}

/// Every visible node lies in the ancestry closure of some included node.
proof fn lemma_visible_reaches_include(recs: Seq<EdgeRecordView>, bases: Set<Seq<u8>>, j: int)
    requires
        wf_stream(recs, bases),
        0 <= j < recs.len(),
        stream_vis(recs, bases, j),
    ensures
        exists|l: int|
            0 <= l < recs.len() && is_include(recs, bases, l) && #[trigger] in_closure(
                recs,
                l,
                recs[j].id,
            ),
    decreases recs.len() - j,
{
    if !has_visible_child(recs, bases, j) {
        assert(in_closure(recs, j, recs[j].id));
    } else {
        let c = choose|c: int|
            j < c < recs.len() && (#[trigger] recs[c]).parents.contains(recs[j].id) && stream_vis(
                recs,
                bases,
                c,
            );
        lemma_visible_reaches_include(recs, bases, c);
        let l = choose|l: int|
            0 <= l < recs.len() && is_include(recs, bases, l) && #[trigger] in_closure(
                recs,
                l,
                recs[c].id,
            );
        let t = choose|t: int|
            0 <= t < recs[c].parents.len() && recs[c].parents[t] == recs[j].id;
        lemma_closure_step(recs, bases, l, c, t);
        assert(in_closure(recs, l, recs[j].id));
    }
}

/// Every invisible node lies in the ancestry closure of some excluded node.
proof fn lemma_invisible_reaches_exclude(recs: Seq<EdgeRecordView>, bases: Set<Seq<u8>>, j: int)
    requires
        wf_stream(recs, bases),
        0 <= j < recs.len(),
        !stream_vis(recs, bases, j),
    ensures
        exists|l: int|
            0 <= l < recs.len() && is_exclude(recs, bases, l) && #[trigger] in_closure(
                recs,
                l,
                recs[j].id,
            ),
    decreases recs.len() - j,
{
    if !has_invisible_child(recs, bases, j) {
        assert(in_closure(recs, j, recs[j].id));
    } else {
        let c = choose|c: int|
            j < c < recs.len() && (#[trigger] recs[c]).parents.contains(recs[j].id) && !stream_vis(
                recs,
                bases,
                c,
            );
        lemma_invisible_reaches_exclude(recs, bases, c);
        let l = choose|l: int|
            0 <= l < recs.len() && is_exclude(recs, bases, l) && #[trigger] in_closure(
                recs,
                l,
                recs[c].id,
            );
        let t = choose|t: int|
            0 <= t < recs[c].parents.len() && recs[c].parents[t] == recs[j].id;
        lemma_closure_step(recs, bases, l, c, t);
        assert(in_closure(recs, l, recs[j].id));
    }
}

/// The ancestry closure of an invisible node holds only invisible nodes:
/// parents of invisible nodes are invisible.
proof fn lemma_closure_of_invisible(recs: Seq<EdgeRecordView>, bases: Set<Seq<u8>>, e: int, j: int)
    requires
        wf_stream(recs, bases),
        0 <= e < recs.len(),
        0 <= j < recs.len(),
        !stream_vis(recs, bases, e),
        in_closure(recs, e, recs[j].id),
    ensures
        !stream_vis(recs, bases, j),
    decreases e,
{
    let y = recs[j].id;
    if recs[e].id == y {
        if e < j {
            assert(recs[e].id != recs[j].id);
        } else if j < e {
            assert(recs[j].id != recs[e].id);
        }
        assert(e == j);
    } else {
        let t2 = choose|t2: int|
            0 <= t2 < recs[e].parents.len() && (((#[trigger] recs[e].parents[t2]) == y) || (exists|
                l2: int,
            |
                0 <= l2 < e && (#[trigger] recs[l2].id) == recs[e].parents[t2] && in_closure(
                    recs,
                    l2,
                    y,
                )));
        if recs[e].parents[t2] == y {
            assert(recs[e].parents.contains(y)) by {
                assert((#[trigger] recs[e].parents[t2]) == y);
            }
            lemma_parent_index(recs, bases, e, j);
            if stream_vis(recs, bases, j) {
                assert((#[trigger] recs[j].id) == recs[e].parents[t2] && stream_vis(
                    recs,
                    bases,
                    j,
                ));
                assert(stream_vis(recs, bases, e));
            }
        } else {
            let l2 = choose|l2: int|
                0 <= l2 < e && (#[trigger] recs[l2].id) == recs[e].parents[t2] && in_closure(
                    recs,
                    l2,
                    y,
                );
            if stream_vis(recs, bases, l2) {
                assert((#[trigger] recs[l2].id) == recs[e].parents[t2] && stream_vis(
                    recs,
                    bases,
                    l2,
                ));
                assert(stream_vis(recs, bases, e));
            }
            lemma_closure_of_invisible(recs, bases, l2, j);
        }
    }
}

/// Reachability equivalence: over a well-formed stream, a node is visible —
/// its ancestry reaches a base — exactly when it lies in the ancestry
/// closure of `includes` and outside the ancestry closure of `excludes`.
pub proof fn lemma_reachability_equivalence(recs: Seq<EdgeRecordView>, bases: Set<Seq<u8>>)
    requires
        wf_stream(recs, bases),
    ensures
        forall|j: int|
            0 <= j < recs.len() ==> (stream_vis(recs, bases, j) <==> ((exists|l: int|
                0 <= l < recs.len() && is_include(recs, bases, l) && #[trigger] in_closure(
                    recs,
                    l,
                    (#[trigger] recs[j]).id,
                )) && !(exists|l: int|
                0 <= l < recs.len() && is_exclude(recs, bases, l) && #[trigger] in_closure(
                    recs,
                    l,
                    recs[j].id,
                )))),
{
    assert forall|j: int| 0 <= j < recs.len() implies (stream_vis(recs, bases, j) <==> ((exists|
        l: int,
    |
        0 <= l < recs.len() && is_include(recs, bases, l) && #[trigger] in_closure(
            recs,
            l,
            (#[trigger] recs[j]).id,
        )) && !(exists|l: int|
        0 <= l < recs.len() && is_exclude(recs, bases, l) && #[trigger] in_closure(
            recs,
            l,
            recs[j].id,
        )))) by {
        if stream_vis(recs, bases, j) {
            lemma_visible_reaches_include(recs, bases, j);
            if exists|l: int|
                0 <= l < recs.len() && is_exclude(recs, bases, l) && #[trigger] in_closure(
                    recs,
                    l,
                    recs[j].id,
                ) {
                let l = choose|l: int|
                    0 <= l < recs.len() && is_exclude(recs, bases, l) && #[trigger] in_closure(
                        recs,
                        l,
                        recs[j].id,
                    );
                lemma_closure_of_invisible(recs, bases, l, j);
            }
        } else {
            lemma_invisible_reaches_exclude(recs, bases, j);
        }
    }
}

/// A node in the closure of a node other than itself gives the reached node
/// a visible child whenever the reached node is visible.
proof fn lemma_closure_to_visible(recs: Seq<EdgeRecordView>, bases: Set<Seq<u8>>, i: int, l: int)
    requires
        wf_stream(recs, bases),
        0 <= i < recs.len(),
        0 <= l < recs.len(),
        i != l,
        in_closure(recs, i, recs[l].id),
        stream_vis(recs, bases, l),
    ensures
        has_visible_child(recs, bases, l),
    decreases i,
{
    let y = recs[l].id;
    if recs[i].id == y {
        if i < l {
            assert(recs[i].id != recs[l].id);
        } else {
            assert(recs[l].id != recs[i].id);
        }
    } else {
        let t2 = choose|t2: int|
            0 <= t2 < recs[i].parents.len() && (((#[trigger] recs[i].parents[t2]) == y) || (exists|
                l2: int,
            |
                0 <= l2 < i && (#[trigger] recs[l2].id) == recs[i].parents[t2] && in_closure(
                    recs,
                    l2,
                    y,
                )));
        if recs[i].parents[t2] == y {
            assert(recs[i].parents.contains(y)) by {
                assert((#[trigger] recs[i].parents[t2]) == y);
            }
            lemma_parent_index(recs, bases, i, l);
            assert(stream_vis(recs, bases, i)) by {
                assert((#[trigger] recs[l].id) == recs[i].parents[t2] && stream_vis(
                    recs,
                    bases,
                    l,
                ));
            }
            assert(j_witness_visible_child(recs, bases, l, i));
        } else {
            let l2 = choose|l2: int|
                0 <= l2 < i && (#[trigger] recs[l2].id) == recs[i].parents[t2] && in_closure(
                    recs,
                    l2,
                    y,
                );
            if l2 == l {
                assert(recs[i].parents.contains(y)) by {
                    assert((#[trigger] recs[i].parents[t2]) == y);
                }
                lemma_parent_index(recs, bases, i, l);
                assert(stream_vis(recs, bases, i)) by {
                    assert((#[trigger] recs[l].id) == recs[i].parents[t2] && stream_vis(
                        recs,
                        bases,
                        l,
                    ));
                }
                assert(j_witness_visible_child(recs, bases, l, i));
            } else {
                lemma_closure_to_visible(recs, bases, l2, l);
            }
        }
    }
}

/// Helper shape for naming a visible child witness.
spec fn j_witness_visible_child(
    recs: Seq<EdgeRecordView>,
    bases: Set<Seq<u8>>,
    l: int,
    c: int,
) -> bool {
    l < c < recs.len() && recs[c].parents.contains(recs[l].id) && stream_vis(recs, bases, c)
}

/// A node in the closure of a node other than itself gives the reached node
/// an invisible child whenever the reaching node is invisible.
proof fn lemma_closure_to_invisible(recs: Seq<EdgeRecordView>, bases: Set<Seq<u8>>, i: int, l: int)
    requires
        wf_stream(recs, bases),
        0 <= i < recs.len(),
        0 <= l < recs.len(),
        i != l,
        in_closure(recs, i, recs[l].id),
        !stream_vis(recs, bases, i),
    ensures
        has_invisible_child(recs, bases, l),
    decreases i,
{
    let y = recs[l].id;
    if recs[i].id == y {
        if i < l {
            assert(recs[i].id != recs[l].id);
        } else {
            assert(recs[l].id != recs[i].id);
        }
    } else {
        let t2 = choose|t2: int|
            0 <= t2 < recs[i].parents.len() && (((#[trigger] recs[i].parents[t2]) == y) || (exists|
                l2: int,
            |
                0 <= l2 < i && (#[trigger] recs[l2].id) == recs[i].parents[t2] && in_closure(
                    recs,
                    l2,
                    y,
                )));
        if recs[i].parents[t2] == y {
            assert(recs[i].parents.contains(y)) by {
                assert((#[trigger] recs[i].parents[t2]) == y);
            }
            lemma_parent_index(recs, bases, i, l);
        } else {
            let l2 = choose|l2: int|
                0 <= l2 < i && (#[trigger] recs[l2].id) == recs[i].parents[t2] && in_closure(
                    recs,
                    l2,
                    y,
                );
            if l2 == l {
                assert(recs[i].parents.contains(y)) by {
                    assert((#[trigger] recs[i].parents[t2]) == y);
                }
                lemma_parent_index(recs, bases, i, l);
            } else {
                if stream_vis(recs, bases, l2) {
                    assert((#[trigger] recs[l2].id) == recs[i].parents[t2] && stream_vis(
                        recs,
                        bases,
                        l2,
                    ));
                    assert(stream_vis(recs, bases, i));
                }
                lemma_closure_to_invisible(recs, bases, l2, l);
            }
        }
    }
}

/// Minimality of the boundary: no included node is an ancestor of another
/// included node, and no excluded node is an ancestor of another excluded
/// node — the boundary sets hold no redundant interior members.
pub proof fn lemma_minimality(recs: Seq<EdgeRecordView>, bases: Set<Seq<u8>>)
    requires
        wf_stream(recs, bases),
    ensures
        forall|i: int, l: int|
            0 <= i < recs.len() && 0 <= l < recs.len() && i != l && is_include(recs, bases, i)
                && is_include(recs, bases, l) ==> !(#[trigger] in_closure(
                recs,
                i,
                (#[trigger] recs[l]).id,
            )),
        forall|i: int, l: int|
            0 <= i < recs.len() && 0 <= l < recs.len() && i != l && is_exclude(recs, bases, i)
                && is_exclude(recs, bases, l) ==> !(#[trigger] in_closure(
                recs,
                i,
                (#[trigger] recs[l]).id,
            )),
{
    assert forall|i: int, l: int|
        0 <= i < recs.len() && 0 <= l < recs.len() && i != l && is_include(recs, bases, i)
            && is_include(recs, bases, l) implies !(#[trigger] in_closure(
        recs,
        i,
        (#[trigger] recs[l]).id,
    )) by {
        if in_closure(recs, i, recs[l].id) {
            lemma_closure_to_visible(recs, bases, i, l);
        }
    }
    assert forall|i: int, l: int|
        0 <= i < recs.len() && 0 <= l < recs.len() && i != l && is_exclude(recs, bases, i)
            && is_exclude(recs, bases, l) implies !(#[trigger] in_closure(
        recs,
        i,
        (#[trigger] recs[l]).id,
    )) by {
        if in_closure(recs, i, recs[l].id) {
            lemma_closure_to_invisible(recs, bases, i, l);
        }
    }
}

/// Determinism: the engine's outcome is a function of the base set and the
/// stream alone; the order in which the unordered base collection is listed
/// does not matter.
pub proof fn lemma_determinism(b1: Seq<Seq<u8>>, b2: Seq<Seq<u8>>, recs: Seq<EdgeRecordView>)
    requires
        b1.to_set() == b2.to_set(),
    ensures
        run(seeded(b1), recs) == run(seeded(b2), recs),
        includes_of(run(seeded(b1), recs), b1.to_set()) == includes_of(
            run(seeded(b2), recs),
            b2.to_set(),
        ),
        excludes_of(run(seeded(b1), recs)) == excludes_of(run(seeded(b2), recs)),
{
    lemma_seeded_to_set(b1);
    lemma_seeded_to_set(b2);
}

/// The memory bound: the width of the table after any prefix of the stream
/// never exceeds the peak width of the whole stream, which is what the
/// engine's arena allocates.
pub proof fn lemma_peak_width_bound(
    m0: Map<Seq<u8>, NodeState>,
    recs: Seq<EdgeRecordView>,
    i: int,
)
    requires
        0 <= i <= recs.len(),
    ensures
        run(m0, recs.take(i)).dom().len() <= crate::engine::peak_width(m0, recs),
    decreases recs.len(),
{
    if i == recs.len() {
        assert(recs.take(i) =~= recs);
    } else {
        let prev = recs.drop_last();
        assert(recs.take(i) =~= prev.take(i));
        lemma_peak_width_bound(m0, prev, i);
    }
}

} // verus!
