//! The visibility propagation engine.
//!
//! Given a set of base commits and a reverse-topologically ordered stream of
//! edge records, the engine classifies every streamed commit as visible (its
//! ancestry reaches a base) or invisible, in a single pass, and emits the
//! minimal include/exclude description of the visible window: `includes` are
//! the visible commits with no visible child, `excludes` the invisible
//! commits with no invisible child.
//!
//! The whole behaviour is pinned by the spec-level fold [`run`] of the step
//! function [`step`] over the stream: the engine is a refinement of that
//! fold, and every statement about the output goes through it.

use vstd::prelude::*;

use crate::arena::Arena;
use crate::record::{id_views, records_of, parse_record, EdgeRecord, EdgeRecordView, MalformedRecord};

verus! {

/// The classification of one tracked commit.
#[derive(Clone, Copy, Debug, PartialEq, Eq, Structural)]
pub enum NodeState {
    /// Not reachable-to-base via any parent seen so far, and no invisible
    /// child observed yet.  Commits in this state that gain an invisible
    /// child are forgotten outright.
    PendingInvisible,
    /// Reachable-to-base, with no visible child observed yet: an element of
    /// the outer frontier of the visible region.
    VisibleLeaf,
    /// Reachable-to-base, with at least one visible child: strictly inside
    /// the visible region.
    VisibleInterior,
}

impl NodeState {
    /// Whether this state marks a visible commit.
    pub open spec fn spec_is_visible(self) -> bool {
        self != NodeState::PendingInvisible
    }

    /// Returns whether this state marks a visible commit.
    pub fn is_visible(&self) -> (r: bool)
        ensures
            r == self.spec_is_visible(),
    {
        *self != NodeState::PendingInvisible
    }
}

/// Whether `p` is tracked by `m` in a visible state.
pub open spec fn visible_in(m: Map<Seq<u8>, NodeState>, p: Seq<u8>) -> bool {
    m.dom().contains(p) && m[p].spec_is_visible()
}

/// Whether a record with parents `parents` is classified visible against the
/// table `m`: at least one parent is tracked and visible.  Parents that are
/// not tracked contribute nothing.
pub open spec fn rec_visible(m: Map<Seq<u8>, NodeState>, parents: Seq<Seq<u8>>) -> bool {
    exists|i: int| 0 <= i < parents.len() && #[trigger] visible_in(m, parents[i])
}

/// `m` with every tracked parent of a visible record promoted from
/// `VisibleLeaf` to `VisibleInterior`: it has gained a visible child.
pub open spec fn promote(m: Map<Seq<u8>, NodeState>, parents: Seq<Seq<u8>>) -> Map<
    Seq<u8>,
    NodeState,
> {
    Map::new(
        |id: Seq<u8>| m.dom().contains(id),
        |id: Seq<u8>|
            if parents.contains(id) && m[id] == NodeState::VisibleLeaf {
                NodeState::VisibleInterior
            } else {
                m[id]
            },
    )
}

/// `m` with every tracked `PendingInvisible` parent of an invisible record
/// forgotten: invisibility is permanent, so no later record can use such a
/// commit to change an outcome.
pub open spec fn prune(m: Map<Seq<u8>, NodeState>, parents: Seq<Seq<u8>>) -> Map<
    Seq<u8>,
    NodeState,
> {
    Map::new(
        |id: Seq<u8>|
            m.dom().contains(id) && !(parents.contains(id) && m[id]
                == NodeState::PendingInvisible),
        |id: Seq<u8>| m[id],
    )
}

/// The table after one record: the record's commit is visible iff some
/// tracked parent is visible; a visible commit promotes its tracked
/// `VisibleLeaf` parents, an invisible one forgets its tracked
/// `PendingInvisible` parents; the commit itself then enters the table.
pub open spec fn step(m: Map<Seq<u8>, NodeState>, rec: EdgeRecordView) -> Map<Seq<u8>, NodeState> {
    if rec_visible(m, rec.parents) {
        promote(m, rec.parents).insert(rec.id, NodeState::VisibleLeaf)
    } else {
        prune(m, rec.parents).insert(rec.id, NodeState::PendingInvisible)
    }
}

/// The table that pre-seeds every base commit as `VisibleLeaf`.
pub open spec fn seeded(bases: Seq<Seq<u8>>) -> Map<Seq<u8>, NodeState> {
    Map::new(|id: Seq<u8>| bases.contains(id), |id: Seq<u8>| NodeState::VisibleLeaf)
}

/// The table after folding [`step`] over the whole stream.
pub open spec fn run(m0: Map<Seq<u8>, NodeState>, recs: Seq<EdgeRecordView>) -> Map<
    Seq<u8>,
    NodeState,
>
    decreases recs.len(),
{
    if recs.len() == 0 {
        m0
    } else {
        step(run(m0, recs.drop_last()), recs.last())
    }
}

/// The ids a finished table sends to `includes`: tracked as `VisibleLeaf`
/// and not a pre-seeded base.
pub open spec fn includes_of(m: Map<Seq<u8>, NodeState>, bases: Set<Seq<u8>>) -> Set<Seq<u8>> {
    Set::new(
        |id: Seq<u8>| m.dom().contains(id) && m[id] == NodeState::VisibleLeaf && !bases.contains(id),
    )
}

/// The ids a finished table sends to `excludes`: tracked as
/// `PendingInvisible`.
pub open spec fn excludes_of(m: Map<Seq<u8>, NodeState>) -> Set<Seq<u8>> {
    Set::new(|id: Seq<u8>| m.dom().contains(id) && m[id] == NodeState::PendingInvisible)
}

/// The largest width the table reaches while folding the stream.
pub open spec fn peak_width(m0: Map<Seq<u8>, NodeState>, recs: Seq<EdgeRecordView>) -> nat
    decreases recs.len(),
{
    if recs.len() == 0 {
        m0.dom().len()
    } else {
        let w = run(m0, recs).dom().len();
        let p = peak_width(m0, recs.drop_last());
        if w > p {
            w
        } else {
            p
        }
    }
}

/// Taking one more parent into account extends the visibility test by that
/// parent alone.
proof fn lemma_visible_step(m: Map<Seq<u8>, NodeState>, parents: Seq<Seq<u8>>, i: int)
    requires
        0 <= i < parents.len(),
    ensures
        rec_visible(m, parents.take(i + 1)) == (rec_visible(m, parents.take(i)) || visible_in(
            m,
            parents[i],
        )),
{
    let a = parents.take(i);
    let b = parents.take(i + 1);
    assert(forall|j: int| 0 <= j < b.len() ==> b[j] == parents[j]);
    assert(forall|j: int| 0 <= j < a.len() ==> a[j] == parents[j]);
    if rec_visible(m, b) {
        let j = choose|j: int| 0 <= j < b.len() && #[trigger] visible_in(m, b[j]);
        if j < i {
            assert(visible_in(m, a[j]));
        }
    }
    if rec_visible(m, a) {
        let j = choose|j: int| 0 <= j < a.len() && #[trigger] visible_in(m, a[j]);
        assert(visible_in(m, b[j]));
    }
    if visible_in(m, parents[i]) {
        assert(visible_in(m, b[i]));
    }
}

/// Promoting for one more parent changes the table at that parent alone.
proof fn lemma_promote_step(m: Map<Seq<u8>, NodeState>, parents: Seq<Seq<u8>>, i: int)
    requires
        0 <= i < parents.len(),
    ensures
        promote(m, parents.take(i + 1)) == if m.dom().contains(parents[i]) && m[parents[i]]
            == NodeState::VisibleLeaf {
            promote(m, parents.take(i)).insert(parents[i], NodeState::VisibleInterior)
        } else {
            promote(m, parents.take(i))
        },
{
    let a = parents.take(i);
    let b = parents.take(i + 1);
    assert(forall|j: int| 0 <= j < b.len() ==> b[j] == parents[j]);
    assert(forall|j: int| 0 <= j < a.len() ==> a[j] == parents[j]);
    assert forall|x: Seq<u8>| #[trigger] b.contains(x) implies a.contains(x) || x
        == parents[i] by {
        let j = choose|j: int| 0 <= j < b.len() && b[j] == x;
        if j < i {
            assert(a[j] == x);
        }
    }
    assert forall|x: Seq<u8>| #[trigger] a.contains(x) implies b.contains(x) by {
        let j = choose|j: int| 0 <= j < a.len() && a[j] == x;
        assert(b[j] == x);
    }
    assert(b[i] == parents[i]);
    assert(b.contains(parents[i]));
    if m.dom().contains(parents[i]) && m[parents[i]] == NodeState::VisibleLeaf {
        assert(promote(m, b) =~= promote(m, a).insert(parents[i], NodeState::VisibleInterior));
    } else {
        assert(promote(m, b) =~= promote(m, a));
    }
}

/// Pruning for one more parent changes the table at that parent alone.
proof fn lemma_prune_step(m: Map<Seq<u8>, NodeState>, parents: Seq<Seq<u8>>, i: int)
    requires
        0 <= i < parents.len(),
    ensures
        prune(m, parents.take(i + 1)) == if m.dom().contains(parents[i]) && m[parents[i]]
            == NodeState::PendingInvisible {
            prune(m, parents.take(i)).remove(parents[i])
        } else {
            prune(m, parents.take(i))
        },
{
    let a = parents.take(i);
    let b = parents.take(i + 1);
    assert(forall|j: int| 0 <= j < b.len() ==> b[j] == parents[j]);
    assert(forall|j: int| 0 <= j < a.len() ==> a[j] == parents[j]);
    assert forall|x: Seq<u8>| #[trigger] b.contains(x) implies a.contains(x) || x
        == parents[i] by {
        let j = choose|j: int| 0 <= j < b.len() && b[j] == x;
        if j < i {
            assert(a[j] == x);
        }
    }
    assert forall|x: Seq<u8>| #[trigger] a.contains(x) implies b.contains(x) by {
        let j = choose|j: int| 0 <= j < a.len() && a[j] == x;
        assert(b[j] == x);
    }
    assert(b[i] == parents[i]);
    assert(b.contains(parents[i]));
    if m.dom().contains(parents[i]) && m[parents[i]] == NodeState::PendingInvisible {
        assert(prune(m, b) =~= prune(m, a).remove(parents[i]));
    } else {
        assert(prune(m, b) =~= prune(m, a));
    }
}

/// One entry of the Active Table: a tracked commit id, the arena slot that
/// holds its state, and whether it was pre-seeded as a base.
struct Entry {
    id: Vec<u8>,
    slot: usize,
    base: bool,
}

/// The visibility propagation engine: the Active Table of tracked commits
/// and the arena backing their states.
pub struct Engine {
    table: Vec<Entry>,
    arena: Arena<NodeState>,
}

/// Every non-base `VisibleLeaf` entry of `table[lo..]` has its id in `ids`.
spec fn covers_leaves(ids: Seq<Seq<u8>>, table: Seq<Entry>, slots: Seq<NodeState>, lo: int) -> bool {
    forall|j: int|
        lo <= j < table.len() && slots[(#[trigger] table[j].slot) as int]
            == NodeState::VisibleLeaf && !table[j].base ==> ids.contains(table[j].id@)
}

/// Every `PendingInvisible` entry of `table[lo..]` has its id in `ids`.
spec fn covers_pending(
    ids: Seq<Seq<u8>>,
    table: Seq<Entry>,
    slots: Seq<NodeState>,
    lo: int,
) -> bool {
    forall|j: int|
        lo <= j < table.len() && slots[(#[trigger] table[j].slot) as int]
            == NodeState::PendingInvisible ==> ids.contains(table[j].id@)
}

impl Engine {
    /// Whether `id` is tracked.
    spec fn has_id(self, id: Seq<u8>) -> bool {
        exists|i: int| 0 <= i < self.table@.len() && #[trigger] self.table@[i].id@ == id
    }

    /// The table index tracking `id`.
    spec fn idx_of(self, id: Seq<u8>) -> int {
        choose|i: int| 0 <= i < self.table@.len() && #[trigger] self.table@[i].id@ == id
    }

    /// The abstract Active Table: each tracked commit id mapped to its state.
    pub closed spec fn states(self) -> Map<Seq<u8>, NodeState> {
        Map::new(
            |id: Seq<u8>| self.has_id(id),
            |id: Seq<u8>| self.arena.slots()[self.table@[self.idx_of(id)].slot as int],
        )
    }

    /// The pre-seeded base commit ids.
    pub closed spec fn bases(self) -> Set<Seq<u8>> {
        Set::new(
            |id: Seq<u8>|
                exists|i: int|
                    0 <= i < self.table@.len() && #[trigger] self.table@[i].id@ == id
                        && self.table@[i].base,
        )
    }

    /// The number of commits the Active Table currently tracks.
    pub closed spec fn active_width(self) -> nat {
        self.table@.len()
    }

    /// The number of arena slots ever allocated: the engine's peak memory.
    pub closed spec fn slot_count(self) -> nat {
        self.arena.slots().len()
    }

    /// The engine's internal invariant: distinct tracked ids, each bound to
    /// its own live arena slot; freed slots live in the arena's pool and
    /// nowhere else; bases are never `PendingInvisible`.
    pub closed spec fn wf(self) -> bool {
        &&& self.arena.wf()
        &&& forall|i: int|
            0 <= i < self.table@.len() ==> (#[trigger] self.table@[i].slot)
                < self.arena.slots().len()
        &&& forall|i: int, j: int|
            0 <= i < j < self.table@.len() ==> self.table@[i].id@ != self.table@[j].id@
        &&& forall|i: int, j: int|
            0 <= i < j < self.table@.len() ==> self.table@[i].slot != self.table@[j].slot
        &&& forall|i: int|
            0 <= i < self.table@.len() ==> !self.arena.free_list().contains(
                #[trigger] self.table@[i].slot,
            )
        &&& self.arena.slots().len() == self.table@.len() + self.arena.free_list().len()
        &&& forall|i: int|
            0 <= i < self.table@.len() && (#[trigger] self.table@[i].base)
                ==> self.arena.slots()[self.table@[i].slot as int] != NodeState::PendingInvisible
    }

    /// The state tracked at table index `i`, as [`states`] sees it.
    proof fn lemma_states_at(self, i: int)
        requires
            self.wf(),
            0 <= i < self.table@.len(),
        ensures
            self.states().dom().contains(self.table@[i].id@),
            self.idx_of(self.table@[i].id@) == i,
            self.states()[self.table@[i].id@] == self.arena.slots()[self.table@[i].slot as int],
    {
        assert(self.has_id(self.table@[i].id@));
        let j = self.idx_of(self.table@[i].id@);
        if i < j {
            assert(self.table@[i].id@ != self.table@[j].id@);
        } else if j < i {
            assert(self.table@[j].id@ != self.table@[i].id@);
        }
    }

    /// The Active Table tracks exactly as many ids as it has entries.
    pub proof fn lemma_width_is_dom_len(self)
        requires
            self.wf(),
        ensures
            self.states().dom().finite(),
            self.states().dom().len() == self.active_width(),
    {
        let ids = Seq::new(self.table@.len(), |i: int| self.table@[i].id@);
        assert forall|x: Seq<u8>| self.states().dom().contains(x) implies ids.to_set().contains(
            x,
        ) by {
            let i = choose|i: int|
                0 <= i < self.table@.len() && #[trigger] self.table@[i].id@ == x;
            assert(ids[i] == x);
        }
        assert forall|x: Seq<u8>| ids.to_set().contains(x) implies self.states().dom().contains(
            x,
        ) by {
            let i = choose|i: int| 0 <= i < ids.len() && ids[i] == x;
            assert(self.table@[i].id@ == x);
        }
        assert(self.states().dom() =~= ids.to_set());
        assert(ids.no_duplicates());
        ids.unique_seq_to_set();
    }

    /// Looks `id` up in the Active Table, returning its index there.
    fn find(&self, id: &Vec<u8>) -> (r: Option<usize>)
        ensures
            match r {
                Some(i) => i < self.table@.len() && self.table@[i as int].id@ == id@,
                None => !self.has_id(id@),
            },
    {
        let mut i: usize = 0;
        while i < self.table.len()
            invariant
                i <= self.table@.len(),
                forall|t: int| 0 <= t < i ==> (#[trigger] self.table@[t].id@) != id@,
            decreases self.table@.len() - i,
        {
            if bytes_eq(&self.table[i].id, id) {
                return Some(i);
            }
            i = i + 1;
        }
        None
    }

    /// An engine whose Active Table pre-registers every base as
    /// `VisibleLeaf`.
    pub fn new(bases: Vec<Vec<u8>>) -> (r: Engine)
        requires
            forall|i: int, j: int| 0 <= i < j < bases@.len() ==> bases@[i]@ != bases@[j]@,
        ensures
            r.wf(),
            r.states() == seeded(id_views(bases@)),
            r.bases() == id_views(bases@).to_set(),
            r.active_width() == bases@.len(),
            r.slot_count() == bases@.len(),
    {
        let ghost all = id_views(bases@);
        let mut eng = Engine { table: Vec::new(), arena: Arena::new() };
        let ghost k: int = 0;
        let mut bases = bases;
        let ghost n = bases@.len();
        while bases.len() > 0
            invariant
                0 <= k <= n,
                bases@.len() == n - k,
                all.len() == n,
                forall|i: int, j: int| 0 <= i < j < n ==> all[i] != all[j],
                forall|i: int| 0 <= i < n - k ==> (#[trigger] bases@[i])@ == all[k + i],
                eng.arena.wf(),
                eng.table@.len() == k,
                eng.arena.slots().len() == k,
                eng.arena.free_list().len() == 0,
                forall|i: int|
                    0 <= i < k ==> (#[trigger] eng.table@[i].id@) == all[i] && eng.table@[i].slot
                        == i && eng.table@[i].base,
                forall|i: int|
                    0 <= i < k ==> eng.arena.slots()[i] == NodeState::VisibleLeaf,
            decreases bases@.len(),
        {
            let ghost prev = bases@;
            let id = bases.remove(0);
            let slot = eng.arena.allocate(NodeState::VisibleLeaf);
            eng.table.push(Entry { id, slot, base: true });
            proof {
                k = k + 1;
                assert forall|i: int|
                    0 <= i < n - k implies (#[trigger] bases@[i])@ == all[k + i] by {
                    assert(bases@[i] == prev[i + 1]);
                }
            }
        }
        proof {
            assert forall|i: int|
                0 <= i < eng.table@.len() implies (#[trigger] eng.table@[i].slot)
                < eng.arena.slots().len() && !eng.arena.free_list().contains(eng.table@[i].slot)
                && (eng.table@[i].base ==> eng.arena.slots()[eng.table@[i].slot as int]
                != NodeState::PendingInvisible) by {
                assert(eng.table@[i].id@ == all[i]);
            }
            assert forall|i: int, j: int|
                0 <= i < j < eng.table@.len() implies eng.table@[i].id@ != eng.table@[j].id@
                && eng.table@[i].slot != eng.table@[j].slot by {
                assert(eng.table@[i].id@ == all[i]);
                assert(eng.table@[j].id@ == all[j]);
            }
            assert(eng.wf());
            assert forall|id: Seq<u8>| eng.has_id(id) implies seeded(all).dom().contains(id) by {
                let i = choose|i: int|
                    0 <= i < eng.table@.len() && #[trigger] eng.table@[i].id@ == id;
                assert(all[i] == id);
            }
            assert forall|id: Seq<u8>| seeded(all).dom().contains(id) implies eng.has_id(id)
                && eng.states()[id] == NodeState::VisibleLeaf by {
                let i = choose|i: int| 0 <= i < all.len() && all[i] == id;
                assert(eng.table@[i].id@ == id);
                eng.lemma_states_at(i);
            }
            assert(eng.states() =~= seeded(all));
            assert forall|id: Seq<u8>| eng.bases().contains(id) implies all.to_set().contains(
                id,
            ) by {
                let i = choose|i: int|
                    0 <= i < eng.table@.len() && #[trigger] eng.table@[i].id@ == id
                        && eng.table@[i].base;
                assert(all[i] == id);
            }
            assert forall|id: Seq<u8>| all.to_set().contains(id) implies eng.bases().contains(
                id,
            ) by {
                let i = choose|i: int| 0 <= i < all.len() && all[i] == id;
                assert(eng.table@[i].id@ == id && eng.table@[i].base);
            }
            assert(eng.bases() =~= all.to_set());
        }
        eng
    }

    /// Tracks `id` in state `state`, reusing a freed slot before growing the
    /// arena.
    fn insert(&mut self, id: Vec<u8>, state: NodeState)
        requires
            old(self).wf(),
            !old(self).has_id(id@),
            state != NodeState::PendingInvisible || !old(self).bases().contains(id@),
        ensures
            final (self).wf(),
            final (self).states() == old(self).states().insert(id@, state),
            final (self).bases() == old(self).bases(),
            final (self).active_width() == old(self).active_width() + 1,
            final (self).slot_count() == if final (self).active_width() > old(self).slot_count() {
                final (self).active_width()
            } else {
                old(self).slot_count()
            },
    {
        let slot = self.arena.allocate(state);
        let ghost freed = old(self).arena.free_list().len() > 0;
        self.table.push(Entry { id, slot, base: false });
        proof {
            let post = *self;
            let pre = *old(self);
            let n = pre.table@.len();
            assert(forall|i: int|
                0 <= i < n ==> (#[trigger] post.table@[i].slot) == pre.table@[i].slot
                    && post.table@[i].id@ == pre.table@[i].id@ && post.table@[i].base
                    == pre.table@[i].base);
            if freed {
                assert(pre.arena.free_list().contains(slot)) by {
                    assert(pre.arena.free_list()[pre.arena.free_list().len() - 1] == slot);
                }
                assert forall|i: int|
                    0 <= i < n implies (#[trigger] pre.table@[i].slot) != slot by {
                    assert(!pre.arena.free_list().contains(pre.table@[i].slot));
                }
                assert forall|i: int|
                    0 <= i < post.table@.len() implies !post.arena.free_list().contains(
                    #[trigger] post.table@[i].slot) by {
                    if post.arena.free_list().contains(post.table@[i].slot) {
                        let t = choose|t: int|
                            0 <= t < post.arena.free_list().len()
                                && post.arena.free_list()[t] == post.table@[i].slot;
                        assert(pre.arena.free_list()[t] == post.table@[i].slot);
                        assert(i < n);
                    }
                }
                assert(post.arena.slots() == pre.arena.slots().update(slot as int, state));
                assert forall|i: int|
                    0 <= i < n implies post.arena.slots()[(#[trigger] pre.table@[i].slot) as int]
                    == pre.arena.slots()[pre.table@[i].slot as int] by {
                    assert(pre.table@[i].slot != slot);
                    assert(pre.table@[i].slot < pre.arena.slots().len());
                    assert(pre.arena.slots().update(slot as int, state)[pre.table@[i].slot as int]
                        == pre.arena.slots()[pre.table@[i].slot as int]);
                }
            } else {
                assert(slot == pre.arena.slots().len());
                assert forall|i: int|
                    0 <= i < n implies (#[trigger] pre.table@[i].slot) != slot by {
                    assert(pre.table@[i].slot < pre.arena.slots().len());
                }
                assert(post.arena.slots() == pre.arena.slots().push(state));
                assert forall|i: int|
                    0 <= i < n implies post.arena.slots()[(#[trigger] pre.table@[i].slot) as int]
                    == pre.arena.slots()[pre.table@[i].slot as int] by {
                    assert(pre.table@[i].slot < pre.arena.slots().len());
                }
                assert forall|i: int|
                    0 <= i < post.table@.len() implies !post.arena.free_list().contains(
                    #[trigger] post.table@[i].slot) by {
                    if post.arena.free_list().contains(post.table@[i].slot) {
                        assert(pre.arena.free_list().contains(post.table@[i].slot));
                        assert(i < n);
                    }
                }
            }
            assert(post.wf());
            assert forall|x: Seq<u8>| post.states().dom().contains(x) implies pre.states().insert(
                id@,
                state,
            ).dom().contains(x) by {
                let i = choose|i: int|
                    0 <= i < post.table@.len() && #[trigger] post.table@[i].id@ == x;
                if i < pre.table@.len() {
                    assert(pre.has_id(x));
                }
            }
            assert forall|x: Seq<u8>|
                pre.states().insert(id@, state).dom().contains(x) implies post.states().dom()
                .contains(x) by {
                if x == id@ {
                    assert(post.table@[n as int].id@ == x);
                } else {
                    let i = pre.idx_of(x);
                    pre.lemma_states_at(i);
                    assert(post.table@[i].id@ == x);
                }
            }
            assert(post.states().dom() =~= pre.states().insert(id@, state).dom());
            assert forall|x: Seq<u8>| post.states().dom().contains(x) implies post.states()[x]
                == pre.states().insert(id@, state)[x] by {
                if x == id@ {
                    post.lemma_states_at(n as int);
                    assert(post.states()[x] == post.arena.slots()[slot as int]);
                    assert(post.arena.slots()[slot as int] == state);
                } else {
                    assert(pre.states().dom().contains(x));
                    let i = pre.idx_of(x);
                    pre.lemma_states_at(i);
                    assert(post.table@[i].id@ == x);
                    post.lemma_states_at(i);
                    assert(post.states()[x] == post.arena.slots()[post.table@[i].slot as int]);
                    assert(post.table@[i].slot == pre.table@[i].slot);
                    assert(post.arena.slots()[pre.table@[i].slot as int] == pre.arena.slots()[
                        pre.table@[i].slot as int]);
                    assert(pre.states()[x] == pre.arena.slots()[pre.table@[i].slot as int]);
                }
            }
            assert(post.states() =~= pre.states().insert(id@, state));
            assert forall|x: Seq<u8>| post.bases().contains(x) implies pre.bases().contains(x) by {
                let i = choose|i: int|
                    0 <= i < post.table@.len() && #[trigger] post.table@[i].id@ == x
                        && post.table@[i].base;
                assert(pre.table@[i].id@ == x && pre.table@[i].base);
            }
            assert forall|x: Seq<u8>| pre.bases().contains(x) implies post.bases().contains(x) by {
                let i = choose|i: int|
                    0 <= i < pre.table@.len() && #[trigger] pre.table@[i].id@ == x
                        && pre.table@[i].base;
                assert(post.table@[i].id@ == x && post.table@[i].base);
            }
            assert(post.bases() =~= pre.bases());
        }
    }

    /// The number of commits the Active Table currently tracks.
    pub fn width(&self) -> (r: usize)
        ensures
            r == self.active_width(),
    {
        self.table.len()
    }

    /// The number of arena slots ever allocated.  Slot reuse keeps this at
    /// the largest width the Active Table has reached, not at the number of
    /// commits ever processed: see the `slot_count` clause of [`Self::process`].
    pub fn slots_allocated(&self) -> (r: usize)
        ensures
            r == self.slot_count(),
    {
        self.arena.len()
    }

    /// Consumes one record of the edge stream, in stream order: classifies
    /// its commit, promotes or forgets its tracked parents, and tracks the
    /// commit itself, reusing a freed slot before growing the arena.
    pub fn process(&mut self, rec: EdgeRecord)
        requires
            old(self).wf(),
            !old(self).states().dom().contains(rec@.id),
        ensures
            final (self).wf(),
            final (self).states() == step(old(self).states(), rec@),
            final (self).bases() == old(self).bases(),
            final (self).slot_count() == if final (self).active_width() > old(self).slot_count() {
                final (self).active_width()
            } else {
                old(self).slot_count()
            },
    {
        let ghost m0 = self.states();
        let ghost b0 = self.bases();
        let ghost parents = rec@.parents;
        let ghost pre = *self;
        let mut visible = false;
        let mut pi: usize = 0;
        while pi < rec.parents.len()
            invariant
                *self == pre,
                self.wf(),
                pi <= rec.parents@.len(),
                parents == rec@.parents,
                m0 == self.states(),
                parents.len() == rec.parents@.len(),
                visible == rec_visible(m0, parents.take(pi as int)),
            decreases rec.parents@.len() - pi,
        {
            proof {
                assert(parents[pi as int] == rec.parents@[pi as int]@);
            }
            match self.find(&rec.parents[pi]) {
                Some(t) => {
                    let slot = self.table[t].slot;
                    if self.arena.get(slot).is_visible() {
                        proof {
                            self.lemma_states_at(t as int);
                            assert(visible_in(m0, parents[pi as int]));
                        }
                        visible = true;
                    } else {
                        proof {
                            self.lemma_states_at(t as int);
                            assert(!visible_in(m0, parents[pi as int]));
                        }
                    }
                },
                None => {
                    proof {
                        assert(!m0.dom().contains(parents[pi as int]));
                        assert(!visible_in(m0, parents[pi as int]));
                    }
                },
            }
            proof {
                lemma_visible_step(m0, parents, pi as int);
            }
            pi = pi + 1;
        }
        proof {
            assert(parents.take(parents.len() as int) =~= parents);
            assert(visible == rec_visible(m0, parents));
        }
        let EdgeRecord { id, parents: parent_vec } = rec;
        if visible {
            let mut pi: usize = 0;
            while pi < parent_vec.len()
                invariant
                    self.wf(),
                    pi <= parent_vec@.len(),
                    parents.len() == parent_vec@.len(),
                    forall|j: int|
                        0 <= j < parents.len() ==> parents[j] == (#[trigger] parent_vec@[j])@,
                    self.states() == promote(m0, parents.take(pi as int)),
                    self.bases() == b0,
                    self.active_width() == pre.active_width(),
                    self.slot_count() == pre.slot_count(),
                decreases parent_vec@.len() - pi,
            {
                let ghost cur = self.states();
                proof {
                    assert(parents[pi as int] == parent_vec@[pi as int]@);
                    assert(cur.dom() =~= m0.dom());
                }
                match self.find(&parent_vec[pi]) {
                    Some(t) => {
                        let slot = self.table[t].slot;
                        if *self.arena.get(slot) == NodeState::VisibleLeaf {
                            proof {
                                self.lemma_states_at(t as int);
                                assert(cur[parents[pi as int]] == NodeState::VisibleLeaf);
                                assert(m0.dom().contains(parents[pi as int]));
                                assert(m0[parents[pi as int]] == NodeState::VisibleLeaf) by {
                                    if parents.take(pi as int).contains(parents[pi as int]) {
                                        assert(cur[parents[pi as int]]
                                            == NodeState::VisibleInterior);
                                    }
                                }
                            }
                            self.promote_at(t);
                            proof {
                                lemma_promote_step(m0, parents, pi as int);
                            }
                        } else {
                            proof {
                                self.lemma_states_at(t as int);
                                lemma_promote_step(m0, parents, pi as int);
                                if m0.dom().contains(parents[pi as int]) && m0[parents[pi as int]]
                                    == NodeState::VisibleLeaf {
                                    assert(cur[parents[pi as int]] != NodeState::VisibleLeaf);
                                    assert(parents.take(pi as int).contains(parents[pi as int]));
                                    assert(cur[parents[pi as int]] == NodeState::VisibleInterior);
                                    assert(cur.insert(parents[pi as int],
                                        NodeState::VisibleInterior) =~= cur);
                                }
                            }
                        }
                    },
                    None => {
                        proof {
                            assert(!m0.dom().contains(parents[pi as int]));
                            lemma_promote_step(m0, parents, pi as int);
                        }
                    },
                }
                pi = pi + 1;
            }
            proof {
                assert(parents.take(parents.len() as int) =~= parents);
                assert(!self.has_id(id@)) by {
                    if self.has_id(id@) {
                        assert(self.states().dom().contains(id@));
                        assert(m0.dom() =~= self.states().dom());
                    }
                }
            }
            self.insert(id, NodeState::VisibleLeaf);
        } else {
            let mut pi: usize = 0;
            while pi < parent_vec.len()
                invariant
                    self.wf(),
                    pi <= parent_vec@.len(),
                    parents.len() == parent_vec@.len(),
                    forall|j: int|
                        0 <= j < parents.len() ==> parents[j] == (#[trigger] parent_vec@[j])@,
                    self.states() == prune(m0, parents.take(pi as int)),
                    self.bases() == b0,
                    self.slot_count() == pre.slot_count(),
                decreases parent_vec@.len() - pi,
            {
                let ghost cur = self.states();
                proof {
                    assert(parents[pi as int] == parent_vec@[pi as int]@);
                }
                match self.find(&parent_vec[pi]) {
                    Some(t) => {
                        let slot = self.table[t].slot;
                        if *self.arena.get(slot) == NodeState::PendingInvisible {
                            proof {
                                self.lemma_states_at(t as int);
                                assert(cur[parents[pi as int]] == NodeState::PendingInvisible);
                                assert(m0.dom().contains(parents[pi as int]));
                                assert(m0[parents[pi as int]] == NodeState::PendingInvisible);
                            }
                            self.forget_at(t);
                            proof {
                                lemma_prune_step(m0, parents, pi as int);
                            }
                        } else {
                            proof {
                                self.lemma_states_at(t as int);
                                lemma_prune_step(m0, parents, pi as int);
                                if m0.dom().contains(parents[pi as int]) && m0[parents[pi as int]]
                                    == NodeState::PendingInvisible {
                                    assert(cur.dom().contains(parents[pi as int]));
                                    assert(cur[parents[pi as int]] == m0[parents[pi as int]]);
                                    assert(cur[parents[pi as int]]
                                        != NodeState::PendingInvisible);
                                }
                            }
                        }
                    },
                    None => {
                        proof {
                            if cur.dom().contains(parents[pi as int]) {
                                assert(self.has_id(parents[pi as int]));
                            }
                            lemma_prune_step(m0, parents, pi as int);
                            if m0.dom().contains(parents[pi as int]) && m0[parents[pi as int]]
                                == NodeState::PendingInvisible {
                                assert(prune(m0, parents.take(pi as int + 1)) =~= cur);
                            }
                        }
                    },
                }
                pi = pi + 1;
            }
            proof {
                assert(parents.take(parents.len() as int) =~= parents);
                assert(!self.has_id(id@)) by {
                    if self.has_id(id@) {
                        assert(self.states().dom().contains(id@));
                        assert(m0.dom().contains(id@));
                    }
                }
                assert(!self.bases().contains(id@)) by {
                    if b0.contains(id@) {
                        let i = choose|i: int|
                            0 <= i < pre.table@.len() && #[trigger] pre.table@[i].id@ == id@
                                && pre.table@[i].base;
                        assert(pre.has_id(id@));
                    }
                }
            }
            self.insert(id, NodeState::PendingInvisible);
        }
    }

    /// Scans the final Active Table: every tracked commit in state
    /// `VisibleLeaf` that is not a pre-seeded base goes to `includes`, every
    /// one in state `PendingInvisible` to `excludes`, and `VisibleInterior`
    /// commits are omitted, their visibility being implied by an included
    /// descendant.  Both lists hold distinct ids.
    pub fn finish(self) -> (r: (Vec<Vec<u8>>, Vec<Vec<u8>>))
        requires
            self.wf(),
        ensures
            id_views(r.0@).to_set() == includes_of(self.states(), self.bases()),
            id_views(r.0@).no_duplicates(),
            id_views(r.1@).to_set() == excludes_of(self.states()),
            id_views(r.1@).no_duplicates(),
    {
        let ghost pre = self;
        let mut eng = self;
        let mut includes: Vec<Vec<u8>> = Vec::new();
        let mut excludes: Vec<Vec<u8>> = Vec::new();
        let ghost table0 = pre.table@;
        let ghost slots0 = pre.arena.slots();
        let ghost n = table0.len() as int;
        let ghost mut wi: Seq<int> = Seq::empty();
        let ghost mut we: Seq<int> = Seq::empty();
        while eng.table.len() > 0
            invariant
                pre.wf(),
                table0 == pre.table@,
                slots0 == pre.arena.slots(),
                n == table0.len(),
                eng.arena == pre.arena,
                eng.table@.len() <= n,
                eng.table@ == table0.take(eng.table@.len() as int),
                wi.len() == includes@.len(),
                we.len() == excludes@.len(),
                forall|t: int|
                    0 <= t < wi.len() ==> eng.table@.len() <= (#[trigger] wi[t]) < n
                        && includes@[t]@ == table0[wi[t]].id@ && slots0[table0[wi[t]].slot
                        as int] == NodeState::VisibleLeaf && !table0[wi[t]].base,
                forall|t: int|
                    0 <= t < we.len() ==> eng.table@.len() <= (#[trigger] we[t]) < n
                        && excludes@[t]@ == table0[we[t]].id@ && slots0[table0[we[t]].slot
                        as int] == NodeState::PendingInvisible,
                covers_leaves(id_views(includes@), table0, slots0, eng.table@.len() as int),
                covers_pending(id_views(excludes@), table0, slots0, eng.table@.len() as int),
                id_views(includes@).no_duplicates(),
                id_views(excludes@).no_duplicates(),
            decreases eng.table@.len(),
        {
            let ghost incl0 = id_views(includes@);
            let ghost excl0 = id_views(excludes@);
            let ghost inc_pre = includes@;
            let ghost exc_pre = excludes@;
            let entry = eng.table.pop().unwrap();
            let ghost j = eng.table@.len() as int;
            proof {
                assert(table0.take(j + 1).drop_last() =~= table0.take(j));
                assert(table0.take(j + 1).last() == table0[j]);
                assert(entry == table0[j]);
            }
            let state = *eng.arena.get(entry.slot);
            if state == NodeState::VisibleLeaf && !entry.base {
                proof {
                    if incl0.contains(entry.id@) {
                        let t = choose|t: int| 0 <= t < incl0.len() && incl0[t] == entry.id@;
                        assert(incl0[t] == includes@[t]@);
                        let j2 = wi[t];
                        assert(table0[j].id@ != table0[j2].id@);
                    }
                }
                includes.push(entry.id);
                proof {
                    wi = wi.push(j);
                    assert(id_views(includes@) =~= incl0.push(table0[j].id@));
                    assert(forall|t: int| 0 <= t < inc_pre.len() ==> includes@[t] == inc_pre[t]);
                }
            } else if state == NodeState::PendingInvisible {
                proof {
                    if excl0.contains(entry.id@) {
                        let t = choose|t: int| 0 <= t < excl0.len() && excl0[t] == entry.id@;
                        assert(excl0[t] == excludes@[t]@);
                        let j2 = we[t];
                        assert(table0[j].id@ != table0[j2].id@);
                    }
                }
                excludes.push(entry.id);
                proof {
                    we = we.push(j);
                    assert(id_views(excludes@) =~= excl0.push(table0[j].id@));
                    assert(forall|t: int| 0 <= t < exc_pre.len() ==> excludes@[t] == exc_pre[t]);
                }
            }
            proof {
                let incl = id_views(includes@);
                let excl = id_views(excludes@);
                assert(covers_leaves(incl, table0, slots0, j)) by {
                    assert forall|j2: int|
                        j <= j2 < table0.len() && slots0[(#[trigger] table0[j2].slot) as int]
                            == NodeState::VisibleLeaf && !table0[j2].base implies incl.contains(
                        table0[j2].id@) by {
                        if j2 > j {
                            assert(incl0.contains(table0[j2].id@));
                            let t = choose|t: int|
                                0 <= t < incl0.len() && incl0[t] == table0[j2].id@;
                            assert(incl[t] == table0[j2].id@);
                        } else {
                            assert(incl[incl.len() - 1] == table0[j].id@);
                        }
                    }
                }
                assert(covers_pending(excl, table0, slots0, j)) by {
                    assert forall|j2: int|
                        j <= j2 < table0.len() && slots0[(#[trigger] table0[j2].slot) as int]
                            == NodeState::PendingInvisible implies excl.contains(
                        table0[j2].id@) by {
                        if j2 > j {
                            assert(excl0.contains(table0[j2].id@));
                            let t = choose|t: int|
                                0 <= t < excl0.len() && excl0[t] == table0[j2].id@;
                            assert(excl[t] == table0[j2].id@);
                        } else {
                            assert(excl[excl.len() - 1] == table0[j].id@);
                        }
                    }
                }
            }
        }
        proof {
            let incl = id_views(includes@);
            let excl = id_views(excludes@);
            assert forall|x: Seq<u8>| incl.to_set().contains(x) implies includes_of(
                pre.states(),
                pre.bases(),
            ).contains(x) by {
                let t = choose|t: int| 0 <= t < incl.len() && incl[t] == x;
                assert(incl[t] == includes@[t]@);
                let j = wi[t];
                pre.lemma_states_at(j);
                if pre.bases().contains(x) {
                    let i = choose|i: int|
                        0 <= i < table0.len() && (#[trigger] table0[i].id@) == x
                            && table0[i].base;
                    pre.lemma_states_at(i);
                    assert(pre.idx_of(x) == i && pre.idx_of(x) == j);
                }
            }
            assert forall|x: Seq<u8>|
                includes_of(pre.states(), pre.bases()).contains(x) implies incl.to_set()
                .contains(x) by {
                let j = pre.idx_of(x);
                pre.lemma_states_at(j);
                if table0[j].base {
                    assert(pre.bases().contains(x));
                }
                assert(incl.contains(x));
            }
            assert(incl.to_set() =~= includes_of(pre.states(), pre.bases()));
            assert forall|x: Seq<u8>| excl.to_set().contains(x) implies excludes_of(
                pre.states(),
            ).contains(x) by {
                let t = choose|t: int| 0 <= t < excl.len() && excl[t] == x;
                assert(excl[t] == excludes@[t]@);
                let j = we[t];
                pre.lemma_states_at(j);
            }
            assert forall|x: Seq<u8>| excludes_of(pre.states()).contains(x) implies excl.to_set()
                .contains(x) by {
                let j = pre.idx_of(x);
                pre.lemma_states_at(j);
                assert(excl.contains(x));
            }
            assert(excl.to_set() =~= excludes_of(pre.states()));
        }
        (includes, excludes)
    }

    /// Promotes the commit tracked at table index `t` from `VisibleLeaf` to
    /// `VisibleInterior`: it has gained a visible child.
    fn promote_at(&mut self, t: usize)
        requires
            old(self).wf(),
            t < old(self).table@.len(),
            old(self).arena.slots()[old(self).table@[t as int].slot as int]
                == NodeState::VisibleLeaf,
        ensures
            final (self).wf(),
            final (self).states() == old(self).states().insert(
                old(self).table@[t as int].id@,
                NodeState::VisibleInterior,
            ),
            final (self).bases() == old(self).bases(),
            final (self).active_width() == old(self).active_width(),
            final (self).slot_count() == old(self).slot_count(),
    {
        let slot = self.table[t].slot;
        self.arena.set(slot, NodeState::VisibleInterior);
        proof {
            let post = *self;
            let pre = *old(self);
            let p = pre.table@[t as int].id@;
            assert(forall|i: int|
                0 <= i < pre.table@.len() ==> post.table@[i] == pre.table@[i]);
            assert forall|i: int|
                0 <= i < post.table@.len() && i != t implies post.arena.slots()[(
                #[trigger] post.table@[i].slot) as int] == pre.arena.slots()[pre.table@[i].slot
                as int] by {
                if i < t {
                    assert(pre.table@[i].slot != pre.table@[t as int].slot);
                } else {
                    assert(pre.table@[t as int].slot != pre.table@[i].slot);
                }
                assert(pre.table@[i].slot < pre.arena.slots().len());
            }
            assert(post.wf());
            assert(post.states().dom() =~= pre.states().insert(
                p,
                NodeState::VisibleInterior,
            ).dom());
            pre.lemma_states_at(t as int);
            assert forall|x: Seq<u8>| post.states().dom().contains(x) implies post.states()[x]
                == pre.states().insert(p, NodeState::VisibleInterior)[x] by {
                let i = pre.idx_of(x);
                pre.lemma_states_at(i);
                assert(post.table@[i].id@ == x);
                post.lemma_states_at(i);
                if x == p {
                    assert(i == t);
                    assert(post.arena.slots()[post.table@[i].slot as int]
                        == NodeState::VisibleInterior);
                } else {
                    assert(i != t);
                }
            }
            assert(post.states() =~= pre.states().insert(p, NodeState::VisibleInterior));
            assert forall|x: Seq<u8>| post.bases().contains(x) implies pre.bases().contains(
                x,
            ) by {
                let i = choose|i: int|
                    0 <= i < post.table@.len() && #[trigger] post.table@[i].id@ == x
                        && post.table@[i].base;
                assert(pre.table@[i].id@ == x && pre.table@[i].base);
            }
            assert forall|x: Seq<u8>| pre.bases().contains(x) implies post.bases().contains(
                x,
            ) by {
                let i = choose|i: int|
                    0 <= i < pre.table@.len() && #[trigger] pre.table@[i].id@ == x
                        && pre.table@[i].base;
                assert(post.table@[i].id@ == x && post.table@[i].base);
            }
            assert(post.bases() =~= pre.bases());
        }
    }

    /// Forgets the `PendingInvisible` commit tracked at table index `t`: it
    /// has gained an invisible child, so no later record can use it to
    /// change an outcome.  Its slot returns to the reuse pool.
    fn forget_at(&mut self, t: usize)
        requires
            old(self).wf(),
            t < old(self).table@.len(),
            old(self).arena.slots()[old(self).table@[t as int].slot as int]
                == NodeState::PendingInvisible,
        ensures
            final (self).wf(),
            final (self).states() == old(self).states().remove(old(self).table@[t as int].id@),
            final (self).bases() == old(self).bases(),
            final (self).active_width() == old(self).active_width() - 1,
            final (self).slot_count() == old(self).slot_count(),
    {
        let entry = self.table.swap_remove(t);
        self.arena.free(entry.slot);
        proof {
            let post = *self;
            let pre = *old(self);
            let n = pre.table@.len();
            let p = pre.table@[t as int].id@;
            let fslot = pre.table@[t as int].slot;
            assert(forall|i: int|
                0 <= i < post.table@.len() && i != t ==> post.table@[i] == pre.table@[i]);
            assert(t < post.table@.len() ==> post.table@[t as int] == pre.table@[n - 1]);
            assert forall|i: int, j: int|
                0 <= i < j < post.table@.len() implies post.table@[i].id@ != post.table@[j].id@
                && post.table@[i].slot != post.table@[j].slot by {
                let pi: int = if i == t { n - 1 } else { i };
                let pj: int = if j == t { n - 1 } else { j };
                assert(post.table@[i] == pre.table@[pi]);
                assert(post.table@[j] == pre.table@[pj]);
                if pi < pj {
                    assert(pre.table@[pi].id@ != pre.table@[pj].id@);
                } else {
                    assert(pre.table@[pj].id@ != pre.table@[pi].id@);
                }
            }
            assert forall|i: int|
                0 <= i < post.table@.len() implies !post.arena.free_list().contains(
                #[trigger] post.table@[i].slot) && post.table@[i].slot
                < post.arena.slots().len() by {
                let pi: int = if i == t { n - 1 } else { i };
                assert(post.table@[i] == pre.table@[pi]);
                assert(!pre.arena.free_list().contains(pre.table@[pi].slot));
                if pi < t {
                    assert(pre.table@[pi].slot != pre.table@[t as int].slot);
                } else if t < pi {
                    assert(pre.table@[t as int].slot != pre.table@[pi].slot);
                }
                if post.arena.free_list().contains(post.table@[i].slot) {
                    let k = choose|k: int|
                        0 <= k < post.arena.free_list().len() && post.arena.free_list()[k]
                            == post.table@[i].slot;
                    if k < post.arena.free_list().len() - 1 {
                        assert(pre.arena.free_list()[k] == post.table@[i].slot);
                    }
                }
            }
            assert(post.wf());
            assert forall|x: Seq<u8>| post.states().dom().contains(x) implies pre.states().remove(
                p,
            ).dom().contains(x) by {
                let i = choose|i: int|
                    0 <= i < post.table@.len() && #[trigger] post.table@[i].id@ == x;
                let pi: int = if i == t { n - 1 } else { i };
                assert(pre.table@[pi].id@ == x);
                assert(pre.has_id(x));
                if x == p {
                    if pi < t {
                        assert(pre.table@[pi].id@ != pre.table@[t as int].id@);
                    } else if t < pi {
                        assert(pre.table@[t as int].id@ != pre.table@[pi].id@);
                    }
                }
            }
            assert forall|x: Seq<u8>|
                pre.states().remove(p).dom().contains(x) implies post.states().dom().contains(
                x,
            ) by {
                let i = pre.idx_of(x);
                pre.lemma_states_at(i);
                assert(i != t);
                let qi: int = if i == n - 1 { t as int } else { i };
                if i == n - 1 {
                    assert(n - 1 != t);
                    assert(post.table@[qi].id@ == x);
                } else {
                    assert(post.table@[qi].id@ == x);
                }
            }
            assert(post.states().dom() =~= pre.states().remove(p).dom());
            assert forall|x: Seq<u8>| post.states().dom().contains(x) implies post.states()[x]
                == pre.states().remove(p)[x] by {
                let i = post.idx_of(x);
                post.lemma_states_at(i);
                let pi: int = if i == t { n - 1 } else { i };
                assert(post.table@[i] == pre.table@[pi]);
                pre.lemma_states_at(pi);
                assert(post.arena.slots() == pre.arena.slots());
                assert(x != p);
            }
            assert(post.states() =~= pre.states().remove(p));
            assert forall|x: Seq<u8>| post.bases().contains(x) implies pre.bases().contains(
                x,
            ) by {
                let i = choose|i: int|
                    0 <= i < post.table@.len() && #[trigger] post.table@[i].id@ == x
                        && post.table@[i].base;
                let pi: int = if i == t { n - 1 } else { i };
                assert(pre.table@[pi].id@ == x && pre.table@[pi].base);
            }
            assert forall|x: Seq<u8>| pre.bases().contains(x) implies post.bases().contains(
                x,
            ) by {
                let i = choose|i: int|
                    0 <= i < pre.table@.len() && #[trigger] pre.table@[i].id@ == x
                        && pre.table@[i].base;
                assert(i != t) by {
                    assert(pre.arena.slots()[pre.table@[t as int].slot as int]
                        == NodeState::PendingInvisible);
                }
                let qi: int = if i == n - 1 { t as int } else { i };
                if i == n - 1 {
                    assert(n - 1 != t);
                }
                assert(post.table@[qi].id@ == x && post.table@[qi].base);
            }
            assert(post.bases() =~= pre.bases());
        }
    }
}

/// The domain of the table only ever holds the initial ids and the ids of
/// the records folded so far.
pub proof fn lemma_run_dom(m0: Map<Seq<u8>, NodeState>, recs: Seq<EdgeRecordView>)
    ensures
        forall|x: Seq<u8>| #[trigger]
            run(m0, recs).dom().contains(x) ==> m0.dom().contains(x) || exists|j: int|
                0 <= j < recs.len() && recs[j].id == x,
    decreases recs.len(),
{
    if recs.len() > 0 {
        lemma_run_dom(m0, recs.drop_last());
        let prev = run(m0, recs.drop_last());
        let last = recs.last();
        assert forall|x: Seq<u8>| #[trigger]
            run(m0, recs).dom().contains(x) implies m0.dom().contains(x) || exists|j: int|
                0 <= j < recs.len() && recs[j].id == x by {
            if x == last.id {
                assert(recs[recs.len() - 1].id == x);
            } else {
                assert(prev.dom().contains(x));
                if !m0.dom().contains(x) {
                    let j = choose|j: int|
                        0 <= j < recs.drop_last().len() && recs.drop_last()[j].id == x;
                    assert(recs[j].id == x);
                }
            }
        }
    }
}

/// Computes the include and exclude lists for a whole edge stream: the
/// engine seeded with `bases` is run over every line of `lines` in order,
/// and the final table is scanned.  Fails exactly when some line holds no
/// leading commit id; no partial result is returned then.
pub fn includes_excludes(bases: Vec<Vec<u8>>, lines: &Vec<Vec<u8>>) -> (r: Result<
    (Vec<Vec<u8>>, Vec<Vec<u8>>),
    MalformedRecord,
>)
    requires
        forall|i: int, j: int| 0 <= i < j < bases@.len() ==> bases@[i]@ != bases@[j]@,
        forall|i: int, j: int|
            0 <= i < j < lines@.len() ==> records_of(lines@)[i].id != records_of(lines@)[j].id,
        forall|i: int|
            0 <= i < lines@.len() ==> !id_views(bases@).contains(
                (#[trigger] records_of(lines@)[i]).id,
            ),
    ensures
        r is Ok <==> (forall|i: int|
            0 <= i < lines@.len() ==> (#[trigger] records_of(lines@)[i]).id.len() > 0),
        r matches Ok(p) ==> {
            let m = run(seeded(id_views(bases@)), records_of(lines@));
            &&& id_views(p.0@).to_set() == includes_of(m, id_views(bases@).to_set())
            &&& id_views(p.0@).no_duplicates()
            &&& id_views(p.1@).to_set() == excludes_of(m)
            &&& id_views(p.1@).no_duplicates()
        },
{
    let ghost bvs = id_views(bases@);
    let ghost m0 = seeded(bvs);
    let ghost recs = records_of(lines@);
    let mut eng = Engine::new(bases);
    let mut i: usize = 0;
    while i < lines.len()
        invariant
            eng.wf(),
            i <= lines@.len(),
            recs == records_of(lines@),
            recs.len() == lines@.len(),
            m0 == seeded(bvs),
            eng.states() == run(m0, recs.take(i as int)),
            eng.bases() == bvs.to_set(),
            forall|a: int, b: int| 0 <= a < b < recs.len() ==> recs[a].id != recs[b].id,
            forall|a: int| 0 <= a < recs.len() ==> !bvs.contains((#[trigger] recs[a]).id),
            forall|a: int| 0 <= a < i ==> (#[trigger] recs[a]).id.len() > 0,
        decreases lines@.len() - i,
    {
        let rec = match parse_record(lines[i].as_slice()) {
            Ok(rec) => rec,
            Err(e) => {
                proof {
                    assert(recs[i as int].id.len() == 0);
                }
                return Err(e);
            },
        };
        proof {
            assert(rec@ == recs[i as int]);
            lemma_run_dom(m0, recs.take(i as int));
            assert(!eng.states().dom().contains(rec@.id)) by {
                if eng.states().dom().contains(rec@.id) {
                    if m0.dom().contains(rec@.id) {
                        assert(bvs.contains(rec@.id));
                    } else {
                        let j = choose|j: int|
                            0 <= j < recs.take(i as int).len() && recs.take(i as int)[j].id
                                == rec@.id;
                        assert(recs[j].id == recs[i as int].id);
                    }
                }
            }
        }
        eng.process(rec);
        proof {
            assert(recs.take(i + 1).drop_last() =~= recs.take(i as int));
            assert(recs.take(i + 1).last() == recs[i as int]);
        }
        i = i + 1;
    }
    proof {
        assert(recs.take(recs.len() as int) =~= recs);
    }
    Ok(eng.finish())
}

/// Returns whether two byte strings are equal.
pub fn bytes_eq(a: &Vec<u8>, b: &Vec<u8>) -> (r: bool)
    ensures
        r == (a@ == b@),
{
    if a.len() != b.len() {
        return false;
    }
    let mut i: usize = 0;
    while i < a.len()
        invariant
            a@.len() == b@.len(),
            i <= a@.len(),
            forall|t: int| 0 <= t < i ==> a@[t] == b@[t],
        decreases a@.len() - i,
    {
        if a[i] != b[i] {
            return false;
        }
        i = i + 1;
    }
    proof {
        assert(a@ =~= b@);
    }
    true
}

} // verus!
