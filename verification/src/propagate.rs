//! The toggle-propagation engine.
//!
//! Once per tick the engine reads every toggle-completion notification
//! emitted since the last tick and decides, from the start-of-tick snapshot
//! alone, which blocks to push out of position. A block that should cascade
//! but is already out of position is not touched; instead a synthetic
//! notification is queued so the cascade resumes through it on a later tick.

use vstd::prelude::*;

use std::collections::HashMap;

use crate::cubes::Block;
use crate::cubes::BlockState;
use crate::graph::EntityGraph;

verus! {

broadcast use vstd::std_specs::hash::group_hash_axioms;

/// Indicates a block has finished its trajectory to the given state.
#[derive(Debug, Copy, Clone, PartialEq, Eq, Structural)]
pub struct ToggleEvent {
    pub state: BlockState,
    pub block: u64,
}

/// Which related blocks a completed move pushes out of position.
#[derive(Debug, Copy, Clone, PartialEq, Eq, Structural)]
pub enum PropagateMode {
    /// Easier difficulty, since a mistake along the way is more likely to
    /// end up costing less.
    Children,
    /// Harder difficulty. A mistake could end up resetting most of the cube.
    Ancestors,
}

impl PropagateMode {
    /// The mode for the chosen difficulty.
    pub fn new(hard_mode: bool) -> (r: Self)
        ensures
            r == if hard_mode {
                PropagateMode::Ancestors
            } else {
                PropagateMode::Children
            },
    {
        if hard_mode {
            Self::Ancestors
        } else {
            Self::Children
        }
    }
}

/// The blocks that one notification pushes at: none unless the move ended
/// in position; otherwise the direct children or the single parent of the
/// moved block, as the mode selects.
pub open spec fn event_targets(g: EntityGraph, mode: PropagateMode, ev: ToggleEvent) -> Set<u64> {
    if ev.state == BlockState::InPosition {
        match mode {
            PropagateMode::Children => Set::new(|c: u64| g.is_child_of(c, ev.block)),
            PropagateMode::Ancestors => match g.parent_of(ev.block) {
                Some(p) => Set::empty().insert(p),
                None => Set::empty(),
            },
        }
    } else {
        Set::empty()
    }
}

/// The deduplicated set of blocks one tick's notifications push at.
pub open spec fn pending_set(g: EntityGraph, mode: PropagateMode, evs: Seq<ToggleEvent>) -> Set<
    u64,
>
    decreases evs.len(),
{
    if evs.len() == 0 {
        Set::empty()
    } else {
        pending_set(g, mode, evs.drop_last()).union(event_targets(g, mode, evs.last()))
    }
}

/// How one block's record ends the tick: pushed out of position when the
/// cascade reaches it in position, untouched otherwise.
pub open spec fn resolved(states: Map<u64, Block>, pend: Set<u64>, b: u64) -> Block {
    if pend.contains(b) && states[b].state == BlockState::InPosition {
        Block { state: BlockState::OutOfPlace }
    } else {
        states[b]
    }
}

/// The whole store at the end of the tick, resolved pointwise from the
/// start-of-tick snapshot.
pub open spec fn tick_states(states: Map<u64, Block>, pend: Set<u64>) -> Map<u64, Block> {
    Map::new(|b: u64| states.contains_key(b), |b: u64| resolved(states, pend, b))
}

/// The blocks the cascade reached while they were already out of position:
/// the tick leaves them alone and re-queues a synthetic notification for
/// each.
pub open spec fn deferred_set(states: Map<u64, Block>, pend: Set<u64>) -> Set<u64> {
    pend.filter(
        |b: u64| states.contains_key(b) && states[b].state == BlockState::OutOfPlace,
    )
}

/// Whether `x` already occurs in `v`.
fn vec_contains(v: &Vec<u64>, x: u64) -> (r: bool)
    ensures
        r == v@.contains(x),
{
    let mut i: usize = 0;
    while i < v.len()
        invariant
            i <= v@.len(),
            forall|j: int| 0 <= j < i ==> v@[j] != x,
        decreases v@.len() - i,
    {
        if v[i] == x {
            return true;
        }
        i += 1;
    }
    false
}

/// One tick of the cascade: read every notification of the tick, resolve
/// each affected block by its current state, and hand back the synthetic
/// notifications to feed into a later tick.
///
/// The store ends the tick exactly as `tick_states` resolves the
/// start-of-tick snapshot: each affected block found in position is pushed
/// out of place, one still out of place is left untouched, and one missing
/// from the store is skipped. The returned notifications carry, once each,
/// exactly the affected blocks that were already out of place.
pub fn propagate_block_toggles(
    graph: &EntityGraph,
    mode: PropagateMode,
    events: &Vec<ToggleEvent>,
    blocks: &mut HashMap<u64, Block>,
) -> (requeued: Vec<ToggleEvent>)
    requires
        graph.wf(),
    ensures
        final(blocks)@ == tick_states(old(blocks)@, pending_set(*graph, mode, events@)),
        forall|k: int|
            0 <= k < requeued@.len() ==> (#[trigger] requeued@[k]).state == BlockState::InPosition
                && deferred_set(old(blocks)@, pending_set(*graph, mode, events@)).contains(
                requeued@[k].block,
            ),
        forall|b: u64|
            #[trigger] deferred_set(old(blocks)@, pending_set(*graph, mode, events@)).contains(b)
                ==> exists|k: int| 0 <= k < requeued@.len() && (#[trigger] requeued@[k]).block == b,
        forall|k1: int, k2: int|
            0 <= k1 < k2 < requeued@.len() ==> requeued@[k1].block != requeued@[k2].block,
{
    let ghost ps = pending_set(*graph, mode, events@);
    let mut pending: Vec<u64> = Vec::new();
    let mut i: usize = 0;
    while i < events.len()
        invariant
            graph.wf(),
            i <= events@.len(),
            pending@.no_duplicates(),
            forall|b: u64|
                #[trigger] pending@.contains(b) <==> pending_set(
                    *graph,
                    mode,
                    events@.take(i as int),
                ).contains(b),
        decreases events@.len() - i,
    {
        let ev = events[i];
        let ghost pend_before = pending_set(*graph, mode, events@.take(i as int));
        if ev.state == BlockState::InPosition {
            let affected: Vec<u64> = match mode {
                PropagateMode::Children => graph.children(ev.block),
                PropagateMode::Ancestors => {
                    let mut v: Vec<u64> = Vec::new();
                    match graph.parent(ev.block) {
                        Some(p) => { v.push(p); },
                        None => {},
                    }
                    v
                },
            };
            proof {
                assert forall|c: u64|
                    #[trigger] affected@.contains(c) <==> event_targets(*graph, mode, ev).contains(
                    c,
                ) by {
                    if mode == PropagateMode::Ancestors {
                        if affected@.contains(c) {
                            assert(affected@[0] == c);
                        }
                        match graph.parent_of(ev.block) {
                            Some(p) => {
                                assert(affected@[0] == p);
                            },
                            None => {},
                        }
                    }
                }
            }
            let mut j: usize = 0;
            while j < affected.len()
                invariant
                    j <= affected@.len(),
                    pending@.no_duplicates(),
                    forall|c: u64|
                        #[trigger] affected@.contains(c) <==> event_targets(
                            *graph,
                            mode,
                            ev,
                        ).contains(c),
                    forall|b: u64|
                        #[trigger] pending@.contains(b) <==> pend_before.contains(b)
                            || affected@.take(j as int).contains(b),
                decreases affected@.len() - j,
            {
                let c = affected[j];
                let ghost pending_old = pending@;
                if !vec_contains(&pending, c) {
                    pending.push(c);
                }
                j += 1;
                proof {
                    assert(affected@.take(j as int).drop_last() =~= affected@.take(j - 1));
                    assert(affected@.take(j as int).last() == c);
                    assert forall|b: u64|
                        #[trigger] pending@.contains(b) <==> pend_before.contains(b)
                            || affected@.take(j as int).contains(b) by {
                        if pending@.contains(b) && b != c {
                            let k = choose|k: int| 0 <= k < pending@.len() && pending@[k] == b;
                            assert(pending_old[k] == b);
                            assert(pending_old.contains(b));
                        }
                        if affected@.take(j as int).contains(b) {
                            let k = choose|k: int|
                                0 <= k < j && (#[trigger] affected@.take(j as int)[k]) == b;
                            if k < j - 1 {
                                assert(affected@.take(j - 1)[k] == b);
                                assert(affected@.take(j - 1).contains(b));
                            }
                        }
                        if pend_before.contains(b) || affected@.take(j - 1).contains(b) {
                            assert(pending_old.contains(b));
                            let k = choose|k: int|
                                0 <= k < pending_old.len() && pending_old[k] == b;
                            assert(pending@[k] == b);
                        }
                        if b == c && pending@ != pending_old {
                            assert(pending@[pending@.len() - 1] == c);
                        }
                        if b == c && pending@ == pending_old {
                            assert(pending_old.contains(c));
                        }
                    }
                }
            }
            proof {
                assert(affected@.take(affected@.len() as int) =~= affected@);
            }
        }
        i += 1;
        proof {
            assert(events@.take(i as int).drop_last() =~= events@.take(i - 1));
            assert(events@.take(i as int).last() == ev);
            if ev.state != BlockState::InPosition {
                assert(event_targets(*graph, mode, ev) =~= Set::empty());
                assert(pending_set(*graph, mode, events@.take(i as int)) =~= pend_before);
            }
        }
    }
    proof {
        assert(events@.take(events@.len() as int) =~= events@);
    }
    let mut requeued: Vec<ToggleEvent> = Vec::new();
    let mut j: usize = 0;
    while j < pending.len()
        invariant
            j <= pending@.len(),
            pending@.no_duplicates(),
            forall|b: u64| #[trigger] pending@.contains(b) <==> ps.contains(b),
            forall|b: u64|
                #[trigger] blocks@.contains_key(b) <==> old(blocks)@.contains_key(b),
            forall|b: u64|
                #[trigger] blocks@.contains_key(b) ==> blocks@[b] == (if pending@.take(
                    j as int,
                ).contains(b) {
                    resolved(old(blocks)@, ps, b)
                } else {
                    old(blocks)@[b]
                }),
            forall|k: int|
                0 <= k < requeued@.len() ==> (#[trigger] requeued@[k]).state
                    == BlockState::InPosition && deferred_set(old(blocks)@, ps).contains(
                    requeued@[k].block,
                ) && pending@.take(j as int).contains(requeued@[k].block),
            forall|b: u64|
                deferred_set(old(blocks)@, ps).contains(b) && pending@.take(j as int).contains(b)
                    ==> exists|k: int| 0 <= k < requeued@.len() && (#[trigger] requeued@[k]).block
                    == b,
            forall|k1: int, k2: int|
                0 <= k1 < k2 < requeued@.len() ==> requeued@[k1].block != requeued@[k2].block,
        decreases pending@.len() - j,
    {
        let b = pending[j];
        proof {
            assert(pending@[j as int] == b);
            assert(pending@.contains(b));
            assert(!pending@.take(j as int).contains(b)) by {
                if pending@.take(j as int).contains(b) {
                    let k = choose|k: int| 0 <= k < j && (#[trigger] pending@.take(j as int)[k]) == b;
                    assert(pending@[k] == pending@[j as int]);
                }
            }
        }
        let cur: Option<Block> = match blocks.get(&b) {
            None => None,
            Some(blk) => Some(*blk),
        };
        let ghost requeued_old = requeued@;
        match cur {
            None => {},
            Some(blk) => {
                if blk.state == BlockState::InPosition {
                    blocks.insert(b, Block { state: BlockState::OutOfPlace });
                } else {
                    requeued.push(ToggleEvent { state: BlockState::InPosition, block: b });
                }
            },
        }
        j += 1;
        proof {
            assert(pending@.take(j as int).drop_last() =~= pending@.take(j - 1));
            assert(pending@.take(j as int).last() == b);
            assert forall|b2: u64|
                #[trigger] pending@.take(j as int).contains(b2) <==> pending@.take(
                    j - 1,
                ).contains(b2) || b2 == b by {
                if pending@.take(j as int).contains(b2) && b2 != b {
                    let k = choose|k: int| 0 <= k < j && (#[trigger] pending@.take(j as int)[k]) == b2;
                    assert(pending@.take(j - 1)[k] == b2);
                }
                if pending@.take(j - 1).contains(b2) {
                    let k = choose|k: int| 0 <= k < j - 1 && (#[trigger] pending@.take(j - 1)[k]) == b2;
                    assert(pending@.take(j as int)[k] == b2);
                }
                if b2 == b {
                    assert(pending@.take(j as int)[j - 1] == b);
                }
            }
            if cur is Some && cur.unwrap().state != BlockState::InPosition {
                assert(requeued@[requeued@.len() - 1].block == b);
                assert forall|b2: u64|
                    deferred_set(old(blocks)@, ps).contains(b2) && pending@.take(
                        j as int,
                    ).contains(b2) implies exists|k: int|
                    0 <= k < requeued@.len() && (#[trigger] requeued@[k]).block == b2 by {
                    if b2 == b {
                        assert(requeued@[requeued@.len() - 1].block == b2);
                    } else {
                        let k = choose|k: int|
                            0 <= k < requeued_old.len() && (#[trigger] requeued_old[k]).block
                                == b2;
                        assert(requeued@[k].block == b2);
                    }
                }
            }
        }
    }
    proof {
        assert(pending@.take(pending@.len() as int) =~= pending@);
        assert(blocks@ =~= tick_states(old(blocks)@, ps));
    }
    requeued
}

/// A block belongs to the pending set exactly when some notification of the
/// tick pushes at it.
pub proof fn lemma_pending_membership(
    g: EntityGraph,
    mode: PropagateMode,
    evs: Seq<ToggleEvent>,
    b: u64,
)
    ensures
        pending_set(g, mode, evs).contains(b) <==> exists|i: int|
            0 <= i < evs.len() && event_targets(g, mode, #[trigger] evs[i]).contains(b),
    decreases evs.len(),
{
    if evs.len() > 0 {
        lemma_pending_membership(g, mode, evs.drop_last(), b);
        if pending_set(g, mode, evs).contains(b) {
            if pending_set(g, mode, evs.drop_last()).contains(b) {
                let i = choose|i: int|
                    0 <= i < evs.drop_last().len() && event_targets(
                        g,
                        mode,
                        #[trigger] evs.drop_last()[i],
                    ).contains(b);
                assert(evs[i] == evs.drop_last()[i]);
                assert(event_targets(g, mode, evs[i]).contains(b));
            } else {
                assert(event_targets(g, mode, evs[evs.len() - 1]).contains(b));
            }
        }
        if exists|i: int|
            0 <= i < evs.len() && event_targets(g, mode, #[trigger] evs[i]).contains(b) {
            let i = choose|i: int|
                0 <= i < evs.len() && event_targets(g, mode, #[trigger] evs[i]).contains(b);
            if i < evs.len() - 1 {
                assert(evs.drop_last()[i] == evs[i]);
                assert(pending_set(g, mode, evs.drop_last()).contains(b));
            } else {
                assert(evs.last() == evs[i]);
            }
        }
    }
}

/// Law: one tick's outcome is a function of the start-of-tick snapshot
/// alone. Two ticks that see the same notifications, in whatever order or
/// multiplicity, resolve every block identically.
pub proof fn lemma_tick_order_independent(
    g: EntityGraph,
    mode: PropagateMode,
    states: Map<u64, Block>,
    evs1: Seq<ToggleEvent>,
    evs2: Seq<ToggleEvent>,
)
    requires
        forall|e: ToggleEvent| evs1.contains(e) <==> evs2.contains(e),
    ensures
        tick_states(states, pending_set(g, mode, evs1)) == tick_states(
            states,
            pending_set(g, mode, evs2),
        ),
        deferred_set(states, pending_set(g, mode, evs1)) == deferred_set(
            states,
            pending_set(g, mode, evs2),
        ),
{
    let p1 = pending_set(g, mode, evs1);
    let p2 = pending_set(g, mode, evs2);
    assert forall|b: u64| p1.contains(b) <==> p2.contains(b) by {
        lemma_pending_membership(g, mode, evs1, b);
        lemma_pending_membership(g, mode, evs2, b);
        if p1.contains(b) {
            let i = choose|i: int|
                0 <= i < evs1.len() && event_targets(g, mode, #[trigger] evs1[i]).contains(b);
            assert(evs1.contains(evs1[i]));
            let j = choose|j: int| 0 <= j < evs2.len() && evs2[j] == evs1[i];
            assert(event_targets(g, mode, evs2[j]).contains(b));
        }
        if p2.contains(b) {
            let i = choose|i: int|
                0 <= i < evs2.len() && event_targets(g, mode, #[trigger] evs2[i]).contains(b);
            assert(evs2.contains(evs2[i]));
            let j = choose|j: int| 0 <= j < evs1.len() && evs1[j] == evs2[i];
            assert(event_targets(g, mode, evs1[j]).contains(b));
        }
    }
    assert(p1 =~= p2);
    assert(tick_states(states, p1) =~= tick_states(states, p2));
    assert(deferred_set(states, p1) =~= deferred_set(states, p2));
}

/// Law: a block the cascade reaches while it is already out of position is
/// not mutated this tick, and is exactly re-queued for a later tick.
pub proof fn lemma_deferred_reconciliation(states: Map<u64, Block>, pend: Set<u64>, b: u64)
    requires
        pend.contains(b),
        states.contains_key(b),
        states[b].state == BlockState::OutOfPlace,
    ensures
        tick_states(states, pend)[b] == states[b],
        deferred_set(states, pend).contains(b),
{
}

/// Law: a pending block absent from the live store changes nothing: the
/// tick neither creates a record for it nor re-queues it.
pub proof fn lemma_stale_target_safe(states: Map<u64, Block>, pend: Set<u64>, b: u64)
    requires
        pend.contains(b),
        !states.contains_key(b),
    ensures
        tick_states(states, pend).dom() == states.dom(),
        !tick_states(states, pend).contains_key(b),
        !deferred_set(states, pend).contains(b),
{
    assert(tick_states(states, pend).dom() =~= states.dom());
}

} // verus!
