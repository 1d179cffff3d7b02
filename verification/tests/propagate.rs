//! Tests for the propagation engine: the two modes, deferral, stale
//! targets, and order independence.

use std::collections::HashMap;

use pist_off::cubes::Block;
use pist_off::cubes::BlockState;
use pist_off::graph::EntityGraph;
use pist_off::propagate::propagate_block_toggles;
use pist_off::propagate::PropagateMode;
use pist_off::propagate::ToggleEvent;

const ROOT: u64 = 1;
const A: u64 = 2;
const B: u64 = 3;
const C: u64 = 4;

/// The graph `root -> {A, B}`, `A -> {C}`.
fn sample_graph() -> EntityGraph {
    EntityGraph::from_edges(vec![ROOT, A, B, C], &vec![(0, 1), (0, 2), (1, 3)])
}

fn all_in_position() -> HashMap<u64, Block> {
    let mut m = HashMap::new();
    for b in [ROOT, A, B, C] {
        m.insert(b, Block { state: BlockState::InPosition });
    }
    m
}

fn ev(block: u64, state: BlockState) -> ToggleEvent {
    ToggleEvent { state, block }
}

fn state_of(m: &HashMap<u64, Block>, b: u64) -> BlockState {
    m.get(&b).expect("block present").state
}

#[test]
fn children_mode_pushes_direct_children_only() {
    let g = sample_graph();
    let mut blocks = all_in_position();
    let events = vec![ev(ROOT, BlockState::InPosition)];
    let requeued =
        propagate_block_toggles(&g, PropagateMode::Children, &events, &mut blocks);
    assert_eq!(state_of(&blocks, A), BlockState::OutOfPlace);
    assert_eq!(state_of(&blocks, B), BlockState::OutOfPlace);
    assert_eq!(state_of(&blocks, C), BlockState::InPosition);
    assert_eq!(state_of(&blocks, ROOT), BlockState::InPosition);
    assert!(requeued.is_empty());
}

#[test]
fn ancestors_mode_pushes_single_parent_only() {
    let g = sample_graph();
    let mut blocks = all_in_position();
    let events = vec![ev(C, BlockState::InPosition)];
    let requeued =
        propagate_block_toggles(&g, PropagateMode::Ancestors, &events, &mut blocks);
    assert_eq!(state_of(&blocks, A), BlockState::OutOfPlace);
    assert_eq!(state_of(&blocks, ROOT), BlockState::InPosition);
    assert_eq!(state_of(&blocks, B), BlockState::InPosition);
    assert_eq!(state_of(&blocks, C), BlockState::InPosition);
    assert!(requeued.is_empty());
}

#[test]
fn ancestors_mode_at_the_root_pushes_nothing() {
    let g = sample_graph();
    let mut blocks = all_in_position();
    let events = vec![ev(ROOT, BlockState::InPosition)];
    let requeued =
        propagate_block_toggles(&g, PropagateMode::Ancestors, &events, &mut blocks);
    for b in [ROOT, A, B, C] {
        assert_eq!(state_of(&blocks, b), BlockState::InPosition);
    }
    assert!(requeued.is_empty());
}

#[test]
fn out_of_place_events_never_propagate() {
    let g = sample_graph();
    let mut blocks = all_in_position();
    let events = vec![ev(ROOT, BlockState::OutOfPlace)];
    let requeued =
        propagate_block_toggles(&g, PropagateMode::Children, &events, &mut blocks);
    for b in [ROOT, A, B, C] {
        assert_eq!(state_of(&blocks, b), BlockState::InPosition);
    }
    assert!(requeued.is_empty());
}

#[test]
fn deferred_block_is_unchanged_and_requeued() {
    let g = sample_graph();
    let mut blocks = all_in_position();
    blocks.insert(A, Block { state: BlockState::OutOfPlace });
    let events = vec![ev(ROOT, BlockState::InPosition)];
    let requeued =
        propagate_block_toggles(&g, PropagateMode::Children, &events, &mut blocks);
    // A was already out of place: untouched this tick, re-queued for the next
    assert_eq!(state_of(&blocks, A), BlockState::OutOfPlace);
    assert_eq!(state_of(&blocks, B), BlockState::OutOfPlace);
    assert_eq!(requeued.len(), 1);
    assert_eq!(requeued[0].block, A);
    assert_eq!(requeued[0].state, BlockState::InPosition);
    // the synthetic event keeps the cascade going on the next tick
    let requeued2 =
        propagate_block_toggles(&g, PropagateMode::Children, &requeued, &mut blocks);
    assert_eq!(state_of(&blocks, C), BlockState::OutOfPlace);
    assert!(requeued2.is_empty());
}

#[test]
fn stale_target_is_skipped_without_panic() {
    let g = sample_graph();
    let mut blocks = all_in_position();
    blocks.remove(&B);
    let events = vec![ev(ROOT, BlockState::InPosition)];
    let requeued =
        propagate_block_toggles(&g, PropagateMode::Children, &events, &mut blocks);
    assert_eq!(state_of(&blocks, A), BlockState::OutOfPlace);
    assert!(!blocks.contains_key(&B));
    assert!(requeued.is_empty());
}

#[test]
fn event_for_unknown_block_is_inert() {
    let g = sample_graph();
    let mut blocks = all_in_position();
    let events = vec![ev(99, BlockState::InPosition)];
    let requeued =
        propagate_block_toggles(&g, PropagateMode::Children, &events, &mut blocks);
    for b in [ROOT, A, B, C] {
        assert_eq!(state_of(&blocks, b), BlockState::InPosition);
    }
    assert!(requeued.is_empty());
}

#[test]
fn tick_outcome_ignores_event_order_and_repeats() {
    let g = sample_graph();
    let evs1 = vec![
        ev(ROOT, BlockState::InPosition),
        ev(C, BlockState::InPosition),
    ];
    let evs2 = vec![
        ev(C, BlockState::InPosition),
        ev(ROOT, BlockState::InPosition),
        ev(C, BlockState::InPosition),
    ];
    let mut blocks1 = all_in_position();
    let mut blocks2 = all_in_position();
    let r1 = propagate_block_toggles(&g, PropagateMode::Children, &evs1, &mut blocks1);
    let r2 = propagate_block_toggles(&g, PropagateMode::Children, &evs2, &mut blocks2);
    for b in [ROOT, A, B, C] {
        assert_eq!(state_of(&blocks1, b), state_of(&blocks2, b));
    }
    assert_eq!(r1.len(), r2.len());
}

#[test]
fn at_most_one_toggle_per_block_per_tick() {
    // both the root and B point at A in ancestors mode; A toggles once
    let g = EntityGraph::from_edges(vec![ROOT, A, B], &vec![(0, 1), (1, 2)]);
    let mut blocks = all_in_position();
    blocks.remove(&C);
    let events = vec![
        ev(B, BlockState::InPosition),
        ev(B, BlockState::InPosition),
    ];
    let requeued =
        propagate_block_toggles(&g, PropagateMode::Ancestors, &events, &mut blocks);
    assert_eq!(state_of(&blocks, A), BlockState::OutOfPlace);
    assert_eq!(state_of(&blocks, ROOT), BlockState::InPosition);
    assert!(requeued.is_empty());
}

#[test]
fn propagate_mode_new_selects_difficulty() {
    assert_eq!(PropagateMode::new(false), PropagateMode::Children);
    assert_eq!(PropagateMode::new(true), PropagateMode::Ancestors);
}
