//! Tests for block state, the grid helpers, and the win condition.

use pist_off::cubes::gen_combinations;
use pist_off::cubes::initial_block_state;
use pist_off::cubes::Block;
use pist_off::cubes::BlockCount;
use pist_off::cubes::BlockState;
use pist_off::level::win_condition;
use pist_off::propagate::ToggleEvent;

#[test]
fn toggle_flips_both_ways() {
    let mut s = BlockState::OutOfPlace;
    s.toggle();
    assert_eq!(s, BlockState::InPosition);
    s.toggle();
    assert_eq!(s, BlockState::OutOfPlace);
}

#[test]
fn defaults_start_out_of_place() {
    assert_eq!(BlockState::default(), BlockState::OutOfPlace);
    assert_eq!(Block::default().state, BlockState::OutOfPlace);
    assert_eq!(BlockCount::default().0, 1);
}

#[test]
fn combinations_skip_zero() {
    assert_eq!(gen_combinations(1), vec![-1, 1]);
    assert_eq!(gen_combinations(2), vec![-1, -2, 1, 2]);
    assert_eq!(gen_combinations(3), vec![-1, -2, -3, 1, 2, 3]);
    assert_eq!(gen_combinations(0), Vec::<i16>::new());
}

#[test]
fn interior_blocks_start_in_position() {
    // a 2-per-axis cube: coordinates with magnitude 2 touch the surface
    assert_eq!(initial_block_state(2, 1, 1, 2), BlockState::OutOfPlace);
    assert_eq!(initial_block_state(-2, 1, 1, 2), BlockState::OutOfPlace);
    assert_eq!(initial_block_state(1, -2, 1, 2), BlockState::OutOfPlace);
    assert_eq!(initial_block_state(1, 1, 2, 2), BlockState::OutOfPlace);
    assert_eq!(initial_block_state(1, -1, 1, 2), BlockState::InPosition);
    // a 1-per-axis cube has no interior at all
    assert_eq!(initial_block_state(1, -1, 1, 1), BlockState::OutOfPlace);
}

fn ev(block: u64, state: BlockState) -> ToggleEvent {
    ToggleEvent { state, block }
}

fn rec(state: BlockState, settled: bool) -> (Block, bool) {
    (Block { state }, settled)
}

#[test]
fn win_needs_every_block_settled_in_position() {
    let solved = vec![
        rec(BlockState::InPosition, true),
        rec(BlockState::InPosition, true),
    ];
    assert!(win_condition(&Vec::new(), &solved));

    // a block still out of place loses
    let one_out = vec![
        rec(BlockState::InPosition, true),
        rec(BlockState::OutOfPlace, true),
    ];
    assert!(!win_condition(&Vec::new(), &one_out));

    // a block still moving loses
    let one_moving = vec![
        rec(BlockState::InPosition, true),
        rec(BlockState::InPosition, false),
    ];
    assert!(!win_condition(&Vec::new(), &one_moving));

    // an event reporting a move out of position postpones the check
    let out_event = vec![ev(5, BlockState::OutOfPlace)];
    assert!(!win_condition(&out_event, &solved));
    let in_event = vec![ev(5, BlockState::InPosition)];
    assert!(win_condition(&in_event, &solved));

    // no blocks at all is never a win
    assert!(!win_condition(&Vec::new(), &Vec::new()));
}
