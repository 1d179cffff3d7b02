//! The win condition over one tick's notifications and block records.

use vstd::prelude::*;

use crate::cubes::Block;
use crate::cubes::BlockState;
use crate::propagate::ToggleEvent;

verus! {

/// Whether the puzzle is solved at the end of a tick: no notification of
/// the tick reports a move out of position, at least one block exists, and
/// every block rests in position with its movement settled (the `bool`
/// beside each record).
pub fn win_condition(events: &Vec<ToggleEvent>, blocks: &Vec<(Block, bool)>) -> (r: bool)
    ensures
        r == ({
            &&& (forall|i: int|
                0 <= i < events@.len() ==> (#[trigger] events@[i]).state
                    == BlockState::InPosition)
            &&& blocks@.len() > 0
            &&& (forall|j: int|
                0 <= j < blocks@.len() ==> (#[trigger] blocks@[j]).0.state
                    == BlockState::InPosition && blocks@[j].1)
        }),
{
    let mut i: usize = 0;
    while i < events.len()
        invariant
            i <= events@.len(),
            forall|k: int|
                0 <= k < i ==> (#[trigger] events@[k]).state == BlockState::InPosition,
        decreases events@.len() - i,
    {
        if !(events[i].state == BlockState::InPosition) {
            return false;
        }
        i += 1;
    }
    if blocks.len() == 0 {
        return false;
    }
    let mut j: usize = 0;
    while j < blocks.len()
        invariant
            j <= blocks@.len(),
            blocks@.len() > 0,
            forall|i: int|
                0 <= i < events@.len() ==> (#[trigger] events@[i]).state
                    == BlockState::InPosition,
            forall|k: int|
                0 <= k < j ==> (#[trigger] blocks@[k]).0.state == BlockState::InPosition
                    && blocks@[k].1,
        decreases blocks@.len() - j,
    {
        let settled = blocks[j].1;
        if !(blocks[j].0.state == BlockState::InPosition) || !settled {
            return false;
        }
        j += 1;
    }
    true
}

} // verus!
