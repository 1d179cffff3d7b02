//! Blocks: the puzzle pieces and their placement state.

use vstd::prelude::*;

verus! {

/// Whether a block is in its proper place or not.
#[derive(Debug, Copy, Clone, PartialEq, Eq, Structural)]
pub enum BlockState {
    OutOfPlace,
    InPosition,
}

impl BlockState {
    /// Flip the state: a block in position leaves it, and the reverse.
    pub fn toggle(&mut self)
        ensures
            *old(self) == BlockState::OutOfPlace ==> *final(self) == BlockState::InPosition,
            *old(self) == BlockState::InPosition ==> *final(self) == BlockState::OutOfPlace,
    {
        *self = match self {
            Self::OutOfPlace => Self::InPosition,
            Self::InPosition => Self::OutOfPlace,
        };
    }
}

impl Default for BlockState {
    fn default() -> (r: Self)
        ensures
            r == BlockState::OutOfPlace,
    {
        Self::OutOfPlace
    }
}

/// The interactable state of one puzzle piece.
#[derive(Debug, Copy, Clone, PartialEq, Eq, Structural)]
pub struct Block {
    /// Whether the block is in place or not.
    pub state: BlockState,
}

impl Default for Block {
    fn default() -> (r: Self)
        ensures
            r.state == BlockState::OutOfPlace,
    {
        Block { state: BlockState::OutOfPlace }
    }
}

/// The number of blocks per axis to spawn into the cube.
pub struct BlockCount(pub i16);

impl Default for BlockCount {
    fn default() -> (r: Self)
        ensures
            r.0 == 1,
    {
        Self(1)
    }
}

/// The grid coordinates along one axis of the cube: the values
/// `-1, -2, ..., -n` followed by `1, 2, ..., n`, skipping zero so that every
/// block sits off-centre.
pub fn gen_combinations(cubes_per_axis: i16) -> (r: Vec<i16>)
    requires
        0 <= cubes_per_axis < 0x7FFF,
    ensures
        r@.len() == 2 * cubes_per_axis,
        forall|i: int| 0 <= i < cubes_per_axis ==> r@[i] == -(i + 1),
        forall|i: int|
            cubes_per_axis <= i < 2 * cubes_per_axis ==> r@[i] == i - cubes_per_axis + 1,
{
    let mut r: Vec<i16> = Vec::new();
    let mut i: i16 = 1;
    while i <= cubes_per_axis
        invariant
            0 <= cubes_per_axis < 0x7FFF,
            1 <= i <= cubes_per_axis + 1,
            r@.len() == i - 1,
            forall|k: int| 0 <= k < i - 1 ==> r@[k] == -(k + 1),
        decreases cubes_per_axis + 1 - i,
    {
        r.push(-i);
        i += 1;
    }
    let mut j: i16 = 1;
    while j <= cubes_per_axis
        invariant
            0 <= cubes_per_axis < 0x7FFF,
            1 <= j <= cubes_per_axis + 1,
            r@.len() == cubes_per_axis + j - 1,
            forall|k: int| 0 <= k < cubes_per_axis ==> r@[k] == -(k + 1),
            forall|k: int| cubes_per_axis <= k < cubes_per_axis + j - 1 ==> r@[k] == k
                - cubes_per_axis + 1,
        decreases cubes_per_axis + 1 - j,
    {
        r.push(j);
        j += 1;
    }
    r
}

/// Whether the block at grid position `(i, j, k)` protrudes from the cube's
/// surface: some coordinate lies on the outermost layer.
pub open spec fn spec_on_surface(i: i16, j: i16, k: i16, n: i16) -> bool {
    i == n || i == -n || j == n || j == -n || k == n || k == -n
}

/// The state a block starts in, by its geometric role: an interior block
/// with no externally protruding face starts in position and stays inert;
/// every surface block starts out of place.
pub fn initial_block_state(i: i16, j: i16, k: i16, n: i16) -> (r: BlockState)
    requires
        n >= 0,
    ensures
        r == if spec_on_surface(i, j, k, n) {
            BlockState::OutOfPlace
        } else {
            BlockState::InPosition
        },
{
    if i == n || i == -n || j == n || j == -n || k == n || k == -n {
        BlockState::OutOfPlace
    } else {
        BlockState::InPosition
    }
}

} // verus!
