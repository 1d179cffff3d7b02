//! Puzzle dependency graph and toggle-propagation engine.
//!
//! A puzzle is a set of blocks, each either in its place or out of it.
//! A randomly generated rooted structure relates the blocks; when one
//! block reaches its position, the engine pushes related blocks out of
//! theirs, cascading across ticks until the whole puzzle is solved.

pub mod arena;
pub mod cubes;
pub mod graph;
pub mod level;
pub mod propagate;
pub mod reach;

pub use cubes::Block;
pub use cubes::BlockCount;
pub use cubes::BlockState;
pub use graph::EntityGraph;
pub use propagate::PropagateMode;
pub use propagate::ToggleEvent;
