//! Simulation core of a two-player falling-block puzzle game.
//!
//! Pieces of colored blocks fall onto a grid, same-colored rectangular
//! clusters fuse into compound pieces, contiguous groups bordering a
//! breaker block detonate, and the resulting strength is exchanged as
//! garbage-block attacks between two boards.  Rendering, input and AI
//! are outside collaborators that drive this core through the `Board`
//! API and observe it through its event queue.

pub mod block_grid;
pub mod board;
pub mod laws;
pub mod values;
