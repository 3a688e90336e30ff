//! An autonomous snake on a rectangular grid.
//!
//! The board is a grid of directions that doubles as a linked list of the
//! snake's body: every body cell stores the step towards the next segment, and
//! the tail's cell stores the end marker.

pub mod random;
pub mod direction;
pub mod coordinate;
pub mod field;
pub mod chain;
pub mod game;
pub mod hamiltonian;
pub mod odd_boards;
pub mod snakes;
pub mod hybrid;
pub mod select;
pub mod safety;
