//! Tic-tac-toe between interchangeable strategies, with a tabular learner.
//!
//! The board is always seen from the side that is about to move: its own
//! pieces are `Spot::X`, the other side's are `Spot::O`. Flipping the board
//! between turns lets one learned table serve both sides.

pub mod bits;
pub mod engine;
pub mod ai;
