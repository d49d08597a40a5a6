//! Candidate moves: generating them and putting them in search order.

pub mod generation;
pub mod ordering;

pub use generation::{_ply_move_counter_test, generate_moves};
pub use ordering::heuristic_order;
