//! The automated player: move generation and ordering, static evaluation and
//! the search.

pub mod evaluation;
pub mod moves;
pub mod search;

pub use evaluation::{evaluate, WEIGHT_LOOKUP};
pub use search::{best_move, search};
