//! The board, its line geometry and the rules for placing a piece.

pub mod board;
pub mod geometry;
pub mod play;
pub mod rules;
pub mod turn;
pub mod validation;

pub use board::Board;
pub use play::{play, unplay};
pub use validation::validate;
