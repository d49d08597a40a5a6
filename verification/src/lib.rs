//! A flip-capture board game engine: board model, move legality, reversible
//! move execution, static evaluation and a depth-limited negamax search with
//! alpha-beta pruning.

pub mod bot;
pub mod game;
pub mod notation;
