//! Whose turn it is and when the game is over.
//!
//! A side that has no legal move passes; when neither side has one the game
//! is over and the side with more pieces has won. The same rule decides the
//! extreme scores of the evaluator.

use super::board::{count, Board, Piece};
use crate::bot::evaluation::{game_over, lemma_score_range, position_score, LOSS, WIN};
use crate::bot::moves::generation::{generate_moves, has_move};
use vstd::prelude::*;

verus! {

/// How a finished game ended for one side.
#[derive(Clone, Copy, Debug, PartialEq, Eq, Structural)]
pub enum Outcome {
    /// The side has more pieces than the other.
    Won,
    /// Both sides have as many pieces.
    Tied,
    /// The side has fewer pieces than the other.
    Lost,
}

/// What a side does when it is its turn.
#[derive(Clone, Copy, Debug, PartialEq, Eq, Structural)]
pub enum Turn {
    /// It has a legal move and plays one.
    Move,
    /// It has no legal move, but the other side has: it passes.
    Pass,
    /// Neither side has a legal move: the game is over.
    Over(Outcome),
}

/// The outcome for a side with `own` pieces against `other`.
pub open spec fn outcome_of(own: int, other: int) -> Outcome {
    if own > other {
        Outcome::Won
    } else if own == other {
        Outcome::Tied
    } else {
        Outcome::Lost
    }
}

/// What `color` does when it is its turn.
pub open spec fn turn_of(cells: Seq<Piece>, color: bool) -> Turn {
    if has_move(cells, color) {
        Turn::Move
    } else if has_move(cells, !color) {
        Turn::Pass
    } else {
        Turn::Over(outcome_of(count(cells, color) as int, count(cells, !color) as int))
    }
}

/// The turn rule and the evaluator agree on finished games: a position scores
/// [`WIN`] for a side exactly if the game is over and won by it, and
/// [`LOSS`] exactly if the game is over and tied or lost.
pub proof fn lemma_turn_agrees_with_score(cells: Seq<Piece>, color: bool)
    ensures
        position_score(cells, color) == WIN <==> turn_of(cells, color) == Turn::Over(Outcome::Won),
        position_score(cells, color) == LOSS <==> (turn_of(cells, color) == Turn::Over(
            Outcome::Tied,
        ) || turn_of(cells, color) == Turn::Over(Outcome::Lost)),
        turn_of(cells, color) is Over <==> game_over(cells),
{
    if !game_over(cells) {
        lemma_score_range(cells, color);
    }
}

/// The outcome of a finished game for `color`, by comparing the counts.
pub fn standing(board: &Board, color: bool) -> (outcome: Outcome)
    ensures
        outcome == outcome_of(board.count_of(color), board.count_of(!color)),
{
    let own = board.count(color);
    let other = board.count(!color);
    if own > other {
        Outcome::Won
    } else if own == other {
        Outcome::Tied
    } else {
        Outcome::Lost
    }
}

/// Decides what `color` does when it is its turn.
pub fn turn(board: &Board, color: bool) -> (t: Turn)
    requires
        board.wf(),
    ensures
        t == turn_of(board.cells(), color),
{
    if generate_moves(board, color).len() > 0 {
        Turn::Move
    } else if generate_moves(board, !color).len() > 0 {
        Turn::Pass
    } else {
        Turn::Over(standing(board, color))
    }
}

} // verus!
