//! Static evaluation of a position.

use crate::bot::moves::generation::{generate_moves, has_move, legal_moves, lemma_legal_moves};
use crate::game::board::{count, lemma_counts_bounded, Board, Piece};
use crate::game::rules::{legal, lemma_legal_needs_both};
use vstd::prelude::*;

verus! {

/// How much a piece on each square is worth to its owner: corners and edges
/// are worth most, the squares next to them least.
pub const WEIGHT_LOOKUP: [i32; 64] = [
    6, 3, 4, 4, 4, 4, 3, 6,
    3, 1, 1, 1, 1, 1, 1, 3,
    4, 1, 2, 2, 2, 2, 1, 4,
    4, 1, 2, 1, 1, 2, 1, 4,
    4, 1, 2, 1, 1, 2, 1, 4,
    4, 1, 2, 2, 2, 2, 1, 4,
    3, 1, 1, 1, 1, 1, 1, 3,
    6, 3, 4, 4, 4, 4, 3, 6,
];

/// The weight of square `sq`.
pub open spec fn weight(sq: int) -> int {
    WEIGHT_LOOKUP[sq] as int
}

/// Every weight lies between 1 and 6.
pub proof fn lemma_weight_range(sq: int)
    requires
        0 <= sq < 64,
    ensures
        1 <= weight(sq) <= 6,
{
}

/// The score of a game that is over and won.
pub const WIN: i32 = i32::MAX - 1;

/// The score of a game that is over and not won: lost or drawn.
pub const LOSS: i32 = i32::MIN + 1;

/// The fraction `num / den` of a non-negative by a positive number, rounded to
/// the nearest integer; a fraction half way between two integers is rounded
/// up.
pub open spec fn rounded(num: int, den: int) -> int {
    (2 * num + den) / (2 * den)
}

/// The mobility term, for `own` legal moves against `other` of the opponent,
/// not both zero: twenty times their ratio, rounded, when both sides can move;
/// a fixed malus when only the side itself can move; a fixed bonus when only
/// the opponent can.
pub open spec fn mobility_term(own: int, other: int) -> int {
    if own > 0 && other > 0 {
        rounded(20 * own, other)
    } else if own > 0 {
        -50
    } else {
        40
    }
}

/// The piece term, for `own` pieces against `other` of the opponent: the ratio
/// `own / other`, times twenty, times `own + other / 64`, rounded. The
/// product is the fraction of `20 * own * (64 * own + other)` by `64 * other`.
pub open spec fn piece_term(own: int, other: int) -> int {
    rounded(20 * own * (64 * own + other), 64 * other)
}

/// What the piece on one square adds to the score of `color`: the weight of
/// the square for an own piece, seven minus the weight for an opposing piece.
pub open spec fn square_value(piece: Piece, color: bool, sq: int) -> int {
    match piece {
        Some(c) => if c == color {
            weight(sq)
        } else {
            7 - weight(sq)
        },
        None => 0,
    }
}

/// The positional term over the squares below `n`.
pub open spec fn positional_below(cells: Seq<Piece>, color: bool, n: nat) -> int
    decreases n,
{
    if n == 0 {
        0
    } else {
        positional_below(cells, color, (n - 1) as nat) + square_value(cells[n - 1], color, n - 1)
    }
}

/// The positional term: the sum of the square values over the board.
pub open spec fn positional_term(cells: Seq<Piece>, color: bool) -> int {
    positional_below(cells, color, 64)
}

/// Neither side has a legal move: the game is over.
pub open spec fn game_over(cells: Seq<Piece>) -> bool {
    !has_move(cells, true) && !has_move(cells, false)
}

/// The score of a position for `color`. A finished game scores [`WIN`] for
/// the side with more pieces and [`LOSS`] otherwise; any other position scores
/// the sum of the mobility, piece and positional terms.
pub open spec fn position_score(cells: Seq<Piece>, color: bool) -> int {
    if game_over(cells) {
        if count(cells, color) > count(cells, !color) {
            WIN as int
        } else {
            LOSS as int
        }
    } else {
        mobility_term(
            legal_moves(cells, color).len() as int,
            legal_moves(cells, !color).len() as int,
        ) + piece_term(count(cells, color) as int, count(cells, !color) as int) + positional_term(
            cells,
            color,
        )
    }
}

/// A quotient of a non-negative number by a positive one lies between zero
/// and the number.
pub proof fn lemma_quotient_range(x: int, d: int)
    requires
        0 <= x,
        1 <= d,
    ensures
        0 <= x / d <= x,
{
    assert(0 <= x / d <= x) by (nonlinear_arith)
        requires
            0 <= x,
            1 <= d,
    ;
}

/// A rounded fraction is the integer nearest to the fraction: it differs
/// from it by a half at most, and by less than a half from below.
pub proof fn lemma_rounded_is_nearest(num: int, den: int)
    requires
        0 <= num,
        1 <= den,
    ensures
        0 <= rounded(num, den),
        2 * num - den < 2 * den * rounded(num, den) <= 2 * num + den,
{
    let r = rounded(num, den);
    vstd::arithmetic::div_mod::lemma_fundamental_div_mod(2 * num + den, 2 * den);
    vstd::arithmetic::div_mod::lemma_mod_bound(2 * num + den, 2 * den);
    lemma_quotient_range(2 * num + den, 2 * den);
}

/// A rounded fraction with a denominator of at least `least` is at most the
/// fraction by `least`, rounded up by a half and cut.
pub proof fn lemma_rounded_bound(num: int, den: int, least: int)
    requires
        0 <= num,
        1 <= least <= den,
    ensures
        0 <= rounded(num, den) <= (2 * num + den) / (2 * least),
{
    lemma_quotient_range(2 * num + den, 2 * den);
    vstd::arithmetic::div_mod::lemma_div_is_ordered_by_denominator(
        2 * num + den,
        2 * least,
        2 * den,
    );
}

/// The mobility term of two sides with between 1 and 64 moves each lies
/// between 0 and 1312.
pub proof fn lemma_mobility_term_range(own: int, other: int)
    requires
        1 <= own <= 64,
        1 <= other <= 64,
    ensures
        0 <= mobility_term(own, other) <= 1312,
{
    lemma_rounded_bound(20 * own, other, 1);
}

/// The piece term of two sides with between 1 and 63 pieces each lies between
/// 0 and 80651.
pub proof fn lemma_piece_term_range(own: int, other: int)
    requires
        1 <= own <= 63,
        1 <= other <= 63,
    ensures
        0 <= 20 * own * (64 * own + other) <= 5159700,
        0 <= piece_term(own, other) <= 80651,
{
    let rest = 64 * own + other;
    assert(0 <= 20 * own * rest <= 20 * 63 * 4095) by (nonlinear_arith)
        requires
            1 <= own <= 63,
            1 <= rest <= 4095,
    ;
    lemma_rounded_bound(20 * own * (64 * own + other), 64 * other, 64);
}

/// The positional term over the squares below `n` lies between 0 and `6 * n`.
pub proof fn lemma_positional_range(cells: Seq<Piece>, color: bool, n: nat)
    requires
        n <= 64,
    ensures
        0 <= positional_below(cells, color, n) <= 6 * n,
    decreases n,
{
    if n > 0 {
        lemma_positional_range(cells, color, (n - 1) as nat);
        lemma_weight_range(n - 1);
    }
}

/// The score of a game that is not over stays far from [`WIN`] and [`LOSS`]:
/// it lies between -50 and 82347.
pub proof fn lemma_score_range(cells: Seq<Piece>, color: bool)
    requires
        !game_over(cells),
    ensures
        count(cells, color) >= 1,
        count(cells, !color) >= 1,
        -50 <= position_score(cells, color) <= 82347,
{
    lemma_legal_moves(cells, color);
    lemma_legal_moves(cells, !color);
    lemma_counts_bounded(cells);
    let mover = has_move(cells, true);
    let sq = choose|sq: usize| legal(cells, sq, mover);
    lemma_legal_needs_both(cells, sq, mover);
    let m = legal_moves(cells, color).len() as int;
    let o = legal_moves(cells, !color).len() as int;
    let own = count(cells, color) as int;
    let other = count(cells, !color) as int;
    if m > 0 && o > 0 {
        lemma_mobility_term_range(m, o);
    }
    lemma_piece_term_range(own, other);
    lemma_positional_range(cells, color, 64);
}

/// Scores the position for `color`; see [`position_score`]. The result is
/// [`WIN`] exactly if the game is over and `color` has more pieces, and
/// [`LOSS`] exactly if the game is over and it has not.
pub fn evaluate(board: &Board, color: bool) -> (score: i32)
    requires
        board.wf(),
    ensures
        score == position_score(board.cells(), color),
        score == WIN <==> game_over(board.cells()) && count(board.cells(), color) > count(
            board.cells(),
            !color,
        ),
        score == LOSS <==> game_over(board.cells()) && count(board.cells(), color) <= count(
            board.cells(),
            !color,
        ),
        LOSS <= score <= WIN,
{
    let ghost cells = board.cells();
    let moves = generate_moves(board, color);
    let opponent_moves = generate_moves(board, !color);
    let own = board.count(color);
    let other = board.count(!color);
    proof {
        lemma_counts_bounded(cells);
        assert(has_move(cells, color) || has_move(cells, !color) <==> !game_over(cells));
    }
    let mut score: i32 = 0;
    if moves.len() > 0 && opponent_moves.len() > 0 {
        proof {
            lemma_mobility_term_range(moves.len() as int, opponent_moves.len() as int);
        }
        score = score + ((40 * moves.len() + opponent_moves.len()) / (2 * opponent_moves.len()))
            as i32;
    } else if moves.len() == 0 && opponent_moves.len() == 0 {
        if own > other {
            return WIN;
        } else {
            return LOSS;
        }
    } else if moves.len() > 0 {
        score = score - 50;
    } else {
        score = score + 40;
    }
    proof {
        lemma_score_range(cells, color);
        lemma_piece_term_range(own as int, other as int);
    }
    let own_wide: u64 = own as u64;
    let other_wide: u64 = other as u64;
    let rest: u64 = 64 * own_wide + other_wide;
    assert(20 * own_wide * rest == 20 * own * (64 * own + other));
    let product: u64 = 20 * own_wide * rest;
    let ahead: u64 = (2 * product + 64 * other_wide) / (128 * other_wide);
    score = score + ahead as i32;

    let ghost base = score as int;
    let mut i: usize = 0;
    while i < 64
        invariant
            i <= 64,
            cells == board.cells(),
            cells.len() == 64,
            -50 <= base <= 1312 + 80651,
            score == base + positional_below(cells, color, i as nat),
            0 <= positional_below(cells, color, i as nat) <= 6 * i,
        decreases 64 - i,
    {
        proof {
            lemma_weight_range(i as int);
        }
        match board.piece(i) {
            Some(c) => {
                if c == color {
                    score = score + WEIGHT_LOOKUP[i];
                } else {
                    score = score + (7 - WEIGHT_LOOKUP[i]);
                }
            },
            None => {},
        }
        i += 1;
    }
    score
}

} // verus!
