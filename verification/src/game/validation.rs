//! Move validation: whether a side may place a piece on a square.

use super::board::Board;
use super::geometry::{
    index_in_line, lemma_line_entries, lemma_side_entries, line_of, position, ray_steps, side, Axis,
    Line,
};
use super::play::play;
use super::rules::{axis_bracketed, bracketed, captured, legal, lemma_captured_run};
use vstd::prelude::*;

verus! {

/// Counts the pieces that a piece of `color` placed at entry `at` of the line
/// `ln` captures on one side of it. The walk starts next to `at`, gives up
/// unless that neighbour holds an opposing piece with room behind it, and then
/// goes outward until it meets a piece of `color` (the run counts), an empty
/// square or the end of the line (nothing counts).
pub fn reach(board: &Board, ln: &Line, at: usize, forward: bool, color: bool) -> (n: usize)
    requires
        at < ln.len <= 8,
        forall|k: int| 0 <= k < ln.len ==> #[trigger] ln@[k] < 64,
    ensures
        n == captured(board.cells(), side(ln@, at as int, forward), color).len(),
        n > 0 <==> bracketed(board.cells(), side(ln@, at as int, forward), color),
        n < side(ln@, at as int, forward).len() || n == 0,
{
    let ghost cells = board.cells();
    let ghost way = side(ln@, at as int, forward);
    proof {
        board.lemma_cells_len();
        lemma_side_entries(ln@, at as int, forward);
        assert forall|k: int| 0 <= k < way.len() implies #[trigger] way[k] == ln.squares@[at
            + ray_steps(forward, k)] && way[k] < 64 by {
            assert(ln@[at + ray_steps(forward, k)] < 64);
        }
    }
    let room: usize = if forward {
        ln.len - 1 - at
    } else {
        at
    };
    if room < 2 {
        // With fewer than two squares on this side no run can be closed.
        proof {
            if room == 1 && cells[way[0] as int] == Some(!color) {
                lemma_captured_run(cells, way, color, 1);
            } else {
                lemma_captured_run(cells, way, color, 0);
            }
        }
        return 0;
    }
    let next: usize = if forward {
        ln.squares[at + 1]
    } else {
        ln.squares[at - 1]
    };
    assert(next == way[0]);
    if board.piece(next) != Some(!color) {
        // The neighbour must hold an opposing piece.
        proof {
            lemma_captured_run(cells, way, color, 0);
        }
        return 0;
    }
    let mut k: usize = 1;
    while k < room
        invariant
            1 <= k <= room,
            room == way.len(),
            room <= 7,
            at < ln.len <= 8,
            forward ==> at + room < ln.len,
            !forward ==> room <= at,
            cells == board.cells(),
            cells.len() == 64,
            way == side(ln@, at as int, forward),
            forall|j: int|
                0 <= j < way.len() ==> #[trigger] way[j] == ln.squares@[at + ray_steps(forward, j)]
                    && way[j] < 64,
            forall|j: int| 0 <= j < k ==> cells[#[trigger] way[j] as int] == Some(!color),
        decreases room - k,
    {
        let pos: usize = if forward {
            ln.squares[at + 1 + k]
        } else {
            ln.squares[at - 1 - k]
        };
        assert(pos == way[k as int]);
        match board.piece(pos) {
            Some(c) => {
                if c == color {
                    // The run is closed.
                    proof {
                        lemma_captured_run(cells, way, color, k as int);
                    }
                    return k;
                }
            },
            None => {
                // A gap: the run is not closed.
                proof {
                    lemma_captured_run(cells, way, color, k as int);
                }
                return 0;
            },
        }
        k += 1;
    }
    proof {
        lemma_captured_run(cells, way, color, room as int);
    }
    0
}

/// Whether a piece of `color` placed on `sq` brackets a run along its line of
/// kind `axis`, in either direction.
pub fn axis_open(board: &Board, axis: Axis, sq: usize, color: bool) -> (open: bool)
    requires
        sq < 64,
    ensures
        open == axis_bracketed(board.cells(), axis, sq, color),
{
    let ln = line_of(axis, sq);
    let at = index_in_line(&ln, axis, sq);
    proof {
        lemma_line_entries(axis, sq as int, position(axis, sq as int));
        assert forall|k: int| 0 <= k < ln.len implies #[trigger] ln@[k] < 64 by {
            lemma_line_entries(axis, sq as int, k);
        }
    }
    reach(board, &ln, at, false, color) > 0 || reach(board, &ln, at, true, color) > 0
}

/// Whether `color` may place a piece on square `i`: the square is on the
/// board and empty, and the piece would capture in at least one direction.
/// The board is only read.
pub fn validate(board: &Board, i: usize, color: bool) -> (ok: bool)
    ensures
        ok == legal(board.cells(), i, color),
{
    if i > 63 || board.piece(i).is_some() {
        return false;
    }
    axis_open(board, Axis::Column, i, color) || axis_open(board, Axis::Row, i, color) || axis_open(
        board,
        Axis::NegativeDiagonal,
        i,
        color,
    ) || axis_open(board, Axis::PositiveDiagonal, i, color)
}

/// Whether `color` may place a piece on square `i`, decided by trying the
/// move on a copy of the board: it is legal exactly if playing it on an empty
/// square gains more than the one piece put down.
pub fn validate_unoptimized(board: &Board, i: usize, color: bool) -> (ok: bool)
    ensures
        ok == legal(board.cells(), i, color),
{
    let mut board = board.clone();
    if i > 63 || board.piece(i).is_some() {
        return false;
    }
    proof {
        board.lemma_invariants();
    }
    let piece_count = board.count(color);
    play(&mut board, i, color);
    board.count(color) > piece_count + 1
}

} // verus!
