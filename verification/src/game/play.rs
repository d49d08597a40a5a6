//! Playing a move and taking it back.
//!
//! A play computes exactly the pieces the move captures, hands them to the
//! mover and returns them as a record; undoing that record brings the board
//! back to what it was.

use super::board::{count, occupied, Board, Piece};
use super::geometry::{
    index_in_line, lemma_line_entries, lemma_ray_entries, lemma_side_entries, line_of, position,
    ray, ray_steps, side, Axis, Line,
};
use super::rules::{
    axis_flips, bracketed, brackets, captured, flip_record, flips, legal, lemma_captured_is,
    lemma_captured_prefix, lemma_captured_run, lemma_flips, play_cells, undoable, unplay_cells,
};
use super::validation::reach;
use vstd::prelude::*;

verus! {

/// The squares with every square of `squares` handed to `color`.
pub open spec fn painted(cells: Seq<Piece>, squares: Seq<usize>, color: bool) -> Seq<Piece> {
    Seq::new(
        64,
        |j: int|
            if squares.contains(j as usize) {
                Some(color)
            } else {
                cells[j]
            },
    )
}

/// Handing one more square to `color` adds one piece to `color` and takes one
/// from the other side, if the square held a piece of the other side.
pub proof fn lemma_count_flip(cells: Seq<Piece>, sq: usize, color: bool)
    requires
        cells.len() == 64,
        sq < 64,
        cells[sq as int] == Some(!color),
    ensures
        count(cells.update(sq as int, Some(color)), color) == count(cells, color) + 1,
        count(cells.update(sq as int, Some(color)), !color) == count(cells, !color) - 1,
{
    let after = cells.update(sq as int, Some(color));
    super::board::lemma_counts_bounded(cells);
    super::board::lemma_counts_bounded(after);
    assert(occupied(after, color) =~= occupied(cells, color).insert(sq));
    assert(occupied(after, !color) =~= occupied(cells, !color).remove(sq));
}

/// Putting a piece on an empty square adds one piece to its side and leaves
/// the other side's pieces alone.
pub proof fn lemma_count_insert(cells: Seq<Piece>, sq: usize, color: bool)
    requires
        cells.len() == 64,
        sq < 64,
        cells[sq as int] is None,
    ensures
        count(cells.update(sq as int, Some(color)), color) == count(cells, color) + 1,
        count(cells.update(sq as int, Some(color)), !color) == count(cells, !color),
        count(cells.update(sq as int, Some(color)).update(sq as int, None), color) == count(
            cells,
            color,
        ),
{
    let after = cells.update(sq as int, Some(color));
    super::board::lemma_counts_bounded(cells);
    assert(occupied(after, color) =~= occupied(cells, color).insert(sq));
    assert(occupied(after, !color) =~= occupied(cells, !color));
    assert(after.update(sq as int, None) =~= cells);
}

/// What a ray captures depends only on what the squares of the ray hold.
pub proof fn lemma_captured_same(a: Seq<Piece>, b: Seq<Piece>, way: Seq<usize>, color: bool)
    requires
        forall|k: int| 0 <= k < way.len() ==> a[#[trigger] way[k] as int] == b[way[k] as int],
    ensures
        captured(a, way, color) == captured(b, way, color),
        bracketed(a, way, color) == bracketed(b, way, color),
{
    reveal(captured);
    if bracketed(a, way, color) {
        let n = choose|n: int| brackets(a, way, color, n);
        assert(brackets(b, way, color, n)) by {
            assert forall|k: int| 0 <= k < n implies b[#[trigger] way[k] as int] == Some(
                !color,
            ) by {
                assert(a[way[k] as int] == Some(!color));
            }
        }
        lemma_captured_is(a, way, color, n);
        lemma_captured_is(b, way, color, n);
    } else if bracketed(b, way, color) {
        let n = choose|n: int| brackets(b, way, color, n);
        assert(brackets(a, way, color, n)) by {
            assert forall|k: int| 0 <= k < n implies a[#[trigger] way[k] as int] == Some(
                !color,
            ) by {
                assert(b[way[k] as int] == Some(!color));
            }
        }
    }
}

/// What a placement on `sq` captures does not depend on what `sq` holds.
pub proof fn lemma_flips_ignore_origin(cells: Seq<Piece>, sq: usize, color: bool, piece: Piece)
    requires
        cells.len() == 64,
        sq < 64,
    ensures
        forall|axis: Axis|
            #[trigger] axis_flips(cells.update(sq as int, piece), axis, sq, color) == axis_flips(
                cells,
                axis,
                sq,
                color,
            ),
        flips(cells.update(sq as int, piece), sq, color) == flips(cells, sq, color),
{
    reveal(flips);
    let after = cells.update(sq as int, piece);
    assert forall|axis: Axis| #[trigger]
        axis_flips(after, axis, sq, color) == axis_flips(cells, axis, sq, color) by {
        lemma_ray_entries(axis, sq as int, false);
        lemma_ray_entries(axis, sq as int, true);
        lemma_captured_same(after, cells, ray(axis, sq as int, false), color);
        lemma_captured_same(after, cells, ray(axis, sq as int, true), color);
    }
}

/// One more square of `squares` handed over.
pub proof fn lemma_painted_step(cells: Seq<Piece>, squares: Seq<usize>, color: bool, j: int)
    requires
        cells.len() == 64,
        0 <= j < squares.len(),
        squares[j] < 64,
    ensures
        painted(cells, squares.take(j), color).update(squares[j] as int, Some(color)) == painted(
            cells,
            squares.take(j + 1),
            color,
        ),
{
    let a = painted(cells, squares.take(j), color).update(squares[j] as int, Some(color));
    let b = painted(cells, squares.take(j + 1), color);
    assert forall|x: int| 0 <= x < 64 implies a[x] == b[x] by {
        let before = squares.take(j);
        let upto = squares.take(j + 1);
        if before.contains(x as usize) {
            let k = choose|k: int| 0 <= k < before.len() && before[k] == x as usize;
            assert(upto[k] == x as usize);
        }
        if x == squares[j] {
            assert(upto[j] == squares[j]);
        }
        if upto.contains(x as usize) && x != squares[j] {
            let k = choose|k: int| 0 <= k < upto.len() && upto[k] == x as usize;
            assert(before[k] == x as usize);
        }
    }
    assert(a =~= b);
}

/// Hands the first `upto` squares of `squares`, which hold pieces of the other
/// side, to `color`, one flip after the other.
fn flip_all(board: &mut Board, squares: &Vec<usize>, upto: usize, color: bool)
    requires
        old(board).wf(),
        upto <= squares.len(),
        squares@.take(upto as int).no_duplicates(),
        forall|k: int|
            0 <= k < upto ==> #[trigger] squares[k] < 64 && old(board).cells()[squares[k] as int]
                == Some(!color),
    ensures
        final(board).wf(),
        final(board).cells() == painted(old(board).cells(), squares@.take(upto as int), color),
        final(board).last_mover() == old(board).last_mover(),
        final(board).count_of(color) == old(board).count_of(color) + upto,
        final(board).count_of(!color) == old(board).count_of(!color) - upto,
{
    let ghost start = board.cells();
    proof {
        assert(painted(start, squares@.take(0), color) =~= start);
    }
    let mut j: usize = 0;
    while j < upto
        invariant
            j <= upto <= squares.len(),
            board.wf(),
            start == old(board).cells(),
            start.len() == 64,
            squares@.take(upto as int).no_duplicates(),
            forall|k: int|
                0 <= k < upto ==> #[trigger] squares[k] < 64 && start[squares[k] as int] == Some(
                    !color,
                ),
            board.cells() == painted(start, squares@.take(j as int), color),
            board.last_mover() == old(board).last_mover(),
            board.count_of(color) == old(board).count_of(color) + j,
            board.count_of(!color) == old(board).count_of(!color) - j,
        decreases upto - j,
    {
        let sq = squares[j];
        proof {
            let done = squares@.take(j as int);
            if done.contains(sq) {
                let k = choose|k: int| 0 <= k < done.len() && done[k] == sq;
                assert(squares@.take(upto as int)[k] == squares@.take(upto as int)[j as int]);
            }
            assert(board.cells()[sq as int] == Some(!color));
            lemma_count_flip(board.cells(), sq, color);
            lemma_painted_step(start, squares@, color, j as int);
        }
        board.flip(sq);
        j += 1;
    }
}


/// The squares on one side of entry `at` of a line, walking outward.
fn side_of(ln: &Line, at: usize, forward: bool) -> (way: Vec<usize>)
    requires
        at < ln.len <= 8,
    ensures
        way@ == side(ln@, at as int, forward),
{
    proof {
        lemma_side_entries(ln@, at as int, forward);
    }
    let room: usize = if forward {
        ln.len - 1 - at
    } else {
        at
    };
    let mut way: Vec<usize> = Vec::new();
    let mut k: usize = 0;
    while k < room
        invariant
            k <= room,
            at < ln.len <= 8,
            room == side(ln@, at as int, forward).len(),
            forward ==> at + room < ln.len,
            !forward ==> room <= at,
            way@ == side(ln@, at as int, forward).take(k as int),
            forall|j: int|
                0 <= j < room ==> #[trigger] side(ln@, at as int, forward)[j] == ln@[at
                    + ray_steps(forward, j)],
        decreases room - k,
    {
        let pos: usize = if forward {
            ln.squares[at + 1 + k]
        } else {
            ln.squares[at - 1 - k]
        };
        proof {
            let whole = side(ln@, at as int, forward);
            assert(pos == whole[k as int]);
            assert(whole.take(k as int).push(pos) =~= whole.take(k + 1));
        }
        way.push(pos);
        k += 1;
    }
    proof {
        let whole = side(ln@, at as int, forward);
        assert(whole.take(room as int) =~= whole);
    }
    way
}

/// Walks outward along `way` and returns what a piece of `color` captures
/// there: opposing pieces are gathered until a piece of `color` closes the
/// run; an empty square or the end of the walk discards them.
fn run_along(board: &Board, way: &Vec<usize>, color: bool) -> (run: Vec<usize>)
    requires
        forall|k: int| 0 <= k < way.len() ==> #[trigger] way[k] < 64,
    ensures
        run@ == captured(board.cells(), way@, color),
{
    let ghost cells = board.cells();
    proof {
        board.lemma_cells_len();
    }
    let mut run: Vec<usize> = Vec::new();
    let mut k: usize = 0;
    while k < way.len()
        invariant
            k <= way.len(),
            cells == board.cells(),
            cells.len() == 64,
            forall|j: int| 0 <= j < way.len() ==> #[trigger] way[j] < 64,
            forall|j: int| 0 <= j < k ==> cells[#[trigger] way[j] as int] == Some(!color),
            run@ == way@.take(k as int),
        decreases way.len() - k,
    {
        let pos = way[k];
        match board.piece(pos) {
            Some(c) => {
                if c == color {
                    // The run is closed: keep it.
                    proof {
                        lemma_captured_run(cells, way@, color, k as int);
                        assert(way@.take(0) =~= Seq::<usize>::empty());
                    }
                    return run;
                }
                proof {
                    assert(way@.take(k as int).push(pos) =~= way@.take(k + 1));
                }
                run.push(pos);
            },
            None => {
                // A gap: nothing is captured.
                proof {
                    lemma_captured_run(cells, way@, color, k as int);
                }
                return Vec::new();
            },
        }
        k += 1;
    }
    // The walk ran off the line: nothing is captured.
    proof {
        lemma_captured_run(cells, way@, color, k as int);
    }
    Vec::new()
}

/// Appends every entry of `more` to `all`.
fn append(all: &mut Vec<usize>, more: &Vec<usize>)
    ensures
        final(all)@ == old(all)@ + more@,
{
    let mut k: usize = 0;
    while k < more.len()
        invariant
            k <= more.len(),
            all@ == old(all)@ + more@.take(k as int),
        decreases more.len() - k,
    {
        proof {
            assert((old(all)@ + more@.take(k as int)).push(more[k as int]) =~= old(all)@
                + more@.take(k + 1));
        }
        all.push(more[k]);
        k += 1;
    }
    proof {
        assert(more@.take(more.len() as int) =~= more@);
    }
}

/// Appends to `all` what a piece of `color` on `sq` captures along its line of
/// kind `axis`: the backward ray first, then the forward ray.
fn collect_axis(board: &Board, axis: Axis, sq: usize, color: bool, all: &mut Vec<usize>)
    requires
        sq < 64,
    ensures
        final(all)@ == old(all)@ + axis_flips(board.cells(), axis, sq, color),
{
    let ln = line_of(axis, sq);
    let at = index_in_line(&ln, axis, sq);
    proof {
        lemma_ray_entries(axis, sq as int, false);
        lemma_ray_entries(axis, sq as int, true);
    }
    let back = side_of(&ln, at, false);
    let run = run_along(board, &back, color);
    append(all, &run);
    let forth = side_of(&ln, at, true);
    let run = run_along(board, &forth, color);
    append(all, &run);
    proof {
        let b = captured(board.cells(), ray(axis, sq as int, false), color);
        let f = captured(board.cells(), ray(axis, sq as int, true), color);
        assert(old(all)@ + b + f =~= old(all)@ + (b + f));
    }
}

/// Appends to `all` the first `n` squares on one side of entry `at` of `ln`.
fn take_side(ln: &Line, at: usize, forward: bool, n: usize, all: &mut Vec<usize>)
    requires
        at < ln.len <= 8,
        n <= side(ln@, at as int, forward).len(),
    ensures
        final(all)@ == old(all)@ + side(ln@, at as int, forward).take(n as int),
{
    proof {
        lemma_side_entries(ln@, at as int, forward);
    }
    let ghost whole = side(ln@, at as int, forward);
    let mut k: usize = 0;
    while k < n
        invariant
            k <= n <= whole.len(),
            at < ln.len <= 8,
            whole == side(ln@, at as int, forward),
            forward ==> at + whole.len() < ln.len,
            !forward ==> whole.len() <= at,
            forall|j: int|
                0 <= j < whole.len() ==> #[trigger] whole[j] == ln@[at + ray_steps(forward, j)],
            all@ == old(all)@ + whole.take(k as int),
        decreases n - k,
    {
        let pos: usize = if forward {
            ln.squares[at + 1 + k]
        } else {
            ln.squares[at - 1 - k]
        };
        proof {
            assert(pos == whole[k as int]);
            assert((old(all)@ + whole.take(k as int)).push(pos) =~= old(all)@ + whole.take(k + 1));
        }
        all.push(pos);
        k += 1;
    }
}

/// As [`collect_axis`], but reading the line in place: each side is measured
/// with [`reach`] and that many squares are taken from it.
fn collect_axis_in_place(
    board: &Board,
    axis: Axis,
    sq: usize,
    color: bool,
    all: &mut Vec<usize>,
)
    requires
        sq < 64,
    ensures
        final(all)@ == old(all)@ + axis_flips(board.cells(), axis, sq, color),
{
    let ln = line_of(axis, sq);
    let at = index_in_line(&ln, axis, sq);
    proof {
        lemma_line_entries(axis, sq as int, position(axis, sq as int));
        assert forall|k: int| 0 <= k < ln.len implies #[trigger] ln@[k] < 64 by {
            lemma_line_entries(axis, sq as int, k);
        }
        lemma_captured_prefix(board.cells(), ray(axis, sq as int, false), color);
        lemma_captured_prefix(board.cells(), ray(axis, sq as int, true), color);
    }
    let n = reach(board, &ln, at, false, color);
    take_side(&ln, at, false, n, all);
    let n = reach(board, &ln, at, true, color);
    take_side(&ln, at, true, n, all);
    proof {
        let back = ray(axis, sq as int, false);
        let forth = ray(axis, sq as int, true);
        let b = captured(board.cells(), back, color);
        let f = captured(board.cells(), forth, color);
        assert(back.take(b.len() as int) =~= b);
        assert(forth.take(f.len() as int) =~= f);
        assert(old(all)@ + b + f =~= old(all)@ + (b + f));
    }
}

/// Undoing a record gives back the squares it was made on: if a piece of
/// `color` is put on the empty square `sq` and the distinct squares `taken`,
/// which held opposing pieces, are handed to `color`, then `taken` followed by
/// `sq` can be undone, and undoing it restores every square.
pub proof fn lemma_undo_restores(start: Seq<Piece>, sq: usize, color: bool, taken: Seq<usize>)
    requires
        start.len() == 64,
        sq < 64,
        start[sq as int] is None,
        taken.no_duplicates(),
        forall|k: int|
            0 <= k < taken.len() ==> {
                let x = #[trigger] taken[k];
                x < 64 && x != sq && start[x as int] == Some(!color)
            },
    ensures
        undoable(
            painted(start.update(sq as int, Some(color)), taken, color),
            color,
            taken.push(sq),
        ),
        unplay_cells(
            painted(start.update(sq as int, Some(color)), taken, color),
            color,
            taken.push(sq),
        ) == start,
{
    let after = painted(start.update(sq as int, Some(color)), taken, color);
    let record = taken.push(sq);
    assert forall|k: int| 0 <= k < record.len() implies #[trigger] record[k] < 64
        && after[record[k] as int] == Some(color) by {
        if k < taken.len() {
            assert(record[k] == taken[k]);
            assert(taken.contains(taken[k]));
        }
    }
    assert forall|i: int, j: int| 0 <= i < record.len() && 0 <= j < record.len() && i
        != j implies record[i] != record[j] by {
        if i < taken.len() {
            assert(record[i] == taken[i]);
        }
        if j < taken.len() {
            assert(record[j] == taken[j]);
        }
    }
    assert(record.drop_last() =~= taken);
    assert(record.last() == sq);
    let undone = unplay_cells(after, color, record);
    assert forall|x: int| 0 <= x < 64 implies undone[x] == start[x] by {
        if x != sq && taken.contains(x as usize) {
            let k = choose|k: int| 0 <= k < taken.len() && taken[k] == x as usize;
            assert(start[taken[k] as int] == Some(!color));
        }
    }
    assert(undone =~= start);
}

/// What a play on the empty square `sq` leaves behind: the squares are those
/// of `play_cells`, the record can be undone, undoing it restores the squares,
/// and the record holds a captured square exactly if the move is legal.
pub proof fn lemma_play_result(start: Seq<Piece>, sq: usize, color: bool)
    requires
        start.len() == 64,
        sq < 64,
        start[sq as int] is None,
    ensures
        painted(start.update(sq as int, Some(color)), flips(start, sq, color), color) == play_cells(
            start,
            sq,
            color,
        ),
        undoable(play_cells(start, sq, color), color, flip_record(start, sq, color)),
        unplay_cells(play_cells(start, sq, color), color, flip_record(start, sq, color)) == start,
        legal(start, sq, color) <==> flip_record(start, sq, color).len() >= 2,
{
    let taken = flips(start, sq, color);
    lemma_flips(start, sq, color);
    lemma_undo_restores(start, sq, color, taken);
    assert(painted(start.update(sq as int, Some(color)), taken, color) =~= play_cells(
        start,
        sq,
        color,
    ));
}

/// Plays a piece of `color` on the empty square `i`: puts the piece down,
/// records `color` as last mover, and hands to `color` every run of opposing
/// pieces that the new piece brackets along its four lines. Returns the
/// captured squares in the order collected, followed by `i`.
pub fn play(board: &mut Board, i: usize, color: bool) -> (record: Vec<usize>)
    requires
        old(board).wf(),
        i < 64,
        old(board).cells()[i as int] is None,
    ensures
        final(board).wf(),
        record@ == flip_record(old(board).cells(), i, color),
        final(board).cells() == play_cells(old(board).cells(), i, color),
        final(board).last_mover() == color,
        final(board).count_of(color) == old(board).count_of(color) + record.len(),
        final(board).count_of(!color) == old(board).count_of(!color) - (record.len() - 1),
        undoable(final(board).cells(), color, record@),
        legal(old(board).cells(), i, color) <==> record.len() >= 2,
{
    let ghost start = board.cells();
    proof {
        lemma_count_insert(start, i, color);
        lemma_flips_ignore_origin(start, i, color, Some(color));
        lemma_flips(start, i, color);
        lemma_play_result(start, i, color);
    }
    board.insert(i, color);
    board.set_prev_color(color);

    let mut record: Vec<usize> = Vec::new();
    collect_axis(board, Axis::PositiveDiagonal, i, color, &mut record);
    collect_axis(board, Axis::NegativeDiagonal, i, color, &mut record);
    collect_axis(board, Axis::Row, i, color, &mut record);
    collect_axis(board, Axis::Column, i, color, &mut record);
    proof {
        reveal(flips);
        assert(record@ =~= flips(start, i, color));
        assert(record@.take(record.len() as int) =~= record@);
    }
    let captures = record.len();
    flip_all(board, &record, captures, color);
    record.push(i);
    record
}

/// Plays a piece of `color` on the empty square `i`, as [`play`] does, but
/// reads each line in place instead of copying its two rays.
pub fn play2(board: &mut Board, i: usize, color: bool) -> (record: Vec<usize>)
    requires
        old(board).wf(),
        i < 64,
        old(board).cells()[i as int] is None,
    ensures
        final(board).wf(),
        record@ == flip_record(old(board).cells(), i, color),
        final(board).cells() == play_cells(old(board).cells(), i, color),
        final(board).last_mover() == color,
        final(board).count_of(color) == old(board).count_of(color) + record.len(),
        final(board).count_of(!color) == old(board).count_of(!color) - (record.len() - 1),
        undoable(final(board).cells(), color, record@),
        legal(old(board).cells(), i, color) <==> record.len() >= 2,
{
    let ghost start = board.cells();
    proof {
        lemma_count_insert(start, i, color);
        lemma_flips_ignore_origin(start, i, color, Some(color));
        lemma_flips(start, i, color);
        lemma_play_result(start, i, color);
    }
    board.set_prev_color(color);
    board.insert(i, color);

    let mut record: Vec<usize> = Vec::new();
    collect_axis_in_place(board, Axis::PositiveDiagonal, i, color, &mut record);
    collect_axis_in_place(board, Axis::NegativeDiagonal, i, color, &mut record);
    collect_axis_in_place(board, Axis::Row, i, color, &mut record);
    collect_axis_in_place(board, Axis::Column, i, color, &mut record);
    proof {
        reveal(flips);
        assert(record@ =~= flips(start, i, color));
        assert(record@.take(record.len() as int) =~= record@);
    }
    let captures = record.len();
    flip_all(board, &record, captures, color);
    record.push(i);
    record
}

/// Takes back a play of `color`: removes the piece from the last square of
/// `flips`, records the other side as last mover, and hands every other
/// square of `flips` back to the other side.
pub fn unplay(board: &mut Board, color: bool, flips: Vec<usize>)
    requires
        old(board).wf(),
        undoable(old(board).cells(), color, flips@),
    ensures
        final(board).wf(),
        final(board).cells() == unplay_cells(old(board).cells(), color, flips@),
        final(board).last_mover() == !color,
        final(board).count_of(color) == old(board).count_of(color) - flips.len(),
        final(board).count_of(!color) == old(board).count_of(!color) + (flips.len() - 1),
{
    let ghost start = board.cells();
    let mut flips = flips;
    let ghost record = flips@;
    let placed = flips.pop().unwrap();
    proof {
        board.lemma_cells_len();
        assert(placed == record.last());
        assert(flips@ =~= record.drop_last());
        assert(record[record.len() - 1] < 64);
        super::board::lemma_counts_bounded(start);
        assert(occupied(start.update(placed as int, None), color) =~= occupied(start, color).remove(
            placed,
        ));
        assert(occupied(start.update(placed as int, None), !color) =~= occupied(start, !color));
    }
    board.remove(placed, color);
    board.set_prev_color(!color);
    let rest = flips.len();
    proof {
        let middle = board.cells();
        assert(flips@.take(rest as int) =~= flips@);
        assert forall|k: int| 0 <= k < rest implies #[trigger] flips[k] < 64
            && middle[flips[k] as int] == Some(color) by {
            assert(flips[k] == record[k]);
            assert(record[k] != record[record.len() - 1]);
        }
    }
    flip_all(board, &flips, rest, !color);
    proof {
        let middle = start.update(placed as int, None);
        let end = board.cells();
        let want = unplay_cells(start, color, record);
        assert forall|x: int| 0 <= x < 64 implies end[x] == want[x] by {
            if flips@.contains(x as usize) {
                let k = choose|k: int| 0 <= k < flips@.len() && flips@[k] == x as usize;
                assert(record[k] == x as usize);
                assert(record[k] != record[record.len() - 1]);
            }
        }
        assert(end =~= want);
    }
}

/// Taking back a play restores the board: after a piece of `color` was played
/// on a square of `before` that was empty (every legal move is such a play),
/// giving `played` and `record`, undoing `record` on `played` gives a board
/// `undone` with the squares, the per-side sets and the per-side counts of
/// `before`.
pub proof fn lemma_unplay_restores(
    before: Board,
    played: Board,
    undone: Board,
    sq: usize,
    color: bool,
    record: Seq<usize>,
)
    requires
        before.wf(),
        sq < 64,
        before.cells()[sq as int] is None,
        played.wf(),
        played.cells() == play_cells(before.cells(), sq, color),
        record == flip_record(before.cells(), sq, color),
        undone.wf(),
        undone.cells() == unplay_cells(played.cells(), color, record),
    ensures
        undoable(played.cells(), color, record),
        undone.cells() == before.cells(),
        undone.squares_of(true) == before.squares_of(true),
        undone.squares_of(false) == before.squares_of(false),
        undone.count_of(true) == before.count_of(true),
        undone.count_of(false) == before.count_of(false),
{
    lemma_play_result(before.cells(), sq, color);
}

/// A legal move captures at least one piece: its record holds a captured
/// square and the square played.
pub proof fn lemma_legal_move_captures(cells: Seq<Piece>, sq: usize, color: bool)
    requires
        cells.len() == 64,
        legal(cells, sq, color),
    ensures
        flip_record(cells, sq, color).len() >= 2,
        flip_record(cells, sq, color).last() == sq,
{
    lemma_flips(cells, sq, color);
}

} // verus!
