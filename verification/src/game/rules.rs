//! The rules of placing a piece, as mathematical definitions: which runs of
//! opposing pieces a placement captures, when it is legal, and what the board
//! looks like afterwards.

use super::board::{count, lemma_count_positive, Piece};
use super::geometry::{collinear, lemma_lines_meet_once, lemma_ray_entries, ray, shifted, Axis};
use vstd::prelude::*;

verus! {

/// The first `n` squares of `ray` hold pieces of the other side and the square
/// right after them holds a piece of `color`.
pub open spec fn brackets(cells: Seq<Piece>, ray: Seq<usize>, color: bool, n: int) -> bool {
    &&& 0 < n < ray.len()
    &&& forall|k: int| 0 <= k < n ==> cells[#[trigger] ray[k] as int] == Some(!color)
    &&& cells[ray[n] as int] == Some(color)
}

/// Walking along `ray`, a run of opposing pieces is closed by a piece of `color`.
pub open spec fn bracketed(cells: Seq<Piece>, ray: Seq<usize>, color: bool) -> bool {
    exists|n: int| brackets(cells, ray, color, n)
}

/// The squares that a piece of `color` captures along `ray`: the bracketed run,
/// or nothing where the run meets an empty square or the end of the ray first.
#[verifier::opaque]
pub open spec fn captured(cells: Seq<Piece>, ray: Seq<usize>, color: bool) -> Seq<usize> {
    if bracketed(cells, ray, color) {
        ray.take(choose|n: int| brackets(cells, ray, color, n))
    } else {
        Seq::empty()
    }
}

/// The squares captured along both rays of one line, backward ray first.
pub open spec fn axis_flips(cells: Seq<Piece>, axis: Axis, sq: usize, color: bool) -> Seq<usize> {
    captured(cells, ray(axis, sq as int, false), color) + captured(
        cells,
        ray(axis, sq as int, true),
        color,
    )
}

/// All squares that a piece of `color` placed on `sq` captures, in the order
/// in which they are collected.
#[verifier::opaque]
pub open spec fn flips(cells: Seq<Piece>, sq: usize, color: bool) -> Seq<usize> {
    axis_flips(cells, Axis::PositiveDiagonal, sq, color) + axis_flips(
        cells,
        Axis::NegativeDiagonal,
        sq,
        color,
    ) + axis_flips(cells, Axis::Row, sq, color) + axis_flips(cells, Axis::Column, sq, color)
}

/// Some ray of the line of kind `axis` through `sq` is bracketed.
pub open spec fn axis_bracketed(cells: Seq<Piece>, axis: Axis, sq: usize, color: bool) -> bool {
    bracketed(cells, ray(axis, sq as int, false), color) || bracketed(
        cells,
        ray(axis, sq as int, true),
        color,
    )
}

/// Placing a piece of `color` on `sq` is legal: the square is on the board and
/// empty, and in at least one of the eight directions the new piece brackets a
/// run of opposing pieces.
pub open spec fn legal(cells: Seq<Piece>, sq: usize, color: bool) -> bool {
    &&& sq < 64
    &&& cells[sq as int] is None
    &&& (axis_bracketed(cells, Axis::Column, sq, color) || axis_bracketed(
        cells,
        Axis::Row,
        sq,
        color,
    ) || axis_bracketed(cells, Axis::NegativeDiagonal, sq, color) || axis_bracketed(
        cells,
        Axis::PositiveDiagonal,
        sq,
        color,
    ))
}

/// What a play returns: the captured squares, then the square played.
pub open spec fn flip_record(cells: Seq<Piece>, sq: usize, color: bool) -> Seq<usize> {
    flips(cells, sq, color).push(sq)
}

/// The squares after a piece of `color` was placed on `sq`: the new piece and
/// every captured piece belong to `color`, the rest is unchanged.
pub open spec fn play_cells(cells: Seq<Piece>, sq: usize, color: bool) -> Seq<Piece> {
    Seq::new(
        64,
        |j: int|
            if j == sq || flips(cells, sq, color).contains(j as usize) {
                Some(color)
            } else {
                cells[j]
            },
    )
}

/// Whether `record` can be undone for `color` on `cells`: it is not empty, its
/// entries are distinct squares, and each of them holds a piece of `color`.
pub open spec fn undoable(cells: Seq<Piece>, color: bool, record: Seq<usize>) -> bool {
    &&& record.len() >= 1
    &&& record.no_duplicates()
    &&& forall|k: int|
        0 <= k < record.len() ==> #[trigger] record[k] < 64 && cells[record[k] as int] == Some(
            color,
        )
}

/// The squares after `record` was undone for `color`: its last square is
/// empty, its other squares belong to the other side, the rest is unchanged.
pub open spec fn unplay_cells(cells: Seq<Piece>, color: bool, record: Seq<usize>) -> Seq<Piece> {
    Seq::new(
        64,
        |j: int|
            if j == record.last() {
                None
            } else if record.drop_last().contains(j as usize) {
                Some(!color)
            } else {
                cells[j]
            },
    )
}

/// At most one length brackets a ray.
pub proof fn lemma_brackets_unique(
    cells: Seq<Piece>,
    ray: Seq<usize>,
    color: bool,
    n: int,
    m: int,
)
    requires
        brackets(cells, ray, color, n),
        brackets(cells, ray, color, m),
    ensures
        n == m,
{
    if n < m {
        assert(cells[ray[n] as int] == Some(!color));
    }
    if m < n {
        assert(cells[ray[m] as int] == Some(!color));
    }
}

/// The captured squares of a ray that `n` brackets are its first `n` squares.
pub proof fn lemma_captured_is(cells: Seq<Piece>, ray: Seq<usize>, color: bool, n: int)
    requires
        brackets(cells, ray, color, n),
    ensures
        bracketed(cells, ray, color),
        captured(cells, ray, color) == ray.take(n),
        captured(cells, ray, color).len() == n,
{
    reveal(captured);
    let m = choose|m: int| brackets(cells, ray, color, m);
    lemma_brackets_unique(cells, ray, color, n, m);
}

/// What a ray captures, read off the length `stop` of its leading run of
/// opposing pieces: the run, if it is not empty and the square right after it
/// holds a piece of `color`; nothing otherwise.
pub proof fn lemma_captured_run(cells: Seq<Piece>, ray: Seq<usize>, color: bool, stop: int)
    requires
        0 <= stop <= ray.len(),
        forall|k: int| 0 <= k < stop ==> cells[#[trigger] ray[k] as int] == Some(!color),
        stop < ray.len() ==> cells[ray[stop] as int] != Some(!color),
    ensures
        bracketed(cells, ray, color) == (0 < stop < ray.len() && cells[ray[stop] as int] == Some(
            color,
        )),
        captured(cells, ray, color) == (if bracketed(cells, ray, color) {
            ray.take(stop)
        } else {
            Seq::empty()
        }),
{
    reveal(captured);
    if 0 < stop < ray.len() && cells[ray[stop] as int] == Some(color) {
        assert(brackets(cells, ray, color, stop));
        lemma_captured_is(cells, ray, color, stop);
    } else if bracketed(cells, ray, color) {
        let n = choose|n: int| brackets(cells, ray, color, n);
        if n < stop {
            assert(cells[ray[n] as int] == Some(!color));
        } else if stop < n {
            assert(cells[ray[stop] as int] == Some(!color));
        }
    }
}

/// A square other than `sq` on the line of kind `axis` through `sq`.
pub open spec fn on_axis(axis: Axis, sq: usize, x: usize) -> bool {
    x < 64 && x != sq && collinear(axis, x as int, sq as int)
}

/// No entry of `a` is an entry of `b`.
pub open spec fn apart(a: Seq<usize>, b: Seq<usize>) -> bool {
    forall|i: int, j: int| 0 <= i < a.len() && 0 <= j < b.len() ==> a[i] != b[j]
}

/// What a ray captures is a prefix of the ray.
pub proof fn lemma_captured_prefix(cells: Seq<Piece>, ray: Seq<usize>, color: bool)
    ensures
        captured(cells, ray, color).len() <= ray.len(),
        captured(cells, ray, color).len() > 0 <==> bracketed(cells, ray, color),
        forall|k: int|
            0 <= k < captured(cells, ray, color).len() ==> #[trigger] captured(cells, ray, color)[k]
                == ray[k] && cells[ray[k] as int] == Some(!color),
{
    reveal(captured);
    if bracketed(cells, ray, color) {
        let n = choose|n: int| brackets(cells, ray, color, n);
        lemma_captured_is(cells, ray, color, n);
    }
}

/// The squares captured along one line are distinct squares of that line
/// other than `sq`, and each holds a piece of the other side.
pub proof fn lemma_axis_flips(cells: Seq<Piece>, axis: Axis, sq: usize, color: bool)
    requires
        sq < 64,
    ensures
        axis_flips(cells, axis, sq, color).no_duplicates(),
        axis_flips(cells, axis, sq, color).len() > 0 <==> axis_bracketed(cells, axis, sq, color),
        forall|k: int|
            0 <= k < axis_flips(cells, axis, sq, color).len() ==> {
                let x = #[trigger] axis_flips(cells, axis, sq, color)[k];
                on_axis(axis, sq, x) && cells[x as int] == Some(!color)
            },
{
    let back = ray(axis, sq as int, false);
    let forth = ray(axis, sq as int, true);
    let b = captured(cells, back, color);
    let f = captured(cells, forth, color);
    lemma_ray_entries(axis, sq as int, false);
    lemma_ray_entries(axis, sq as int, true);
    lemma_captured_prefix(cells, back, color);
    lemma_captured_prefix(cells, forth, color);
    let all = axis_flips(cells, axis, sq, color);
    assert forall|k: int| 0 <= k < all.len() implies {
        let x = #[trigger] all[k];
        &&& on_axis(axis, sq, x)
        &&& cells[x as int] == Some(!color)
        &&& x == shifted(
            axis,
            sq as int,
            if k < b.len() {
                -(k + 1)
            } else {
                k - b.len() + 1
            },
        )
    } by {
        if k < b.len() {
            assert(all[k] == b[k]);
            assert(b[k] == back[k]);
        } else {
            assert(all[k] == f[k - b.len()]);
            assert(f[k - b.len()] == forth[k - b.len()]);
        }
    }
    assert forall|i: int, j: int| 0 <= i < all.len() && 0 <= j < all.len() && i != j implies all[i]
        != all[j] by {
        let x = all[i];
        let y = all[j];
    }
}

/// Squares captured along two different lines differ.
pub proof fn lemma_axis_flips_apart(cells: Seq<Piece>, a: Axis, b: Axis, sq: usize, color: bool)
    requires
        sq < 64,
        a != b,
    ensures
        apart(axis_flips(cells, a, sq, color), axis_flips(cells, b, sq, color)),
{
    lemma_axis_flips(cells, a, sq, color);
    lemma_axis_flips(cells, b, sq, color);
    let fa = axis_flips(cells, a, sq, color);
    let fb = axis_flips(cells, b, sq, color);
    assert forall|i: int, j: int| 0 <= i < fa.len() && 0 <= j < fb.len() implies fa[i] != fb[j] by {
        if fa[i] == fb[j] {
            lemma_lines_meet_once(a, b, sq as int, fa[i] as int);
        }
    }
}

/// Two sequences of distinct squares with no square in common join to a
/// sequence of distinct squares.
pub proof fn lemma_join_distinct(a: Seq<usize>, b: Seq<usize>)
    requires
        a.no_duplicates(),
        b.no_duplicates(),
        apart(a, b),
    ensures
        (a + b).no_duplicates(),
{
    assert forall|i: int, j: int| 0 <= i < (a + b).len() && 0 <= j < (a + b).len() && i
        != j implies (a + b)[i] != (a + b)[j] by {
        if i < a.len() && j >= a.len() {
            assert(a[i] != b[j - a.len()]);
        }
        if j < a.len() && i >= a.len() {
            assert(a[j] != b[i - a.len()]);
        }
    }
}

/// A sequence apart from two others is apart from their join.
pub proof fn lemma_join_apart(a: Seq<usize>, b: Seq<usize>, c: Seq<usize>)
    requires
        apart(a, c),
        apart(b, c),
    ensures
        apart(a + b, c),
{
    assert forall|i: int, j: int| 0 <= i < (a + b).len() && 0 <= j < c.len() implies (a + b)[i]
        != c[j] by {
        if i < a.len() {
            assert(a[i] != c[j]);
        } else {
            assert(b[i - a.len()] != c[j]);
        }
    }
}

/// The captured squares are distinct squares of the board other than `sq`,
/// each holds a piece of the other side, and there is at least one of them
/// exactly if the placement brackets a run in some direction.
pub proof fn lemma_flips(cells: Seq<Piece>, sq: usize, color: bool)
    requires
        sq < 64,
    ensures
        flips(cells, sq, color).no_duplicates(),
        forall|k: int|
            0 <= k < flips(cells, sq, color).len() ==> {
                let x = #[trigger] flips(cells, sq, color)[k];
                x < 64 && x != sq && cells[x as int] == Some(!color)
            },
        cells[sq as int] is None ==> (legal(cells, sq, color) <==> flips(cells, sq, color).len()
            > 0),
{
    reveal(flips);
    let p = axis_flips(cells, Axis::PositiveDiagonal, sq, color);
    let n = axis_flips(cells, Axis::NegativeDiagonal, sq, color);
    let r = axis_flips(cells, Axis::Row, sq, color);
    let c = axis_flips(cells, Axis::Column, sq, color);
    lemma_axis_flips(cells, Axis::PositiveDiagonal, sq, color);
    lemma_axis_flips(cells, Axis::NegativeDiagonal, sq, color);
    lemma_axis_flips(cells, Axis::Row, sq, color);
    lemma_axis_flips(cells, Axis::Column, sq, color);
    lemma_axis_flips_apart(cells, Axis::PositiveDiagonal, Axis::NegativeDiagonal, sq, color);
    lemma_axis_flips_apart(cells, Axis::PositiveDiagonal, Axis::Row, sq, color);
    lemma_axis_flips_apart(cells, Axis::PositiveDiagonal, Axis::Column, sq, color);
    lemma_axis_flips_apart(cells, Axis::NegativeDiagonal, Axis::Row, sq, color);
    lemma_axis_flips_apart(cells, Axis::NegativeDiagonal, Axis::Column, sq, color);
    lemma_axis_flips_apart(cells, Axis::Row, Axis::Column, sq, color);
    lemma_join_distinct(p, n);
    lemma_join_apart(p, n, r);
    lemma_join_distinct(p + n, r);
    lemma_join_apart(p, n, c);
    lemma_join_apart(p + n, r, c);
    lemma_join_distinct(p + n + r, c);
    let all = flips(cells, sq, color);
    assert(all == p + n + r + c);
    assert forall|k: int| 0 <= k < all.len() implies {
        let x = #[trigger] all[k];
        x < 64 && x != sq && cells[x as int] == Some(!color)
    } by {
        if k < p.len() {
            assert(all[k] == p[k]);
        } else if k < p.len() + n.len() {
            assert(all[k] == n[k - p.len()]);
        } else if k < p.len() + n.len() + r.len() {
            assert(all[k] == r[k - p.len() - n.len()]);
        } else {
            assert(all[k] == c[k - p.len() - n.len() - r.len()]);
        }
    }
}

/// A run can only be bracketed where both sides have a piece on the board.
pub proof fn lemma_bracket_needs_both(cells: Seq<Piece>, axis: Axis, sq: usize, color: bool)
    requires
        sq < 64,
        axis_bracketed(cells, axis, sq, color),
    ensures
        count(cells, color) >= 1,
        count(cells, !color) >= 1,
{
    let forward = bracketed(cells, ray(axis, sq as int, true), color);
    let way = ray(axis, sq as int, forward);
    lemma_ray_entries(axis, sq as int, forward);
    let n = choose|n: int| brackets(cells, way, color, n);
    assert(cells[way[0] as int] == Some(!color));
    lemma_count_positive(cells, !color, way[0]);
    lemma_count_positive(cells, color, way[n]);
}

/// A legal move can only exist where both sides have a piece on the board.
pub proof fn lemma_legal_needs_both(cells: Seq<Piece>, sq: usize, color: bool)
    requires
        legal(cells, sq, color),
    ensures
        count(cells, true) >= 1,
        count(cells, false) >= 1,
{
    if axis_bracketed(cells, Axis::Column, sq, color) {
        lemma_bracket_needs_both(cells, Axis::Column, sq, color);
    } else if axis_bracketed(cells, Axis::Row, sq, color) {
        lemma_bracket_needs_both(cells, Axis::Row, sq, color);
    } else if axis_bracketed(cells, Axis::NegativeDiagonal, sq, color) {
        lemma_bracket_needs_both(cells, Axis::NegativeDiagonal, sq, color);
    } else {
        lemma_bracket_needs_both(cells, Axis::PositiveDiagonal, sq, color);
    }
}

} // verus!
