//! Line geometry of the 8x8 board.
//!
//! Squares are numbered 0..64 row by row. Every square lies on four lines: its
//! row, its column and two diagonals. The lines are stored as precomputed
//! tables; the spec function [`line`] says what each table entry has to be, and
//! [`line_of`] is proved to read exactly that out of the tables.

use vstd::prelude::*;

verus! {

/// Number of squares on the board.
pub const SQUARES: usize = 64;

/// The eight rows, each from left to right.
pub const ROWS: [[usize; 8]; 8] = [
    [0, 1, 2, 3, 4, 5, 6, 7],
    [8, 9, 10, 11, 12, 13, 14, 15],
    [16, 17, 18, 19, 20, 21, 22, 23],
    [24, 25, 26, 27, 28, 29, 30, 31],
    [32, 33, 34, 35, 36, 37, 38, 39],
    [40, 41, 42, 43, 44, 45, 46, 47],
    [48, 49, 50, 51, 52, 53, 54, 55],
    [56, 57, 58, 59, 60, 61, 62, 63],
];

/// The eight columns, each from top to bottom.
pub const COLUMNS: [[usize; 8]; 8] = [
    [0, 8, 16, 24, 32, 40, 48, 56],
    [1, 9, 17, 25, 33, 41, 49, 57],
    [2, 10, 18, 26, 34, 42, 50, 58],
    [3, 11, 19, 27, 35, 43, 51, 59],
    [4, 12, 20, 28, 36, 44, 52, 60],
    [5, 13, 21, 29, 37, 45, 53, 61],
    [6, 14, 22, 30, 38, 46, 54, 62],
    [7, 15, 23, 31, 39, 47, 55, 63],
];

/// The fifteen diagonals that rise to the right, each from its lower left end
/// to its upper right end. Diagonal `d` holds the squares whose row and column
/// add up to `d`. Entries past a diagonal's length are 64 and never read.
pub const P_DIAGONALS: [[usize; 8]; 15] = [
    [0, 64, 64, 64, 64, 64, 64, 64],
    [8, 1, 64, 64, 64, 64, 64, 64],
    [16, 9, 2, 64, 64, 64, 64, 64],
    [24, 17, 10, 3, 64, 64, 64, 64],
    [32, 25, 18, 11, 4, 64, 64, 64],
    [40, 33, 26, 19, 12, 5, 64, 64],
    [48, 41, 34, 27, 20, 13, 6, 64],
    [56, 49, 42, 35, 28, 21, 14, 7],
    [57, 50, 43, 36, 29, 22, 15, 64],
    [58, 51, 44, 37, 30, 23, 64, 64],
    [59, 52, 45, 38, 31, 64, 64, 64],
    [60, 53, 46, 39, 64, 64, 64, 64],
    [61, 54, 47, 64, 64, 64, 64, 64],
    [62, 55, 64, 64, 64, 64, 64, 64],
    [63, 64, 64, 64, 64, 64, 64, 64],
];

/// The fifteen diagonals that fall to the right, each from its upper left end
/// to its lower right end. Diagonal `d` holds the squares whose column minus
/// row is `d - 7`. Entries past a diagonal's length are 64 and never read.
pub const N_DIAGONALS: [[usize; 8]; 15] = [
    [56, 64, 64, 64, 64, 64, 64, 64],
    [48, 57, 64, 64, 64, 64, 64, 64],
    [40, 49, 58, 64, 64, 64, 64, 64],
    [32, 41, 50, 59, 64, 64, 64, 64],
    [24, 33, 42, 51, 60, 64, 64, 64],
    [16, 25, 34, 43, 52, 61, 64, 64],
    [8, 17, 26, 35, 44, 53, 62, 64],
    [0, 9, 18, 27, 36, 45, 54, 63],
    [1, 10, 19, 28, 37, 46, 55, 64],
    [2, 11, 20, 29, 38, 47, 64, 64],
    [3, 12, 21, 30, 39, 64, 64, 64],
    [4, 13, 22, 31, 64, 64, 64, 64],
    [5, 14, 23, 64, 64, 64, 64, 64],
    [6, 15, 64, 64, 64, 64, 64, 64],
    [7, 64, 64, 64, 64, 64, 64, 64],
];

/// Number of squares on each diagonal, by diagonal number.
pub const DIAGONAL_LENGTHS: [usize; 15] = [1, 2, 3, 4, 5, 6, 7, 8, 7, 6, 5, 4, 3, 2, 1];

/// The four kinds of line through a square.
#[derive(Clone, Copy, Debug, PartialEq, Eq, Structural)]
pub enum Axis {
    /// The diagonal that rises to the right.
    PositiveDiagonal,
    /// The diagonal that falls to the right.
    NegativeDiagonal,
    /// The row.
    Row,
    /// The column.
    Column,
}

/// Row of a square, 0 at the top.
pub open spec fn row_of(sq: int) -> int {
    sq / 8
}

/// Column of a square, 0 at the left.
pub open spec fn col_of(sq: int) -> int {
    sq % 8
}

/// Whether two squares lie on one line of the given kind.
pub open spec fn collinear(axis: Axis, a: int, b: int) -> bool {
    match axis {
        Axis::Row => row_of(a) == row_of(b),
        Axis::Column => col_of(a) == col_of(b),
        Axis::NegativeDiagonal => col_of(a) - row_of(a) == col_of(b) - row_of(b),
        Axis::PositiveDiagonal => col_of(a) + row_of(a) == col_of(b) + row_of(b),
    }
}

/// Number of squares on the line of kind `axis` through `sq`.
pub open spec fn line_len(axis: Axis, sq: int) -> int {
    let r = row_of(sq);
    let c = col_of(sq);
    match axis {
        Axis::Row => 8,
        Axis::Column => 8,
        Axis::NegativeDiagonal => if r <= c { 8 - (c - r) } else { 8 - (r - c) },
        Axis::PositiveDiagonal => if r + c <= 7 { r + c + 1 } else { 15 - (r + c) },
    }
}

/// Index of `sq` within the line of kind `axis` through it.
pub open spec fn position(axis: Axis, sq: int) -> int {
    let r = row_of(sq);
    let c = col_of(sq);
    match axis {
        Axis::Row => c,
        Axis::Column => r,
        Axis::NegativeDiagonal => if r <= c { r } else { c },
        Axis::PositiveDiagonal => if 7 - r <= c { 7 - r } else { c },
    }
}

/// The square `steps` entries further along the line of kind `axis` through
/// `sq` (further back for negative `steps`).
pub open spec fn shifted(axis: Axis, sq: int, steps: int) -> int {
    match axis {
        Axis::Row => sq + steps,
        Axis::Column => sq + 8 * steps,
        Axis::NegativeDiagonal => sq + 9 * steps,
        Axis::PositiveDiagonal => sq - 7 * steps,
    }
}

/// The line of kind `axis` through `sq`, as an ordered sequence of squares.
#[verifier::opaque]
pub open spec fn line(axis: Axis, sq: int) -> Seq<usize> {
    Seq::new(
        line_len(axis, sq) as nat,
        |k: int| shifted(axis, sq, k - position(axis, sq)) as usize,
    )
}

/// One of the two parts into which entry `at` splits the sequence `ln`, walking
/// outward from `at`: the entries after it if `forward`, else the entries
/// before it in reverse.
pub open spec fn side(ln: Seq<usize>, at: int, forward: bool) -> Seq<usize> {
    if forward {
        ln.subrange(at + 1, ln.len() as int)
    } else {
        ln.subrange(0, at).reverse()
    }
}

/// One of the two parts into which `sq` splits its line of kind `axis`, walking
/// outward from `sq`.
pub open spec fn ray(axis: Axis, sq: int, forward: bool) -> Seq<usize> {
    side(line(axis, sq), position(axis, sq), forward)
}

/// Number of steps along its line from `sq` to entry `k` of one of its rays.
pub open spec fn ray_steps(forward: bool, k: int) -> int {
    if forward {
        k + 1
    } else {
        -(k + 1)
    }
}

/// A line read out of the tables: the first `len` entries of `squares`.
#[derive(Clone, Copy, Debug)]
pub struct Line {
    pub squares: [usize; 8],
    pub len: usize,
}

impl View for Line {
    type V = Seq<usize>;

    open spec fn view(&self) -> Seq<usize> {
        self.squares@.take(self.len as int)
    }
}

/// The square in row `r` and column `c` has that row and that column.
pub proof fn lemma_coordinates(r: int, c: int)
    requires
        0 <= c < 8,
    ensures
        row_of(8 * r + c) == r,
        col_of(8 * r + c) == c,
{
}

/// What holds of every entry of a line: it is a square of the board, it is
/// collinear with `sq`, and `sq` itself sits at `position`.
pub proof fn lemma_line_entries(axis: Axis, sq: int, k: int)
    requires
        0 <= sq < 64,
        0 <= k < line_len(axis, sq),
    ensures
        1 <= line_len(axis, sq) <= 8,
        0 <= position(axis, sq) < line_len(axis, sq),
        line(axis, sq).len() == line_len(axis, sq),
        line(axis, sq)[position(axis, sq)] == sq,
        line(axis, sq)[k] == shifted(axis, sq, k - position(axis, sq)),
        0 <= line(axis, sq)[k] < 64,
        collinear(axis, line(axis, sq)[k] as int, sq),
        (line(axis, sq)[k] == sq) == (k == position(axis, sq)),
{
    reveal(line);
    let r = row_of(sq);
    let c = col_of(sq);
    let at = position(axis, sq);
    let steps = k - at;
    let x = shifted(axis, sq, steps);
    assert(sq == 8 * r + c && 0 <= r < 8 && 0 <= c < 8);
    match axis {
        Axis::Row => {
            assert(x == 8 * r + k);
            lemma_coordinates(r, k);
        },
        Axis::Column => {
            assert(x == 8 * k + c);
            lemma_coordinates(k, c);
        },
        Axis::NegativeDiagonal => {
            assert(x == 8 * (r + steps) + (c + steps));
            assert(0 <= r + steps < 8 && 0 <= c + steps < 8);
            lemma_coordinates(r + steps, c + steps);
        },
        Axis::PositiveDiagonal => {
            assert(x == 8 * (r - steps) + (c + steps));
            assert(0 <= r - steps < 8 && 0 <= c + steps < 8);
            lemma_coordinates(r - steps, c + steps);
        },
    }
    assert(0 <= x < 64);
    assert(shifted(axis, sq, 0) == sq);
}

/// Entry `k` of a side is the entry `k + 1` places from `at`.
pub proof fn lemma_side_entries(ln: Seq<usize>, at: int, forward: bool)
    requires
        0 <= at < ln.len(),
    ensures
        side(ln, at, forward).len() == (if forward {
            ln.len() - 1 - at
        } else {
            at
        }),
        forall|k: int|
            0 <= k < side(ln, at, forward).len() ==> #[trigger] side(ln, at, forward)[k] == ln[at
                + ray_steps(forward, k)],
{
}

/// What holds of every entry of a ray from `sq`: it is a square of the board
/// other than `sq`, collinear with `sq`, and as many steps from it as its
/// index says.
pub proof fn lemma_ray_entries(axis: Axis, sq: int, forward: bool)
    requires
        0 <= sq < 64,
    ensures
        ray(axis, sq, forward).len() <= 7,
        forall|k: int|
            0 <= k < ray(axis, sq, forward).len() ==> {
                let x = #[trigger] ray(axis, sq, forward)[k];
                &&& x == shifted(axis, sq, ray_steps(forward, k))
                &&& x < 64
                &&& x != sq
                &&& collinear(axis, x as int, sq)
            },
{
    let ln = line(axis, sq);
    let at = position(axis, sq);
    lemma_line_entries(axis, sq, at);
    lemma_side_entries(ln, at, forward);
    assert forall|k: int| 0 <= k < ray(axis, sq, forward).len() implies {
        let x = #[trigger] ray(axis, sq, forward)[k];
        &&& x == shifted(axis, sq, ray_steps(forward, k))
        &&& x < 64
        &&& x != sq
        &&& collinear(axis, x as int, sq)
    } by {
        lemma_line_entries(axis, sq, at + ray_steps(forward, k));
    }
}

/// Two different lines through a square meet in that square only.
pub proof fn lemma_lines_meet_once(a: Axis, b: Axis, sq: int, x: int)
    requires
        0 <= sq < 64,
        0 <= x < 64,
        a != b,
        collinear(a, x, sq),
        collinear(b, x, sq),
    ensures
        x == sq,
{
}

/// Every square collinear with `sq` is an entry of the line through `sq`.
pub proof fn lemma_line_complete(axis: Axis, sq: int, x: int)
    requires
        0 <= sq < 64,
        0 <= x < 64,
        collinear(axis, x, sq),
    ensures
        line(axis, sq).contains(x as usize),
{
    let k = position(axis, x);
    lemma_line_entries(axis, x, k);
    assert(line_len(axis, x) == line_len(axis, sq));
    assert(0 <= k < line_len(axis, sq));
    lemma_line_entries(axis, sq, k);
    assert(line(axis, sq)[k] == x);
}

/// Looks up the row through `sq`.
fn row_line(sq: usize) -> (ln: Line)
    requires
        sq < 64,
    ensures
        ln.len == 8,
        ln@ == line(Axis::Row, sq as int),
{
    let ln = Line { squares: ROWS[sq / 8], len: 8 };
    proof {
        reveal(line);
        assert forall|k: int| 0 <= k < 8 implies ln.squares@[k] == 8 * (sq / 8) + k by {}
        assert(ln@ =~= line(Axis::Row, sq as int));
    }
    ln
}

/// Looks up the column through `sq`.
fn column_line(sq: usize) -> (ln: Line)
    requires
        sq < 64,
    ensures
        ln.len == 8,
        ln@ == line(Axis::Column, sq as int),
{
    let ln = Line { squares: COLUMNS[sq % 8], len: 8 };
    proof {
        reveal(line);
        assert forall|k: int| 0 <= k < 8 implies ln.squares@[k] == 8 * k + sq % 8 by {}
        assert(ln@ =~= line(Axis::Column, sq as int));
    }
    ln
}

/// Looks up the diagonal through `sq` that falls to the right.
fn negative_diagonal_line(sq: usize) -> (ln: Line)
    requires
        sq < 64,
    ensures
        ln.len <= 8,
        ln@ == line(Axis::NegativeDiagonal, sq as int),
{
    let r: usize = sq / 8;
    let c: usize = sq % 8;
    let d: usize = 7 + c - r;
    let ln = Line { squares: N_DIAGONALS[d], len: DIAGONAL_LENGTHS[d] };
    proof {
        reveal(line);
        assert(ln.len == line_len(Axis::NegativeDiagonal, sq as int));
        let first = if d <= 7 {
            8 * (7 - d)
        } else {
            d - 7
        };
        assert forall|k: int| 0 <= k < ln.len implies ln.squares@[k] == first + 9 * k by {}
        assert(ln@ =~= line(Axis::NegativeDiagonal, sq as int));
    }
    ln
}

/// Looks up the diagonal through `sq` that rises to the right.
fn positive_diagonal_line(sq: usize) -> (ln: Line)
    requires
        sq < 64,
    ensures
        ln.len <= 8,
        ln@ == line(Axis::PositiveDiagonal, sq as int),
{
    let r: usize = sq / 8;
    let c: usize = sq % 8;
    let d: usize = r + c;
    let ln = Line { squares: P_DIAGONALS[d], len: DIAGONAL_LENGTHS[d] };
    proof {
        reveal(line);
        assert(ln.len == line_len(Axis::PositiveDiagonal, sq as int));
        let first = if d <= 7 {
            8 * d
        } else {
            56 + (d - 7)
        };
        assert forall|k: int| 0 <= k < ln.len implies ln.squares@[k] == first - 7 * k by {}
        assert(ln@ =~= line(Axis::PositiveDiagonal, sq as int));
    }
    ln
}

/// Looks up the line of kind `axis` through `sq`.
pub fn line_of(axis: Axis, sq: usize) -> (ln: Line)
    requires
        sq < 64,
    ensures
        ln.len <= 8,
        ln@ == line(axis, sq as int),
{
    match axis {
        Axis::Row => row_line(sq),
        Axis::Column => column_line(sq),
        Axis::NegativeDiagonal => negative_diagonal_line(sq),
        Axis::PositiveDiagonal => positive_diagonal_line(sq),
    }
}

/// Finds the index of `sq` within its line of kind `axis`.
pub fn index_in_line(ln: &Line, axis: Axis, sq: usize) -> (at: usize)
    requires
        sq < 64,
        ln.len <= 8,
        ln@ == line(axis, sq as int),
    ensures
        at == position(axis, sq as int),
        at < ln.len,
{
    proof {
        lemma_line_entries(axis, sq as int, position(axis, sq as int));
    }
    let mut at: usize = 0;
    while ln.squares[at] != sq
        invariant
            sq < 64,
            ln.len <= 8,
            ln@ == line(axis, sq as int),
            at <= position(axis, sq as int) < ln.len,
        decreases ln.len - at,
    {
        proof {
            lemma_line_entries(axis, sq as int, at as int);
            assert(ln@[at as int] == ln.squares@[at as int]);
        }
        at += 1;
    }
    proof {
        lemma_line_entries(axis, sq as int, at as int);
        assert(ln@[at as int] == ln.squares@[at as int]);
    }
    at
}

} // verus!
