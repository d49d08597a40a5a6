//! Conversion between board squares and the notation that players use: a row
//! number from 1 (bottom) to 8 (top) and a column letter from `A` (left) to
//! `H` (right).

use vstd::prelude::*;

verus! {

/// The code of a letter without regard to its case: the code of the small
/// letter for a capital ASCII letter, the character's own code otherwise.
pub open spec fn lowered(c: char) -> int {
    if 'A' <= c && c <= 'Z' {
        c as int + 32
    } else {
        c as int
    }
}

/// The square in row `row` and column `column`.
pub open spec fn index_of(row: int, column: char) -> int {
    (lowered(column) - 97) + (8 - row) * 8
}

/// The row number of square `i`.
pub open spec fn row_number(i: int) -> int {
    8 - i / 8
}

/// The column letter of square `i`.
pub open spec fn column_letter(i: int) -> char {
    (i % 8 + 65) as char
}

/// Notation and index are inverse to each other: a square's row number and
/// column letter lead back to the square, and a row from 1 to 8 with a column
/// from `A` to `H`, in either case, names a square of the board with that row
/// number and that column letter in capitals.
pub proof fn lemma_notation_round_trip(i: int, row: int, column: char)
    ensures
        0 <= i < 64 ==> index_of(row_number(i), column_letter(i)) == i,
        0 <= i < 64 ==> 1 <= row_number(i) <= 8 && 'A' <= column_letter(i) <= 'H',
        1 <= row <= 8 && 97 <= lowered(column) <= 104 ==> {
            &&& 0 <= index_of(row, column) < 64
            &&& row_number(index_of(row, column)) == row
            &&& column_letter(index_of(row, column)) as int == lowered(column) - 32
        },
{
}

/// The square named by a row number and a column letter of either case.
pub fn to_index(row: usize, column: char) -> (i: usize)
    requires
        row <= 8,
        lowered(column) >= 97,
    ensures
        i == index_of(row as int, column),
{
    let code: u32 = column as u32;
    let lower: u32 = if 65 <= code && code <= 90 {
        code + 32
    } else {
        code
    };
    (lower - 97) as usize + (8 - row) * 8
}

/// The row number and the column letter, in capitals, of square `i`.
pub fn to_notation(i: usize) -> (notation: (usize, char))
    requires
        i < 72,
    ensures
        notation.0 == row_number(i as int),
        notation.1 == column_letter(i as int),
{
    (8 - i / 8, ((i % 8) as u8 + 65) as char)
}

} // verus!
