//! Move generation: all squares on which a side may place a piece.

use crate::game::board::{Board, Piece};
use crate::game::play::{lemma_play_result, play, unplay};
use crate::game::rules::{legal, play_cells};
use crate::game::validation::validate;
use vstd::prelude::*;

verus! {

/// The legal squares below `n` for `color`, in ascending order.
pub open spec fn legal_below(cells: Seq<Piece>, color: bool, n: nat) -> Seq<usize>
    decreases n,
{
    if n == 0 {
        Seq::empty()
    } else {
        let rest = legal_below(cells, color, (n - 1) as nat);
        if legal(cells, (n - 1) as usize, color) {
            rest.push((n - 1) as usize)
        } else {
            rest
        }
    }
}

/// All legal squares for `color`, in ascending order.
pub open spec fn legal_moves(cells: Seq<Piece>, color: bool) -> Seq<usize> {
    legal_below(cells, color, 64)
}

/// Whether `color` has any legal move.
pub open spec fn has_move(cells: Seq<Piece>, color: bool) -> bool {
    exists|sq: usize| legal(cells, sq, color)
}

/// The legal squares below `n` are exactly the squares below `n` that are
/// legal, each once, in ascending order.
pub proof fn lemma_legal_below(cells: Seq<Piece>, color: bool, n: nat)
    requires
        n <= 64,
    ensures
        legal_below(cells, color, n).len() <= n,
        forall|k: int|
            0 <= k < legal_below(cells, color, n).len() ==> {
                let sq = #[trigger] legal_below(cells, color, n)[k];
                sq < n && legal(cells, sq, color)
            },
        forall|sq: usize|
            sq < n && legal(cells, sq, color) ==> #[trigger] legal_below(cells, color, n).contains(
                sq,
            ),
        forall|j: int, k: int|
            0 <= j < k < legal_below(cells, color, n).len() ==> legal_below(cells, color, n)[j]
                < legal_below(cells, color, n)[k],
    decreases n,
{
    if n > 0 {
        let rest = legal_below(cells, color, (n - 1) as nat);
        let all = legal_below(cells, color, n);
        lemma_legal_below(cells, color, (n - 1) as nat);
        assert forall|sq: usize| sq < n && legal(cells, sq, color) implies #[trigger] all.contains(
            sq,
        ) by {
            if sq < n - 1 {
                assert(rest.contains(sq));
                let k = choose|k: int| 0 <= k < rest.len() && rest[k] == sq;
                assert(all[k] == sq);
            } else {
                assert(all[all.len() - 1] == sq);
            }
        }
    }
}

/// The generated moves are exactly the legal squares: a square is among them
/// if and only if it is legal, so none is occupied or off the board; they are
/// in ascending order without repetition; and there is one exactly if the
/// side has a move.
pub proof fn lemma_legal_moves(cells: Seq<Piece>, color: bool)
    ensures
        legal_moves(cells, color).len() <= 64,
        forall|sq: usize| #[trigger]
            legal_moves(cells, color).contains(sq) <==> legal(cells, sq, color),
        forall|j: int, k: int|
            0 <= j < k < legal_moves(cells, color).len() ==> legal_moves(cells, color)[j]
                < legal_moves(cells, color)[k],
        legal_moves(cells, color).no_duplicates(),
        legal_moves(cells, color).len() > 0 <==> has_move(cells, color),
{
    let all = legal_moves(cells, color);
    lemma_legal_below(cells, color, 64);
    assert forall|sq: usize| #[trigger] all.contains(sq) implies legal(cells, sq, color) by {
        let k = choose|k: int| 0 <= k < all.len() && all[k] == sq;
        assert(legal(cells, all[k], color));
    }
    if all.len() > 0 {
        assert(legal(cells, all[0], color));
    }
    if has_move(cells, color) {
        let sq = choose|sq: usize| legal(cells, sq, color);
        assert(all.contains(sq));
    }
}

/// Lists the squares on which `color` may place a piece, by trying the squares
/// 0 to 63 in turn.
pub fn generate_moves(board: &Board, color: bool) -> (moves: Vec<usize>)
    ensures
        moves@ == legal_moves(board.cells(), color),
        moves.len() <= 64,
        forall|sq: usize| #[trigger] moves@.contains(sq) <==> legal(board.cells(), sq, color),
        forall|k: int|
            0 <= k < moves.len() ==> #[trigger] moves[k] < 64 && board.cells()[moves[k] as int]
                is None,
        forall|j: int, k: int| 0 <= j < k < moves.len() ==> moves[j] < moves[k],
        moves.len() > 0 <==> has_move(board.cells(), color),
{
    let mut moves: Vec<usize> = Vec::new();
    let mut i: usize = 0;
    while i < 64
        invariant
            i <= 64,
            moves@ == legal_below(board.cells(), color, i as nat),
        decreases 64 - i,
    {
        if validate(board, i, color) {
            moves.push(i);
        }
        i += 1;
    }
    proof {
        lemma_legal_moves(board.cells(), color);
        assert forall|k: int| 0 <= k < moves.len() implies #[trigger] moves[k] < 64
            && board.cells()[moves[k] as int] is None by {
            assert(moves@.contains(moves[k]));
        }
    }
    moves
}

/// The index offsets from a square to its eight neighbours.
pub const NEIGHBOR_OFFSETS: [i32; 8] = [-9, -8, -7, -1, 1, 7, 8, 9];

/// Whether some index offset leads from `i` to an occupied square strictly
/// between the first and the last square of the board.
pub open spec fn near_piece(cells: Seq<Piece>, i: int) -> bool {
    exists|k: int|
        0 <= k < 8 && 0 < i + #[trigger] NEIGHBOR_OFFSETS[k] < 63 && cells[i
            + NEIGHBOR_OFFSETS[k]] is Some
}

/// The squares below `n` that are near a piece, in ascending order.
pub open spec fn near_below(cells: Seq<Piece>, n: nat) -> Seq<usize>
    decreases n,
{
    if n == 0 {
        Seq::empty()
    } else {
        let rest = near_below(cells, (n - 1) as nat);
        if near_piece(cells, n - 1) {
            rest.push((n - 1) as usize)
        } else {
            rest
        }
    }
}

/// Lists, in ascending order, the squares from which some index offset leads
/// to an occupied square: a narrower set of candidates than the whole board.
pub fn pruned_positions(board: &Board) -> (squares: Vec<usize>)
    ensures
        squares@ == near_below(board.cells(), 64),
{
    let ghost cells = board.cells();
    proof {
        board.lemma_cells_len();
    }
    let mut squares: Vec<usize> = Vec::new();
    let mut i: usize = 0;
    while i < 64
        invariant
            i <= 64,
            cells == board.cells(),
            cells.len() == 64,
            squares@ == near_below(cells, i as nat),
        decreases 64 - i,
    {
        let mut neighbor_found = false;
        let mut k: usize = 0;
        while k < 8 && !neighbor_found
            invariant
                k <= 8,
                i < 64,
                cells == board.cells(),
                cells.len() == 64,
                neighbor_found ==> near_piece(cells, i as int),
                !neighbor_found ==> forall|j: int|
                    0 <= j < k ==> !(0 < i + #[trigger] NEIGHBOR_OFFSETS[j] < 63 && cells[i
                        + NEIGHBOR_OFFSETS[j]] is Some),
            decreases 8 - k,
        {
            let at: i32 = i as i32 + NEIGHBOR_OFFSETS[k];
            if at > 0 && at < 63 && board.piece(at as usize).is_some() {
                neighbor_found = true;
            }
            k += 1;
        }
        if neighbor_found {
            squares.push(i);
        }
        i += 1;
    }
    squares
}

/// Number of moves at the bottom of the game tree below a position: the
/// legal moves of `color` if `depth` is 0, else the sum over each legal move
/// of the count for the other side one ply deeper. A side without a move
/// counts for nothing.
pub open spec fn leaf_count(cells: Seq<Piece>, depth: nat, color: bool) -> nat
    decreases depth, legal_moves(cells, color).len() + 1,
{
    let moves = legal_moves(cells, color);
    if moves.len() == 0 {
        0
    } else if depth == 0 {
        moves.len()
    } else {
        leaf_sum(cells, depth, color, moves)
    }
}

/// The counts one ply deeper, summed over the moves `moves` of `color`.
pub open spec fn leaf_sum(cells: Seq<Piece>, depth: nat, color: bool, moves: Seq<usize>) -> nat
    decreases depth, moves.len(),
{
    if depth == 0 || moves.len() == 0 {
        0
    } else {
        leaf_sum(cells, depth, color, moves.drop_last()) + leaf_count(
            play_cells(cells, moves.last(), color),
            (depth - 1) as nat,
            !color,
        )
    }
}

/// The sum over the first moves is at most the sum over all of them.
pub proof fn lemma_leaf_sum_grows(
    cells: Seq<Piece>,
    depth: nat,
    color: bool,
    moves: Seq<usize>,
    k: int,
)
    requires
        0 <= k <= moves.len(),
    ensures
        leaf_sum(cells, depth, color, moves.take(k)) <= leaf_sum(cells, depth, color, moves),
    decreases moves.len() - k,
{
    if k < moves.len() {
        lemma_leaf_sum_grows(cells, depth, color, moves, k + 1);
        assert(moves.take(k + 1).drop_last() =~= moves.take(k));
    } else {
        assert(moves.take(k) =~= moves);
    }
}

/// The largest number of moves at the bottom of a tree of the given depth:
/// 64 to the power `depth + 1`.
pub open spec fn tree_bound(depth: nat) -> nat
    decreases depth,
{
    if depth == 0 {
        64
    } else {
        64 * tree_bound((depth - 1) as nat)
    }
}

/// The sum over `moves` is at most the number of moves times the bound one ply
/// deeper.
pub proof fn lemma_leaf_sum_bound(cells: Seq<Piece>, depth: nat, color: bool, moves: Seq<usize>)
    requires
        depth > 0,
    ensures
        leaf_sum(cells, depth, color, moves) <= moves.len() * tree_bound((depth - 1) as nat),
    decreases depth, moves.len(),
{
    let below = tree_bound((depth - 1) as nat);
    if moves.len() > 0 {
        lemma_leaf_sum_bound(cells, depth, color, moves.drop_last());
        lemma_leaf_count_bound(play_cells(cells, moves.last(), color), (depth - 1) as nat, !color);
        assert((moves.len() - 1) * below + below == moves.len() * below) by (nonlinear_arith);
    } else {
        assert(0 * below == 0);
    }
}

/// The count below a position is at most 64 to the power `depth + 1`; up to
/// depth 4 it is below 2 to the power 30.
pub proof fn lemma_leaf_count_bound(cells: Seq<Piece>, depth: nat, color: bool)
    ensures
        leaf_count(cells, depth, color) <= tree_bound(depth),
        depth <= 4 ==> leaf_count(cells, depth, color) <= 0x4000_0000,
    decreases depth, legal_moves(cells, color).len() + 1,
{
    let moves = legal_moves(cells, color);
    lemma_legal_moves(cells, color);
    if moves.len() > 0 && depth > 0 {
        let below = tree_bound((depth - 1) as nat);
        lemma_leaf_sum_bound(cells, depth, color, moves);
        assert(moves.len() * below <= 64 * below) by (nonlinear_arith)
            requires
                moves.len() <= 64,
                below >= 0,
        ;
    }
    reveal_with_fuel(tree_bound, 5);
}

/// Counts the moves at the bottom of the game tree `depth` plies below the
/// position, by playing every legal move on a copy of the board, counting
/// below it for the other side, and taking the move back.
pub fn _ply_move_counter_test(board: &Board, depth: u32, color: bool) -> (total: usize)
    requires
        board.wf(),
        leaf_count(board.cells(), depth as nat, color) <= usize::MAX,
    ensures
        total == leaf_count(board.cells(), depth as nat, color),
    decreases depth,
{
    let moves = generate_moves(board, color);
    if moves.len() == 0 {
        return 0;
    } else if depth == 0 {
        return moves.len();
    }
    let ghost cells = board.cells();
    let mut board = board.clone();
    let mut total: usize = 0;
    let mut k: usize = 0;
    proof {
        board.lemma_cells_len();
    }
    while k < moves.len()
        invariant
            k <= moves.len(),
            depth > 0,
            board.wf(),
            board.cells() == cells,
            cells.len() == 64,
            moves@ == legal_moves(cells, color),
            forall|sq: usize| #[trigger] moves@.contains(sq) <==> legal(cells, sq, color),
            leaf_sum(cells, depth as nat, color, moves@) <= usize::MAX,
            total == leaf_sum(cells, depth as nat, color, moves@.take(k as int)),
        decreases moves.len() - k,
    {
        let m = moves[k];
        proof {
            assert(moves@.contains(m));
            lemma_play_result(cells, m, color);
            lemma_leaf_sum_grows(cells, depth as nat, color, moves@, k + 1);
            assert(moves@.take(k + 1).drop_last() =~= moves@.take(k as int));
        }
        let flips = play(&mut board, m, color);
        let count = _ply_move_counter_test(&board, depth - 1, !color);
        unplay(&mut board, color, flips);
        total = total + count;
        k += 1;
    }
    proof {
        assert(moves@.take(moves.len() as int) =~= moves@);
    }
    total
}

} // verus!
