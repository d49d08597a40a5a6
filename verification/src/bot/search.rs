//! Depth-limited negamax search with alpha-beta pruning.
//!
//! [`negamax`] defines the value of a position by exhaustive search.
//! [`search_inner`] computes it with pruning and is proved to return that
//! value cut to its window; [`search`] scores every move at the root.

use crate::bot::evaluation::{evaluate, game_over, lemma_score_range, position_score, LOSS, WIN};
use crate::bot::moves::generation::{generate_moves, has_move, legal_moves};
use crate::bot::moves::ordering::{heuristic_order, ordered_by_weight};
use crate::game::board::{Board, Piece};
use crate::game::play::{lemma_play_result, play, unplay};
use crate::game::rules::{legal, play_cells};
use vstd::prelude::*;

verus! {

/// A bound below every score.
pub open spec fn no_score() -> int {
    i32::MIN as int
}

/// The larger of two scores.
pub open spec fn larger(a: int, b: int) -> int {
    if a >= b {
        a
    } else {
        b
    }
}

/// The smaller of two scores.
pub open spec fn smaller(a: int, b: int) -> int {
    if a <= b {
        a
    } else {
        b
    }
}

/// A score cut to the window from `alpha` to `beta`.
pub open spec fn cut(score: int, alpha: int, beta: int) -> int {
    if score <= alpha {
        alpha
    } else if score >= beta {
        beta
    } else {
        score
    }
}

/// Whether the search stops at a position: no depth is left, or the side to
/// move has no move.
pub open spec fn is_leaf(cells: Seq<Piece>, depth: nat, color: bool) -> bool {
    depth == 0 || !has_move(cells, color)
}

/// The value of a position for `color` by exhaustive search to `depth`: its
/// score at a leaf, else the best value of its moves.
pub open spec fn negamax(cells: Seq<Piece>, depth: nat, color: bool) -> int
    decreases depth, 65nat,
{
    if is_leaf(cells, depth, color) {
        position_score(cells, color)
    } else {
        best_reply(cells, depth, color, 64)
    }
}

/// The value for `color` of its move on `sq`: the negated value of the
/// resulting position for the other side, one ply deeper.
pub open spec fn reply_value(cells: Seq<Piece>, depth: nat, color: bool, sq: usize) -> int
    decreases depth, 0nat,
{
    if depth == 0 {
        no_score()
    } else {
        -negamax(play_cells(cells, sq, color), (depth - 1) as nat, !color)
    }
}

/// The greatest value among the legal moves of `color` on squares below
/// `bound`, or [`no_score`] if there is none.
pub open spec fn best_reply(cells: Seq<Piece>, depth: nat, color: bool, bound: nat) -> int
    decreases depth, bound,
{
    if depth == 0 || bound == 0 {
        no_score()
    } else {
        let rest = best_reply(cells, depth, color, (bound - 1) as nat);
        if legal(cells, (bound - 1) as usize, color) {
            larger(rest, reply_value(cells, depth, color, (bound - 1) as usize))
        } else {
            rest
        }
    }
}

/// What the pruned search returns for a position and a window: the score at a
/// leaf, else the exhaustive value cut to the window.
pub open spec fn search_value(
    cells: Seq<Piece>,
    depth: nat,
    color: bool,
    alpha: int,
    beta: int,
) -> int {
    if is_leaf(cells, depth, color) {
        position_score(cells, color)
    } else {
        cut(negamax(cells, depth, color), alpha, beta)
    }
}

/// Every score lies between [`LOSS`] and [`WIN`], and a score other than these
/// two lies between -50 and 82347.
pub proof fn lemma_position_score_range(cells: Seq<Piece>, color: bool)
    ensures
        LOSS <= position_score(cells, color) <= WIN,
        position_score(cells, color) == WIN || position_score(cells, color) == LOSS || -50
            <= position_score(cells, color) <= 82347,
{
    if !game_over(cells) {
        lemma_score_range(cells, color);
    }
}

/// Every exhaustive value lies between `-i32::MAX` and `i32::MAX`.
pub proof fn lemma_negamax_range(cells: Seq<Piece>, depth: nat, color: bool)
    ensures
        -i32::MAX <= negamax(cells, depth, color) <= i32::MAX,
    decreases depth, 65nat,
{
    if is_leaf(cells, depth, color) {
        lemma_position_score_range(cells, color);
    } else {
        lemma_best_reply(cells, depth, color, 64);
        let sq = choose|sq: usize| legal(cells, sq, color);
        assert(sq < 64 && legal(cells, sq, color));
    }
}

/// Every move value lies between `-i32::MAX` and `i32::MAX`.
pub proof fn lemma_reply_range(cells: Seq<Piece>, depth: nat, color: bool, sq: usize)
    requires
        depth > 0,
    ensures
        -i32::MAX <= reply_value(cells, depth, color, sq) <= i32::MAX,
    decreases depth, 0nat,
{
    lemma_negamax_range(play_cells(cells, sq, color), (depth - 1) as nat, !color);
}

/// The best reply below `bound` is the greatest value of a legal move below
/// `bound`: no such move has a greater value, and if there is such a move,
/// one of them has this value.
pub proof fn lemma_best_reply(cells: Seq<Piece>, depth: nat, color: bool, bound: nat)
    requires
        depth > 0,
        bound <= 64,
    ensures
        forall|sq: usize|
            sq < bound && legal(cells, sq, color) ==> #[trigger] reply_value(
                cells,
                depth,
                color,
                sq,
            ) <= best_reply(cells, depth, color, bound),
        (exists|sq: usize| sq < bound && legal(cells, sq, color)) ==> (exists|sq: usize|
            sq < bound && legal(cells, sq, color) && #[trigger] reply_value(cells, depth, color, sq)
                == best_reply(cells, depth, color, bound)),
        (exists|sq: usize| sq < bound && legal(cells, sq, color)) || best_reply(
            cells,
            depth,
            color,
            bound,
        ) == no_score(),
        no_score() <= best_reply(cells, depth, color, bound) <= i32::MAX,
        (exists|sq: usize| sq < bound && legal(cells, sq, color)) ==> -i32::MAX <= best_reply(
            cells,
            depth,
            color,
            bound,
        ),
    decreases depth, bound,
{
    if bound > 0 {
        let last = (bound - 1) as usize;
        let rest = best_reply(cells, depth, color, (bound - 1) as nat);
        lemma_best_reply(cells, depth, color, (bound - 1) as nat);
        lemma_reply_range(cells, depth, color, last);
        if exists|sq: usize| sq < bound && legal(cells, sq, color) {
            if legal(cells, last, color) && reply_value(cells, depth, color, last) >= rest {
                assert(last < bound && legal(cells, last, color) && reply_value(
                    cells,
                    depth,
                    color,
                    last,
                ) == best_reply(cells, depth, color, bound));
            } else {
                let any = choose|sq: usize| sq < bound && legal(cells, sq, color);
                if any == last {
                    // `last` is legal, so its value is below `rest`, which then
                    // is the value of an earlier legal move.
                    assert(rest > no_score());
                } else {
                    assert(any < bound - 1 && legal(cells, any, color));
                }
                let sq = choose|sq: usize|
                    sq < bound - 1 && legal(cells, sq, color) && #[trigger] reply_value(
                        cells,
                        depth,
                        color,
                        sq,
                    ) == rest;
                assert(sq < bound && legal(cells, sq, color) && reply_value(cells, depth, color, sq)
                    == best_reply(cells, depth, color, bound));
            }
        }
    }
}

/// At a position that is no leaf, the exhaustive value is the greatest value
/// of a legal move.
pub proof fn lemma_negamax_is_best(cells: Seq<Piece>, depth: nat, color: bool)
    requires
        !is_leaf(cells, depth, color),
    ensures
        forall|sq: usize|
            legal(cells, sq, color) ==> #[trigger] reply_value(cells, depth, color, sq) <= negamax(
                cells,
                depth,
                color,
            ),
        exists|sq: usize|
            legal(cells, sq, color) && #[trigger] reply_value(cells, depth, color, sq) == negamax(
                cells,
                depth,
                color,
            ),
{
    lemma_best_reply(cells, depth, color, 64);
    let any = choose|sq: usize| legal(cells, sq, color);
    assert(any < 64 && legal(cells, any, color));
    let sq = choose|sq: usize|
        sq < 64 && legal(cells, sq, color) && #[trigger] reply_value(cells, depth, color, sq)
            == best_reply(cells, depth, color, 64);
    assert(legal(cells, sq, color) && reply_value(cells, depth, color, sq) == negamax(
        cells,
        depth,
        color,
    ));
}

/// The depth at which the root searches below its moves.
pub open spec fn root_child_depth(depth: nat) -> nat {
    if depth == 0 {
        0
    } else {
        (depth - 1) as nat
    }
}

/// The score that the root search gives the move of `color` on `sq`: the
/// negated result of the pruned search below the move, with the full window.
pub open spec fn root_score(cells: Seq<Piece>, depth: nat, color: bool, sq: usize) -> int {
    -search_value(
        play_cells(cells, sq, color),
        root_child_depth(depth),
        !color,
        -(WIN as int),
        -(LOSS as int),
    )
}

/// The moves of a list of scored moves.
pub open spec fn scored_moves(scored: Seq<(i32, usize)>) -> Seq<usize> {
    Seq::new(scored.len(), |k: int| scored[k].1)
}

/// Negating a cut score cuts the negated score to the negated window. A
/// score cut to a window lies in the window and is the score itself, raised to
/// `alpha` or lowered to `beta` where it lies outside.
pub proof fn lemma_cut_negated(score: int, alpha: int, beta: int)
    requires
        alpha <= beta,
    ensures
        -cut(-score, -beta, -alpha) == cut(score, alpha, beta),
        alpha <= cut(score, alpha, beta) <= beta,
        cut(score, alpha, beta) == larger(alpha, smaller(beta, score)),
{
}

/// The value of the move of `color` on `sq` by exhaustive search, as deep as
/// the root search looks below its moves.
pub open spec fn root_value(cells: Seq<Piece>, depth: nat, color: bool, sq: usize) -> int {
    -negamax(play_cells(cells, sq, color), root_child_depth(depth), !color)
}

/// The score that the root search gives a move is its exhaustive value, with
/// one exception: the value `i32::MAX`, found below a position that is no
/// leaf, is cut to [`WIN`].
pub proof fn lemma_root_score(cells: Seq<Piece>, depth: nat, color: bool, sq: usize)
    ensures
        root_score(cells, depth, color, sq) == root_value(cells, depth, color, sq) || (root_score(
            cells,
            depth,
            color,
            sq,
        ) == WIN && root_value(cells, depth, color, sq) == i32::MAX),
        -i32::MAX <= root_score(cells, depth, color, sq) <= root_value(cells, depth, color, sq)
            <= i32::MAX,
{
    lemma_negamax_range(play_cells(cells, sq, color), root_child_depth(depth), !color);
}

/// Pruning never inverts a preference: a move with a smaller exhaustive value
/// than another never gets a greater score from the root search, and a move
/// with a smaller score never has a greater exhaustive value.
pub proof fn lemma_search_keeps_order(
    cells: Seq<Piece>,
    depth: nat,
    color: bool,
    a: usize,
    b: usize,
)
    ensures
        root_value(cells, depth, color, a) < root_value(cells, depth, color, b) ==> root_score(
            cells,
            depth,
            color,
            a,
        ) <= root_score(cells, depth, color, b),
        root_score(cells, depth, color, a) < root_score(cells, depth, color, b) ==> root_value(
            cells,
            depth,
            color,
            a,
        ) <= root_value(cells, depth, color, b),
{
    lemma_root_score(cells, depth, color, a);
    lemma_root_score(cells, depth, color, b);
}

/// The best move of the root search is the best move of the exhaustive
/// search: if no legal move scores higher than `best`, then no legal move
/// `other` has a greater exhaustive value. One case is left out, in which both
/// searches see a won game behind both moves: `best` has the exhaustive value
/// [`WIN`] and `other` the exhaustive value `i32::MAX`, cut to [`WIN`].
pub proof fn lemma_search_finds_best(
    cells: Seq<Piece>,
    depth: nat,
    color: bool,
    best: usize,
    other: usize,
)
    requires
        legal(cells, other, color),
        forall|sq: usize|
            legal(cells, sq, color) ==> #[trigger] root_score(cells, depth, color, sq)
                <= root_score(cells, depth, color, best),
        !(root_value(cells, depth, color, best) == WIN && root_score(cells, depth, color, other)
            == WIN && root_value(cells, depth, color, other) == i32::MAX),
    ensures
        root_value(cells, depth, color, other) <= root_value(cells, depth, color, best),
{
    lemma_root_score(cells, depth, color, best);
    lemma_root_score(cells, depth, color, other);
    assert(root_score(cells, depth, color, other) <= root_score(cells, depth, color, best));
}

/// Scores every move of `color` at the root. The legal moves are generated
/// and ordered; each is played, searched below for the other side with the
/// full window, and taken back. Returns the scored moves in search order. The
/// root never prunes. A `depth` of 0 searches as a `depth` of 1 does.
pub fn search(board: &Board, depth: u32, color: bool) -> (scored: Vec<(i32, usize)>)
    requires
        board.wf(),
    ensures
        scored.len() == legal_moves(board.cells(), color).len(),
        scored_moves(scored@).to_multiset() == legal_moves(board.cells(), color).to_multiset(),
        ordered_by_weight(scored_moves(scored@)),
        forall|k: int|
            0 <= k < scored.len() ==> legal(board.cells(), (#[trigger] scored[k]).1, color)
                && scored[k].0 == root_score(board.cells(), depth as nat, color, scored[k].1),
        forall|sq: usize|
            legal(board.cells(), sq, color) ==> exists|k: int|
                0 <= k < scored.len() && (#[trigger] scored[k]).1 == sq,
{
    let ghost cells = board.cells();
    let mut moves = generate_moves(board, color);
    let ghost generated = moves@;
    heuristic_order(&mut moves);
    proof {
        board.lemma_cells_len();
        assert forall|sq: usize| #[trigger] moves@.contains(sq) <==> legal(cells, sq, color) by {
            vstd::seq_lib::to_multiset_contains(moves@, sq);
            vstd::seq_lib::to_multiset_contains(generated, sq);
        }
        assert forall|k: int| 0 <= k < moves.len() implies #[trigger] moves[k] < 64
            && cells[moves[k] as int] is None by {
            assert(moves@.contains(moves[k]));
        }
    }
    let ghost ordered = moves@;
    let scored = search_with_moves_inputted(board, depth, color, moves);
    proof {
        assert(scored_moves(scored@) =~= ordered);
        assert forall|k: int| 0 <= k < scored.len() implies legal(
            cells,
            (#[trigger] scored[k]).1,
            color,
        ) by {
            assert(ordered.contains(ordered[k]));
        }
        assert forall|sq: usize| legal(cells, sq, color) implies exists|k: int|
            0 <= k < scored.len() && (#[trigger] scored[k]).1 == sq by {
            assert(ordered.contains(sq));
            let k = choose|k: int| 0 <= k < ordered.len() && ordered[k] == sq;
            assert(scored[k].1 == sq);
        }
    }
    scored
}

/// Whether entry `k` of `scored` is the one to play: no entry has a higher
/// score, and every later entry has a lower one.
pub open spec fn is_best_entry(scored: Seq<(i32, usize)>, k: int) -> bool {
    &&& 0 <= k < scored.len()
    &&& forall|j: int| 0 <= j < scored.len() ==> (#[trigger] scored[j]).0 <= scored[k].0
    &&& forall|j: int| k < j < scored.len() ==> (#[trigger] scored[j]).0 < scored[k].0
}

/// Picks the move to play from the scored moves: the one with the highest
/// score, and among several of these the last. There is none exactly if no
/// move was scored.
pub fn best_move(scored: &Vec<(i32, usize)>) -> (choice: Option<usize>)
    ensures
        choice is None <==> scored.len() == 0,
        choice matches Some(m) ==> exists|k: int|
            is_best_entry(scored@, k) && (#[trigger] scored[k]).1 == m,
{
    if scored.len() == 0 {
        return None;
    }
    let mut at: usize = 0;
    let mut k: usize = 1;
    while k < scored.len()
        invariant
            at < k <= scored.len(),
            forall|j: int| 0 <= j < k ==> (#[trigger] scored[j]).0 <= scored[at as int].0,
            forall|j: int| at < j < k ==> (#[trigger] scored[j]).0 < scored[at as int].0,
        decreases scored.len() - k,
    {
        if scored[k].0 >= scored[at].0 {
            at = k;
        }
        k += 1;
    }
    assert(is_best_entry(scored@, at as int));
    Some(scored[at].1)
}

/// Scores the given moves of `color` at the root, in the order given: each is
/// played on a copy of the board, searched below for the other side with the
/// full window, and taken back.
pub fn search_with_moves_inputted(
    board: &Board,
    depth: u32,
    color: bool,
    moves: Vec<usize>,
) -> (scored: Vec<(i32, usize)>)
    requires
        board.wf(),
        forall|k: int|
            0 <= k < moves.len() ==> #[trigger] moves[k] < 64 && board.cells()[moves[k] as int]
                is None,
    ensures
        scored.len() == moves.len(),
        forall|k: int|
            0 <= k < scored.len() ==> (#[trigger] scored[k]).1 == moves[k] && scored[k].0
                == root_score(board.cells(), depth as nat, color, moves[k]),
{
    let ghost cells = board.cells();
    let mut board = board.clone();

    let beta: i32 = i32::MAX - 1;
    let alpha: i32 = i32::MIN + 1;

    let mut evaluated_moves: Vec<(i32, usize)> = Vec::new();
    let below: u32 = if depth == 0 {
        0
    } else {
        depth - 1
    };
    proof {
        board.lemma_cells_len();
    }
    let mut k: usize = 0;
    while k < moves.len()
        invariant
            k <= moves.len(),
            board.wf(),
            board.cells() == cells,
            cells.len() == 64,
            beta == WIN,
            alpha == LOSS,
            below == root_child_depth(depth as nat),
            forall|j: int|
                0 <= j < moves.len() ==> #[trigger] moves[j] < 64 && cells[moves[j] as int] is None,
            evaluated_moves.len() == k,
            forall|j: int|
                0 <= j < k ==> (#[trigger] evaluated_moves[j]).1 == moves[j] && evaluated_moves[j].0
                    == root_score(cells, depth as nat, color, moves[j]),
        decreases moves.len() - k,
    {
        let m = moves[k];
        proof {
            lemma_play_result(cells, m, color);
            lemma_position_score_range(play_cells(cells, m, color), !color);
            lemma_cut_negated(
                -negamax(play_cells(cells, m, color), below as nat, !color),
                alpha as int,
                beta as int,
            );
        }
        let flips = play(&mut board, m, color);
        let evaluation = -search_inner(board.clone(), below, !color, -beta, -alpha);
        unplay(&mut board, color, flips);

        evaluated_moves.push((evaluation, m));
        k += 1;
    }
    evaluated_moves
}

/// Searches below a position for `color` with the window from `alpha` to
/// `beta`. At a leaf (no depth left, or no move for `color`) the position is
/// scored. Otherwise the moves are ordered and tried in turn: each is played,
/// searched below for the other side with the negated window, and taken back;
/// a value of at least `beta` ends the search with `beta`, any other value
/// raises `alpha`, and in the end `alpha` is returned. The result is the
/// exhaustive value cut to the window: the value itself where it lies inside,
/// `alpha` where it lies below and `beta` where it lies above. The upper bound
/// is negated for the search below, so it cannot be `i32::MIN`.
pub fn search_inner(board: Board, depth: u32, color: bool, alpha: i32, beta: i32) -> (score: i32)
    requires
        board.wf(),
        alpha <= beta,
        i32::MIN < beta,
    ensures
        score == search_value(board.cells(), depth as nat, color, alpha as int, beta as int),
        !is_leaf(board.cells(), depth as nat, color) ==> score == larger(
            alpha as int,
            smaller(beta as int, negamax(board.cells(), depth as nat, color)),
        ),
        i32::MIN < score,
    decreases depth,
{
    let ghost cells = board.cells();
    let mut position = board;
    let mut best = alpha;
    let mut moves = generate_moves(&position, color);
    let ghost generated = moves@;
    heuristic_order(&mut moves);

    // At the final depth, or without a move, the position is scored.
    if depth == 0 || moves.len() == 0 {
        return evaluate(&position, color);
    }
    proof {
        position.lemma_cells_len();
        assert forall|sq: usize| #[trigger] moves@.contains(sq) <==> legal(cells, sq, color) by {
            vstd::seq_lib::to_multiset_contains(moves@, sq);
            vstd::seq_lib::to_multiset_contains(generated, sq);
        }
        assert(!is_leaf(cells, depth as nat, color));
        lemma_negamax_is_best(cells, depth as nat, color);
    }
    let mut k: usize = 0;
    while k < moves.len()
        invariant
            k <= moves.len(),
            depth > 0,
            position.wf(),
            position.cells() == cells,
            cells == board.cells(),
            cells.len() == 64,
            !is_leaf(cells, depth as nat, color),
            forall|sq: usize| #[trigger] moves@.contains(sq) <==> legal(cells, sq, color),
            forall|sq: usize|
                legal(cells, sq, color) ==> #[trigger] reply_value(cells, depth as nat, color, sq)
                    <= negamax(cells, depth as nat, color),
            alpha <= best <= beta,
            i32::MIN < beta,
            alpha < beta ==> best < beta,
            k > 0 ==> i32::MIN < best,
            forall|j: int|
                0 <= j < k ==> reply_value(cells, depth as nat, color, #[trigger] moves[j]) <= best,
            best == alpha || exists|j: int|
                0 <= j < k && reply_value(cells, depth as nat, color, #[trigger] moves[j]) == best,
        decreases moves.len() - k,
    {
        let m = moves[k];
        let ghost child = play_cells(cells, m, color);
        let ghost value = reply_value(cells, depth as nat, color, m);
        proof {
            assert(moves@.contains(m));
            lemma_play_result(cells, m, color);
            lemma_position_score_range(child, !color);
            lemma_reply_range(cells, depth as nat, color, m);
            lemma_cut_negated(value, best as int, beta as int);
        }
        let flips = play(&mut position, m, color);
        // The negated lower bound; the negation of `i32::MIN` lies above every
        // value, as `i32::MAX` does.
        let ceiling: i32 = if best == i32::MIN {
            i32::MAX
        } else {
            -best
        };
        let evaluation = -search_inner(position.clone(), depth - 1, !color, -beta, ceiling);
        unplay(&mut position, color, flips);
        proof {
            // Below a leaf the value is exact; else it is cut to the window.
            assert(evaluation == value || evaluation == cut(value, best as int, beta as int));
        }

        if evaluation >= beta {
            // The move is too good for the window: the rest is pruned.
            return beta;
        }
        // The best value so far.
        if evaluation > best {
            best = evaluation;
        }
        k += 1;
    }
    proof {
        let top = choose|sq: usize|
            legal(cells, sq, color) && #[trigger] reply_value(cells, depth as nat, color, sq)
                == negamax(cells, depth as nat, color);
        assert(moves@.contains(top));
        let j = choose|j: int| 0 <= j < moves@.len() && moves@[j] == top;
        assert(reply_value(cells, depth as nat, color, moves[j]) <= best);
        if best != alpha {
            let j = choose|j: int|
                0 <= j < k && reply_value(cells, depth as nat, color, #[trigger] moves[j]) == best;
            assert(moves@.contains(moves[j]));
        }
    }
    best
}

} // verus!
