use othello::bot::evaluation::{evaluate, LOSS, WIN};
use othello::bot::moves::generation::generate_moves;
use othello::bot::search::{best_move, search, search_inner, search_with_moves_inputted};
use othello::game::turn::{standing, turn, Outcome, Turn};
use othello::game::board::Board;
use othello::game::play::play;

fn board_of(pieces: &[(usize, bool)]) -> Board {
    let mut board = Board::new();
    for i in [27, 36] {
        board.remove(i, true);
    }
    for i in [28, 35] {
        board.remove(i, false);
    }
    for &(i, color) in pieces {
        board.insert(i, color);
    }
    board
}

fn after_ten_moves() -> Board {
    let mut board = Board::new();
    let moves = [
        (20, true),
        (19, false),
        (18, true),
        (11, false),
        (2, true),
        (45, false),
        (43, true),
        (12, false),
        (5, true),
        (17, false),
    ];
    for (m, color) in moves {
        play(&mut board, m, color);
    }
    board
}

fn exhaustive(board: &Board, depth: u32, color: bool) -> i64 {
    let moves = generate_moves(board, color);
    if depth == 0 || moves.is_empty() {
        return evaluate(board, color) as i64;
    }
    let mut best = i64::MIN;
    for m in moves {
        let mut next = board.clone();
        play(&mut next, m, color);
        best = best.max(-exhaustive(&next, depth - 1, !color));
    }
    best
}

fn exhaustive_root(board: &Board, depth: u32, color: bool) -> Vec<(i64, usize)> {
    let below = if depth == 0 { 0 } else { depth - 1 };
    generate_moves(board, color)
        .into_iter()
        .map(|m| {
            let mut next = board.clone();
            play(&mut next, m, color);
            (-exhaustive(&next, below, !color), m)
        })
        .collect()
}

#[test]
fn sentinels_are_the_extremes_but_one() {
    assert_eq!(WIN, i32::MAX - 1);
    assert_eq!(LOSS, i32::MIN + 1);
}

#[test]
fn evaluate_the_starting_position() {
    let board = Board::new();
    // mobility 4 against 4: 20; pieces 2 against 2: 40.625, rounded to 41;
    // squares: 2 + 12.
    assert_eq!(evaluate(&board, true), 75);
    assert_eq!(evaluate(&board, false), 75);
}

#[test]
fn evaluate_after_the_first_move() {
    let mut board = Board::new();
    play(&mut board, 20, true);
    assert_eq!(evaluate(&board, true), 352);
    assert_eq!(evaluate(&board, false), 49);
}

#[test]
fn evaluate_the_midgame() {
    let board = after_ten_moves();
    assert_eq!(evaluate(&board, true), 220);
    assert_eq!(evaluate(&board, false), 204);
}

#[test]
fn evaluate_rounds_halves_up() {
    let mut pieces = Vec::new();
    for i in [19, 29, 35, 38, 40, 49, 54, 63] {
        pieces.push((i, true));
    }
    for i in [15, 24, 26, 27, 37, 41, 42, 56] {
        pieces.push((i, false));
    }
    let board = board_of(&pieces);
    assert_eq!(generate_moves(&board, true).len(), 5);
    assert_eq!(generate_moves(&board, false).len(), 8);
    // mobility 5 against 8: 12.5, rounded to 13; pieces 8 against 8: 162.5,
    // rounded to 163; squares: 53.
    assert_eq!(evaluate(&board, true), 229);
    // mobility 8 against 5: 32; pieces: 163; squares: 59.
    assert_eq!(evaluate(&board, false), 254);
}

#[test]
fn evaluate_when_only_one_side_can_move() {
    let board = board_of(&[(0, true), (1, false)]);
    assert_eq!(generate_moves(&board, true), vec![2]);
    assert!(generate_moves(&board, false).is_empty());
    // The side that can move: -50 + 20 + 6 + (7 - 3).
    assert_eq!(evaluate(&board, true), -20);
    // The side that cannot: 40 + 20 + 3 + (7 - 6).
    assert_eq!(evaluate(&board, false), 64);
}

#[test]
fn evaluate_a_finished_game() {
    let won = board_of(&[(0, true), (1, true), (2, true)]);
    assert_eq!(evaluate(&won, true), i32::MAX - 1);
    assert_eq!(evaluate(&won, false), i32::MIN + 1);
    let more = board_of(&[(0, true), (1, true), (63, false)]);
    assert_eq!(evaluate(&more, true), i32::MAX - 1);
    assert_eq!(evaluate(&more, false), i32::MIN + 1);
}

#[test]
fn a_draw_scores_as_a_loss_for_both() {
    let draw = board_of(&[(0, true), (63, false)]);
    assert_eq!(evaluate(&draw, true), i32::MIN + 1);
    assert_eq!(evaluate(&draw, false), i32::MIN + 1);
    let empty = board_of(&[]);
    assert_eq!(evaluate(&empty, true), i32::MIN + 1);
    assert_eq!(evaluate(&empty, false), i32::MIN + 1);
}

#[test]
fn sentinels_only_for_finished_games() {
    for board in [Board::new(), after_ten_moves()] {
        for color in [true, false] {
            let score = evaluate(&board, color);
            assert!(score != i32::MAX - 1 && score != i32::MIN + 1);
        }
    }
}

#[test]
fn search_the_starting_position() {
    let board = Board::new();
    assert_eq!(
        search(&board, 0, true),
        vec![(-49, 20), (-49, 29), (-49, 34), (-49, 43)]
    );
    assert_eq!(search(&board, 1, true), search(&board, 0, true));
    assert_eq!(
        search(&board, 2, true),
        vec![(98, 20), (98, 29), (98, 34), (98, 43)]
    );
    assert_eq!(
        search(&board, 3, true),
        vec![(-58, 20), (-58, 29), (-58, 34), (-58, 43)]
    );
    assert_eq!(
        search(&board, 4, true),
        vec![(94, 20), (94, 29), (94, 34), (94, 43)]
    );
    assert_eq!(
        search(&board, 3, false),
        vec![(-58, 19), (-58, 26), (-58, 37), (-58, 44)]
    );
}

#[test]
fn search_the_midgame() {
    let board = after_ten_moves();
    assert_eq!(
        search(&board, 2, true),
        vec![
            (161, 9),
            (160, 13),
            (183, 25),
            (158, 54),
            (169, 21),
            (166, 26),
            (252, 29),
            (175, 37),
            (257, 44)
        ]
    );
    assert_eq!(
        search(&board, 3, false),
        vec![
            (-294, 50),
            (-238, 51),
            (-235, 26),
            (-187, 34),
            (-234, 42),
            (-239, 3),
            (-202, 4)
        ]
    );
}

#[test]
fn search_does_not_change_the_board() {
    let board = after_ten_moves();
    let before: Vec<Option<bool>> = (0..64).map(|i| board.piece(i)).collect();
    search(&board, 3, true);
    let after: Vec<Option<bool>> = (0..64).map(|i| board.piece(i)).collect();
    assert_eq!(before, after);
    assert_eq!(board.count(true), 7);
    assert_eq!(board.count(false), 7);
}

#[test]
fn search_scores_every_legal_move_once() {
    for board in [Board::new(), after_ten_moves()] {
        for color in [true, false] {
            let mut moves: Vec<usize> = search(&board, 2, color).iter().map(|e| e.1).collect();
            moves.sort();
            assert_eq!(moves, generate_moves(&board, color));
        }
    }
}

#[test]
fn search_without_moves_is_empty() {
    let board = board_of(&[(0, true), (1, false)]);
    assert!(search(&board, 3, false).is_empty());
    assert!(search_with_moves_inputted(&board, 3, false, vec![]).is_empty());
}

#[test]
fn search_sees_a_win_behind_the_last_move() {
    let board = board_of(&[(0, true), (1, false)]);
    assert_eq!(search(&board, 0, true), vec![(i32::MAX, 2)]);
    assert_eq!(search(&board, 2, true), vec![(i32::MAX, 2)]);
}

#[test]
fn search_with_given_moves_keeps_their_order() {
    let board = Board::new();
    assert_eq!(
        search_with_moves_inputted(&board, 2, true, vec![43, 20]),
        vec![(98, 43), (98, 20)]
    );
}

#[test]
fn search_inner_at_a_leaf_is_the_score() {
    let board = after_ten_moves();
    assert_eq!(search_inner(board.clone(), 0, true, -10, 10), 220);
    assert_eq!(search_inner(board.clone(), 0, false, i32::MIN + 1, i32::MAX - 1), 204);
    // A side without a move is scored at once, whatever depth is left.
    let pass = board_of(&[(0, true), (1, false)]);
    assert_eq!(search_inner(pass, 5, false, i32::MIN + 1, i32::MAX - 1), 64);
}

#[test]
fn search_inner_is_the_exhaustive_value_cut_to_the_window() {
    let board = after_ten_moves();
    let full = (i32::MIN + 1, i32::MAX - 1);
    assert_eq!(search_inner(board.clone(), 1, true, full.0, full.1), -111);
    assert_eq!(search_inner(board.clone(), 2, true, full.0, full.1), 257);
    assert_eq!(search_inner(board.clone(), 3, true, full.0, full.1), -123);
    assert_eq!(search_inner(board.clone(), 1, true, -10, 10), -10);
    assert_eq!(search_inner(board.clone(), 2, true, -10, 10), 10);
    assert_eq!(search_inner(board.clone(), 2, true, 100, 200), 200);
    assert_eq!(search_inner(board.clone(), 3, true, 100, 200), 100);
    assert_eq!(search_inner(board.clone(), 2, true, 256, 256), 256);
    for depth in 1..4 {
        for color in [true, false] {
            let value = exhaustive(&board, depth, color);
            for (alpha, beta) in [(-1000, 1000), (-150, -100), (0, 0), (200, 300)] {
                let cut = value.clamp(alpha as i64, beta as i64);
                assert_eq!(
                    search_inner(board.clone(), depth, color, alpha, beta) as i64,
                    cut
                );
            }
        }
    }
}

#[test]
fn search_inner_cuts_a_won_game_to_the_window() {
    let board = board_of(&[(0, true), (1, false)]);
    assert_eq!(
        search_inner(board, 1, true, i32::MIN + 1, i32::MAX - 1),
        i32::MAX - 1
    );
}

#[test]
fn pruning_keeps_the_best_move() {
    for board in [Board::new(), after_ten_moves()] {
        for color in [true, false] {
            for depth in 0..4 {
                let scored = search(&board, depth, color);
                let mut plain = exhaustive_root(&board, depth, color);
                let best = scored.iter().map(|e| e.0).max().unwrap();
                let plain_best = plain.iter().map(|e| e.0).max().unwrap();
                assert_eq!(best as i64, plain_best);
                let mut found: Vec<usize> =
                    scored.iter().filter(|e| e.0 == best).map(|e| e.1).collect();
                found.sort();
                plain.retain(|e| e.0 == plain_best);
                let wanted: Vec<usize> = plain.iter().map(|e| e.1).collect();
                assert_eq!(found, wanted);
            }
        }
    }
}

#[test]
fn best_move_is_the_last_of_the_highest() {
    assert_eq!(best_move(&vec![]), None);
    assert_eq!(best_move(&vec![(5, 10)]), Some(10));
    assert_eq!(best_move(&vec![(5, 10), (7, 11), (6, 12)]), Some(11));
    assert_eq!(best_move(&vec![(7, 10), (7, 11), (6, 12)]), Some(11));
    assert_eq!(best_move(&vec![(-3, 1), (-3, 2), (-3, 3)]), Some(3));
    assert_eq!(best_move(&vec![(i32::MAX, 4), (i32::MIN + 1, 5)]), Some(4));
}

#[test]
fn best_move_of_a_search() {
    let board = after_ten_moves();
    assert_eq!(best_move(&search(&board, 2, true)), Some(44));
    assert_eq!(best_move(&search(&board, 3, true)), Some(44));
    assert_eq!(best_move(&search(&board, 3, false)), Some(34));
    assert_eq!(best_move(&search(&Board::new(), 3, true)), Some(43));
}

#[test]
fn turn_with_a_move_is_a_move() {
    assert_eq!(turn(&Board::new(), true), Turn::Move);
    assert_eq!(turn(&after_ten_moves(), false), Turn::Move);
}

#[test]
fn turn_without_a_move_is_a_pass() {
    let board = board_of(&[(0, true), (1, false)]);
    assert_eq!(turn(&board, false), Turn::Pass);
    assert_eq!(turn(&board, true), Turn::Move);
}

#[test]
fn turn_in_a_finished_game_names_the_outcome() {
    let won = board_of(&[(0, true), (1, true), (63, false)]);
    assert_eq!(turn(&won, true), Turn::Over(Outcome::Won));
    assert_eq!(turn(&won, false), Turn::Over(Outcome::Lost));
    let draw = board_of(&[(0, true), (63, false)]);
    assert_eq!(turn(&draw, true), Turn::Over(Outcome::Tied));
    assert_eq!(turn(&draw, false), Turn::Over(Outcome::Tied));
    assert_eq!(standing(&won, true), Outcome::Won);
    assert_eq!(standing(&Board::new(), false), Outcome::Tied);
}

#[test]
fn turn_and_evaluator_agree_on_finished_games() {
    let boards = [
        Board::new(),
        after_ten_moves(),
        board_of(&[(0, true), (1, false)]),
        board_of(&[(0, true), (1, true), (63, false)]),
        board_of(&[(0, true), (63, false)]),
        board_of(&[]),
    ];
    for board in boards {
        for color in [true, false] {
            let score = evaluate(&board, color);
            let t = turn(&board, color);
            assert_eq!(score == WIN, t == Turn::Over(Outcome::Won));
            assert_eq!(
                score == LOSS,
                t == Turn::Over(Outcome::Tied) || t == Turn::Over(Outcome::Lost)
            );
        }
    }
}

#[test]
fn two_forced_wins_score_alike() {
    // Both 3 and 23 win for light. By exhaustive search the win behind 3 is
    // worth i32::MAX and the one behind 23 is worth WIN; the root window cuts
    // the first to WIN as well.
    let board = board_of(&[(5, true), (11, false), (13, true), (14, false), (19, true)]);
    assert_eq!(
        exhaustive_root(&board, 3, true),
        vec![
            (i32::MAX as i64, 3),
            ((i32::MAX - 1) as i64, 15),
            ((i32::MAX - 1) as i64, 23)
        ]
    );
    assert_eq!(
        search(&board, 3, true),
        vec![(WIN, 15), (WIN, 3), (WIN, 23)]
    );
    assert_eq!(best_move(&search(&board, 3, true)), Some(23));
}

#[test]
fn search_inner_with_an_open_lower_bound() {
    let board = after_ten_moves();
    assert_eq!(search_inner(board.clone(), 2, true, i32::MIN, i32::MAX), 257);
    assert_eq!(search_inner(board.clone(), 3, false, i32::MIN, i32::MAX), -187);
    assert_eq!(search_inner(board.clone(), 3, true, i32::MIN, -200), -200);
    assert_eq!(
        search_inner(board.clone(), 1, true, i32::MIN, i32::MIN + 1),
        i32::MIN + 1
    );
    // With the whole range as window a won game keeps its exhaustive value.
    let pass = board_of(&[(0, true), (1, false)]);
    assert_eq!(search_inner(pass, 1, true, i32::MIN, i32::MAX), i32::MAX);
}
