use othello::bot::moves::generation::{_ply_move_counter_test, generate_moves, pruned_positions};
use othello::bot::moves::ordering::heuristic_order;
use othello::bot::WEIGHT_LOOKUP;
use othello::game::board::Board;
use othello::game::play::{play, play2, unplay};
use othello::game::validation::{validate, validate_unoptimized};

fn position(pieces: &[(usize, bool)]) -> Board {
    let mut board = Board::new();
    for i in [27, 36] {
        board.remove(i, true);
    }
    for i in [28, 35] {
        board.remove(i, false);
    }
    for &(i, color) in pieces {
        board.insert(i, color);
    }
    board
}

fn snapshot(board: &Board) -> (Vec<Option<bool>>, Vec<bool>, Vec<bool>, u8, u8) {
    let cells = (0..64).map(|i| board.piece(i)).collect();
    let light = (0..64).map(|i| board.holds(true, i)).collect();
    let dark = (0..64).map(|i| board.holds(false, i)).collect();
    (cells, light, dark, board.count(true), board.count(false))
}

fn midgame() -> Board {
    let mut board = Board::new();
    let moves = [
        (20, true),
        (19, false),
        (18, true),
        (11, false),
        (2, true),
        (45, false),
        (43, true),
        (12, false),
        (5, true),
        (17, false),
    ];
    for (m, color) in moves {
        assert!(validate(&board, m, color));
        play(&mut board, m, color);
    }
    board
}

#[test]
fn opening_moves_of_both_sides() {
    let board = Board::new();
    assert_eq!(generate_moves(&board, true), vec![20, 29, 34, 43]);
    assert_eq!(generate_moves(&board, false), vec![19, 26, 37, 44]);
}

#[test]
fn generated_moves_are_exactly_the_valid_squares() {
    for board in [Board::new(), midgame()] {
        for color in [true, false] {
            let moves = generate_moves(&board, color);
            for i in 0..64 {
                assert_eq!(moves.contains(&i), validate(&board, i, color));
            }
            for &m in &moves {
                assert!(m < 64);
                assert_eq!(board.piece(m), None);
            }
            assert!(moves.windows(2).all(|w| w[0] < w[1]));
        }
    }
}

#[test]
fn midgame_moves() {
    let board = midgame();
    assert_eq!(
        generate_moves(&board, true),
        vec![9, 13, 21, 25, 26, 29, 37, 44, 54]
    );
    assert_eq!(generate_moves(&board, false), vec![3, 4, 26, 34, 42, 50, 51]);
    assert_eq!(board.count(true), 7);
    assert_eq!(board.count(false), 7);
}

#[test]
fn validate_rejects_squares_off_the_board() {
    let board = Board::new();
    assert!(!validate(&board, 64, true));
    assert!(!validate(&board, 1000, false));
    assert!(!validate(&board, usize::MAX, true));
    assert!(!validate_unoptimized(&board, 64, true));
}

#[test]
fn validate_rejects_occupied_squares() {
    let board = Board::new();
    for i in [27, 28, 35, 36] {
        assert!(!validate(&board, i, true));
        assert!(!validate(&board, i, false));
        assert!(!validate_unoptimized(&board, i, true));
    }
}

#[test]
fn validate_rejects_squares_that_capture_nothing() {
    let board = Board::new();
    assert!(!validate(&board, 0, true));
    assert!(!validate(&board, 19, true));
    assert!(validate(&board, 19, false));
}

#[test]
fn validate_needs_a_closing_piece() {
    // A run that meets an empty square is not closed.
    let gap = position(&[(1, false), (2, false), (3, false)]);
    assert!(!validate(&gap, 4, true));
    assert!(!validate(&gap, 0, true));
    // A run that runs off the board is not closed.
    let edge = position(&[(62, false), (61, false)]);
    assert!(!validate(&edge, 60, true));
    // A run closed in the corner is.
    let closed = position(&[(57, false), (58, false), (56, true)]);
    assert!(validate(&closed, 59, true));
    assert!(!validate(&closed, 59, false));
}

#[test]
fn validate_does_not_change_the_board() {
    let board = midgame();
    let before = snapshot(&board);
    for i in 0..70 {
        validate(&board, i, true);
        validate(&board, i, false);
        validate_unoptimized(&board, i, true);
    }
    assert_eq!(snapshot(&board), before);
}

#[test]
fn both_validators_agree() {
    for board in [Board::new(), midgame()] {
        for color in [true, false] {
            for i in 0..70 {
                assert_eq!(
                    validate(&board, i, color),
                    validate_unoptimized(&board, i, color)
                );
            }
        }
    }
}

#[test]
fn play_returns_captures_then_the_square() {
    let mut board = Board::new();
    let record = play(&mut board, 20, true);
    assert_eq!(record, vec![28, 20]);
    assert_eq!(board.piece(20), Some(true));
    assert_eq!(board.piece(28), Some(true));
    assert_eq!(board.count(true), 4);
    assert_eq!(board.count(false), 1);
    assert!(board.prev_color());
    assert_eq!(generate_moves(&board, false), vec![19, 21, 37]);
}

#[test]
fn play_captures_in_several_directions_and_drops_open_runs() {
    let pieces = [
        (27, false),
        (28, false),
        (29, true),
        (19, false),
        (11, true),
        (18, false),
        (9, true),
        (35, false),
        (43, true),
        (34, false),
        (41, true),
        (25, false),
        (24, true),
        (17, false),
        (8, true),
    ];
    let mut board = position(&pieces);
    assert!(validate(&board, 26, true));
    let record = play(&mut board, 26, true);
    assert_eq!(record, vec![17, 25, 27, 28, 26]);
    assert_eq!(board.count(true), 12);
    assert_eq!(board.count(false), 4);
    for i in [19, 18, 35, 34] {
        assert_eq!(board.piece(i), Some(false));
    }
    let mut again = position(&pieces);
    assert_eq!(play2(&mut again, 26, true), vec![17, 25, 27, 28, 26]);
    assert_eq!(snapshot(&again), snapshot(&board));
}

#[test]
fn play_on_a_square_that_captures_nothing_only_places_the_piece() {
    let mut board = Board::new();
    let record = play(&mut board, 0, false);
    assert_eq!(record, vec![0]);
    assert_eq!(board.count(false), 3);
    assert_eq!(board.count(true), 2);
    unplay(&mut board, false, record);
    assert_eq!(snapshot(&board).0, snapshot(&Board::new()).0);
}

#[test]
fn legal_moves_capture_at_least_one_piece() {
    for start in [Board::new(), midgame()] {
        for color in [true, false] {
            for m in generate_moves(&start, color) {
                let mut board = start.clone();
                let record = play(&mut board, m, color);
                assert!(record.len() >= 2);
                assert_eq!(*record.last().unwrap(), m);
                assert_eq!(
                    board.count(color) as usize,
                    start.count(color) as usize + record.len()
                );
                assert_eq!(
                    board.count(!color) as usize + record.len() - 1,
                    start.count(!color) as usize
                );
            }
        }
    }
}

#[test]
fn unplay_restores_squares_sets_and_counts() {
    for start in [Board::new(), midgame()] {
        for color in [true, false] {
            for m in generate_moves(&start, color) {
                let mut board = start.clone();
                let before = snapshot(&board);
                let record = play(&mut board, m, color);
                assert_ne!(snapshot(&board), before);
                unplay(&mut board, color, record);
                assert_eq!(snapshot(&board), before);
                assert_eq!(board.prev_color(), !color);
            }
        }
    }
}

#[test]
fn nested_plays_are_undone_in_reverse_order() {
    let mut board = Board::new();
    let before = snapshot(&board);
    let first = play(&mut board, 20, true);
    let middle = snapshot(&board);
    let second = play(&mut board, 19, false);
    let third = play(&mut board, 18, true);
    assert_eq!(third, vec![27, 19, 18]);
    unplay(&mut board, true, third);
    unplay(&mut board, false, second);
    assert_eq!(snapshot(&board), middle);
    unplay(&mut board, true, first);
    assert_eq!(snapshot(&board), before);
}

#[test]
fn play2_does_what_play_does() {
    for start in [Board::new(), midgame()] {
        for color in [true, false] {
            for m in generate_moves(&start, color) {
                let mut one = start.clone();
                let mut two = start.clone();
                let record = play(&mut one, m, color);
                assert_eq!(play2(&mut two, m, color), record);
                assert_eq!(snapshot(&one), snapshot(&two));
                assert_eq!(one.prev_color(), two.prev_color());
            }
        }
    }
}

#[test]
fn move_tree_sizes_from_the_starting_position() {
    let board = Board::new();
    assert_eq!(_ply_move_counter_test(&board, 0, true), 4);
    assert_eq!(_ply_move_counter_test(&board, 1, true), 12);
    assert_eq!(_ply_move_counter_test(&board, 2, true), 56);
    assert_eq!(_ply_move_counter_test(&board, 3, true), 244);
    assert_eq!(_ply_move_counter_test(&board, 4, true), 1396);
}

#[test]
fn move_tree_sizes_in_the_midgame() {
    let board = midgame();
    assert_eq!(_ply_move_counter_test(&board, 0, true), 9);
    assert_eq!(_ply_move_counter_test(&board, 1, true), 68);
    assert_eq!(_ply_move_counter_test(&board, 2, false), 399);
    assert_eq!(_ply_move_counter_test(&board, 3, true), 5058);
}

#[test]
fn a_side_without_moves_counts_for_nothing() {
    let board = position(&[(0, true), (1, false)]);
    assert_eq!(_ply_move_counter_test(&board, 0, false), 0);
    assert_eq!(_ply_move_counter_test(&board, 3, false), 0);
    assert_eq!(_ply_move_counter_test(&board, 0, true), 1);
    assert_eq!(_ply_move_counter_test(&board, 1, true), 0);
}

#[test]
fn heuristic_order_sorts_by_weight() {
    let mut moves = vec![0, 9, 1, 18, 2, 27, 63];
    heuristic_order(&mut moves);
    assert_eq!(moves, vec![9, 27, 18, 1, 2, 0, 63]);
    for pair in moves.windows(2) {
        assert!(WEIGHT_LOOKUP[pair[0]] <= WEIGHT_LOOKUP[pair[1]]);
    }
}

#[test]
fn heuristic_order_keeps_every_move() {
    let mut moves: Vec<usize> = (0..64).rev().collect();
    heuristic_order(&mut moves);
    let mut sorted = moves.clone();
    sorted.sort();
    assert_eq!(sorted, (0..64).collect::<Vec<usize>>());
    for pair in moves.windows(2) {
        assert!(WEIGHT_LOOKUP[pair[0]] <= WEIGHT_LOOKUP[pair[1]]);
    }
    let mut empty: Vec<usize> = Vec::new();
    heuristic_order(&mut empty);
    assert!(empty.is_empty());
    let mut twice = vec![7, 7, 9, 9];
    heuristic_order(&mut twice);
    assert_eq!(twice, vec![9, 9, 7, 7]);
}

#[test]
fn heuristic_order_of_the_midgame_moves() {
    let board = midgame();
    let mut moves = generate_moves(&board, true);
    heuristic_order(&mut moves);
    assert_eq!(moves, vec![9, 13, 25, 54, 21, 26, 29, 37, 44]);
}

#[test]
fn pruned_positions_of_the_starting_position() {
    assert_eq!(
        pruned_positions(&Board::new()),
        vec![18, 19, 20, 21, 26, 27, 28, 29, 34, 35, 36, 37, 42, 43, 44, 45]
    );
    assert!(pruned_positions(&position(&[])).is_empty());
    // The first and the last square of the board are not looked at.
    assert!(pruned_positions(&position(&[(0, true), (63, false)])).is_empty());
}

#[test]
fn boards_compare_by_value() {
    let mut board = midgame();
    let copy = board.clone();
    assert_eq!(board, copy);
    let m = generate_moves(&board, false)[0];
    let record = play(&mut board, m, false);
    assert_ne!(board, copy);
    unplay(&mut board, false, record);
    // The last mover is now the other side; the rest is as before.
    assert_eq!(board.prev_color(), true);
    board.set_prev_color(copy.prev_color());
    assert_eq!(board, copy);
}
