use othello::game::board::Board;

fn occupied_squares(board: &Board) -> Vec<(usize, bool)> {
    let mut out = Vec::new();
    for i in 0..64 {
        if let Some(color) = board.piece(i) {
            out.push((i, color));
        }
    }
    out
}

fn consistent(board: &Board) -> bool {
    let mut light = 0u8;
    let mut dark = 0u8;
    for i in 0..64 {
        match board.piece(i) {
            Some(true) => {
                light += 1;
                if !board.holds(true, i) || board.holds(false, i) {
                    return false;
                }
            }
            Some(false) => {
                dark += 1;
                if !board.holds(false, i) || board.holds(true, i) {
                    return false;
                }
            }
            None => {
                if board.holds(true, i) || board.holds(false, i) {
                    return false;
                }
            }
        }
    }
    light == board.count(true) && dark == board.count(false)
}

#[test]
fn new_board_is_the_starting_position() {
    let board = Board::new();
    assert_eq!(
        occupied_squares(&board),
        vec![(27, true), (28, false), (35, false), (36, true)]
    );
    assert_eq!(board.count(true), 2);
    assert_eq!(board.count(false), 2);
    assert!(!board.prev_color());
    assert!(consistent(&board));
}

#[test]
fn insert_fills_square_set_and_count() {
    let mut board = Board::new();
    board.insert(0, false);
    assert_eq!(board.piece(0), Some(false));
    assert!(board.holds(false, 0));
    assert!(!board.holds(true, 0));
    assert_eq!(board.count(false), 3);
    assert_eq!(board.count(true), 2);
    assert!(consistent(&board));
}

#[test]
fn remove_is_the_inverse_of_insert() {
    let mut board = Board::new();
    board.insert(63, true);
    board.remove(63, true);
    assert_eq!(board.piece(63), None);
    assert!(!board.holds(true, 63));
    assert_eq!(board.count(true), 2);
    assert_eq!(
        occupied_squares(&board),
        occupied_squares(&Board::new())
    );
    assert!(consistent(&board));
}

#[test]
fn flip_moves_a_piece_to_the_other_side() {
    let mut board = Board::new();
    board.flip(27);
    assert_eq!(board.piece(27), Some(false));
    assert!(board.holds(false, 27));
    assert!(!board.holds(true, 27));
    assert_eq!(board.count(true), 1);
    assert_eq!(board.count(false), 3);
    assert!(consistent(&board));
    board.flip(27);
    assert_eq!(board.piece(27), Some(true));
    assert_eq!(board.count(true), 2);
    assert_eq!(board.count(false), 2);
    assert!(consistent(&board));
}

#[test]
fn counts_never_exceed_the_board() {
    let mut board = Board::new();
    for i in 0..64 {
        if board.piece(i).is_none() {
            board.insert(i, i % 2 == 0);
        }
    }
    assert_eq!(board.count(true) as usize + board.count(false) as usize, 64);
    assert!(consistent(&board));
}

#[test]
fn clone_is_independent() {
    let mut board = Board::new();
    board.insert(10, true);
    board.set_prev_color(true);
    let mut copy = board.clone();
    assert_eq!(occupied_squares(&copy), occupied_squares(&board));
    assert_eq!(copy.count(true), 3);
    assert_eq!(copy.count(false), 2);
    assert!(copy.prev_color());
    assert!(consistent(&copy));
    copy.flip(10);
    copy.insert(11, false);
    assert_eq!(board.piece(10), Some(true));
    assert_eq!(board.piece(11), None);
    assert_eq!(board.count(true), 3);
    assert!(consistent(&board));
    assert!(consistent(&copy));
}

#[test]
fn set_prev_color_changes_only_the_last_mover() {
    let mut board = Board::new();
    board.set_prev_color(true);
    assert!(board.prev_color());
    assert_eq!(occupied_squares(&board), occupied_squares(&Board::new()));
    assert!(consistent(&board));
}
