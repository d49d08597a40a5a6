use othello::game::geometry::{index_in_line, line_of, Axis, Line};
use othello::game::validation::{axis_open, reach};
use othello::game::Board;

const AXES: [Axis; 4] = [
    Axis::PositiveDiagonal,
    Axis::NegativeDiagonal,
    Axis::Row,
    Axis::Column,
];

fn entries(line: &Line) -> Vec<usize> {
    line.squares[..line.len].to_vec()
}

fn on_one_line(axis: Axis, a: usize, b: usize) -> bool {
    let (ra, ca) = ((a / 8) as i32, (a % 8) as i32);
    let (rb, cb) = ((b / 8) as i32, (b % 8) as i32);
    match axis {
        Axis::Row => ra == rb,
        Axis::Column => ca == cb,
        Axis::NegativeDiagonal => ca - ra == cb - rb,
        Axis::PositiveDiagonal => ca + ra == cb + rb,
    }
}

#[test]
fn every_line_holds_exactly_the_collinear_squares() {
    for sq in 0..64 {
        for axis in AXES {
            let line = entries(&line_of(axis, sq));
            let mut sorted = line.clone();
            sorted.sort();
            let wanted: Vec<usize> = (0..64).filter(|&x| on_one_line(axis, x, sq)).collect();
            assert_eq!(sorted, wanted);
        }
    }
}

#[test]
fn lines_run_in_their_direction() {
    for sq in 0..64 {
        for (axis, step) in [
            (Axis::Row, 1i32),
            (Axis::Column, 8),
            (Axis::NegativeDiagonal, 9),
            (Axis::PositiveDiagonal, -7),
        ] {
            let line = entries(&line_of(axis, sq));
            for pair in line.windows(2) {
                assert_eq!(pair[1] as i32 - pair[0] as i32, step);
            }
        }
    }
}

#[test]
fn lines_of_a_corner_and_of_the_centre() {
    assert_eq!(entries(&line_of(Axis::Row, 0)), vec![0, 1, 2, 3, 4, 5, 6, 7]);
    assert_eq!(
        entries(&line_of(Axis::Column, 0)),
        vec![0, 8, 16, 24, 32, 40, 48, 56]
    );
    assert_eq!(
        entries(&line_of(Axis::NegativeDiagonal, 0)),
        vec![0, 9, 18, 27, 36, 45, 54, 63]
    );
    assert_eq!(entries(&line_of(Axis::PositiveDiagonal, 0)), vec![0]);
    assert_eq!(
        entries(&line_of(Axis::PositiveDiagonal, 27)),
        vec![48, 41, 34, 27, 20, 13, 6]
    );
    assert_eq!(
        entries(&line_of(Axis::NegativeDiagonal, 28)),
        vec![1, 10, 19, 28, 37, 46, 55]
    );
    assert_eq!(entries(&line_of(Axis::PositiveDiagonal, 63)), vec![63]);
    assert_eq!(entries(&line_of(Axis::NegativeDiagonal, 7)), vec![7]);
}

#[test]
fn index_in_line_finds_the_square() {
    for sq in 0..64 {
        for axis in AXES {
            let line = line_of(axis, sq);
            let at = index_in_line(&line, axis, sq);
            assert!(at < line.len);
            assert_eq!(line.squares[at], sq);
        }
    }
    assert_eq!(index_in_line(&line_of(Axis::PositiveDiagonal, 27), Axis::PositiveDiagonal, 27), 3);
    assert_eq!(index_in_line(&line_of(Axis::Row, 27), Axis::Row, 27), 3);
    assert_eq!(index_in_line(&line_of(Axis::Column, 27), Axis::Column, 27), 3);
}

#[test]
fn reach_counts_the_closed_run() {
    let mut board = Board::new();
    // Row of square 26: 24..32, with 27 light and 28 dark.
    let row = line_of(Axis::Row, 26);
    assert_eq!(reach(&board, &row, 2, true, false), 1);
    assert_eq!(reach(&board, &row, 2, true, true), 0);
    assert_eq!(reach(&board, &row, 2, false, false), 0);
    board.insert(26, true);
    // From 25, dark would meet light on 26 and 27, then dark on 28.
    assert_eq!(reach(&board, &row, 1, true, false), 2);
    // From 29, light meets dark on 28, then light on 27.
    assert_eq!(reach(&board, &row, 5, false, true), 1);
    // From 30, the neighbour 29 is empty.
    assert_eq!(reach(&board, &row, 6, false, true), 0);
}

#[test]
fn axis_open_names_the_capturing_lines() {
    let board = Board::new();
    // Dark on 19 captures 27 along the column only.
    assert!(axis_open(&board, Axis::Column, 19, false));
    assert!(!axis_open(&board, Axis::Row, 19, false));
    assert!(!axis_open(&board, Axis::NegativeDiagonal, 19, false));
    assert!(!axis_open(&board, Axis::PositiveDiagonal, 19, false));
    // Light on 20 captures 28 along the column only.
    assert!(axis_open(&board, Axis::Column, 20, true));
    assert!(!axis_open(&board, Axis::Column, 20, false));
}
