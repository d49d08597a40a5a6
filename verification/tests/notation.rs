use othello::notation::{to_index, to_notation};

#[test]
fn notation_round_trip_for_every_square() {
    for i in 0..64usize {
        let (row, column) = to_notation(i);
        assert!((1..=8).contains(&row));
        assert!(('A'..='H').contains(&column));
        assert_eq!(to_index(row, column), i);
    }
}

#[test]
fn index_round_trip_for_every_name() {
    for row in 1..=8usize {
        for column in ['A', 'B', 'C', 'D', 'E', 'F', 'G', 'H'] {
            let i = to_index(row, column);
            assert!(i < 64);
            assert_eq!(to_notation(i), (row, column));
        }
    }
}

#[test]
fn corners_in_notation() {
    assert_eq!(to_index(8, 'A'), 0);
    assert_eq!(to_index(8, 'H'), 7);
    assert_eq!(to_index(1, 'A'), 56);
    assert_eq!(to_index(1, 'H'), 63);
    assert_eq!(to_notation(0), (8, 'A'));
    assert_eq!(to_notation(7), (8, 'H'));
    assert_eq!(to_notation(56), (1, 'A'));
    assert_eq!(to_notation(63), (1, 'H'));
    assert_eq!(to_notation(27), (5, 'D'));
}

#[test]
fn column_letter_case_does_not_matter() {
    assert_eq!(to_index(5, 'd'), 27);
    assert_eq!(to_index(5, 'D'), 27);
    assert_eq!(to_index(1, 'h'), 63);
}

#[test]
fn row_zero_lies_below_the_board() {
    assert_eq!(to_index(0, 'A'), 64);
    assert_eq!(to_index(0, 'h'), 71);
    assert_eq!(to_notation(64), (0, 'A'));
    assert_eq!(to_notation(71), (0, 'H'));
}

#[test]
fn columns_past_h_are_computed_as_written() {
    assert_eq!(to_index(8, 'i'), 8);
    assert_eq!(to_index(8, 'z'), 25);
}
