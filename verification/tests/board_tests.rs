use std::str::FromStr;

use sudoku_solver::board::{Board, Entry};

fn create_board() -> Board {
    Board::from_str(
        r"+-------+-------+-------+
          | 1 6 _ | 9 _ _ | _ _ 5 |
          | 2 _ _ | _ 4 5 | 6 _ 9 |
          | _ 9 _ | _ 3 _ | 7 _ 2 |
          +-------+-------+-------+
          | 6 _ _ | _ _ 7 | _ 9 3 |
          | 9 _ _ | _ 1 _ | _ _ 7 |
          | 4 7 _ | 3 _ 9 | _ _ 8 |
          +-------+-------+-------+
          | 7 _ 2 | _ 8 _ | 9 5 6 |
          | _ _ 6 | 2 9 _ | _ _ 4 |
          | _ _ 9 | _ _ _ | _ _ 1 |
          +-------+-------+-------+",
    )
    .unwrap()
}

#[test]
fn test_get_row() {
    let board = create_board();

    assert_eq!(
        board.get_row(0),
        vec![
            Some(Entry::One),
            Some(Entry::Six),
            None,
            Some(Entry::Nine),
            None,
            None,
            None,
            None,
            Some(Entry::Five),
        ]
    );

    assert_eq!(
        board.get_row(4),
        vec![
            Some(Entry::Nine),
            None,
            None,
            None,
            Some(Entry::One),
            None,
            None,
            None,
            Some(Entry::Seven),
        ]
    );

    assert_eq!(
        board.get_row(6),
        vec![
            Some(Entry::Seven),
            None,
            Some(Entry::Two),
            None,
            Some(Entry::Eight),
            None,
            Some(Entry::Nine),
            Some(Entry::Five),
            Some(Entry::Six),
        ]
    );
}

#[test]
fn test_get_column() {
    let board = create_board();

    assert_eq!(
        board.get_column(0),
        vec![
            Some(Entry::One),
            Some(Entry::Two),
            None,
            Some(Entry::Six),
            Some(Entry::Nine),
            Some(Entry::Four),
            Some(Entry::Seven),
            None,
            None,
        ]
    );

    assert_eq!(
        board.get_column(1),
        vec![
            Some(Entry::Six),
            None,
            Some(Entry::Nine),
            None,
            None,
            Some(Entry::Seven),
            None,
            None,
            None,
        ]
    );

    assert_eq!(
        board.get_column(8),
        vec![
            Some(Entry::Five),
            Some(Entry::Nine),
            Some(Entry::Two),
            Some(Entry::Three),
            Some(Entry::Seven),
            Some(Entry::Eight),
            Some(Entry::Six),
            Some(Entry::Four),
            Some(Entry::One),
        ]
    );
}

#[test]
fn test_get_big_cell() {
    let board = create_board();

    assert_eq!(
        board.get_big_cell(2),
        vec![
            None,
            None,
            Some(Entry::Five),
            Some(Entry::Six),
            None,
            Some(Entry::Nine),
            Some(Entry::Seven),
            None,
            Some(Entry::Two),
        ]
    );

    assert_eq!(
        board.get_big_cell(5),
        vec![
            None,
            Some(Entry::Nine),
            Some(Entry::Three),
            None,
            None,
            Some(Entry::Seven),
            None,
            None,
            Some(Entry::Eight),
        ]
    );

    assert_eq!(
        board.get_big_cell(7),
        vec![
            None,
            Some(Entry::Eight),
            None,
            Some(Entry::Two),
            Some(Entry::Nine),
            None,
            None,
            None,
            None,
        ]
    );
}

#[test]
fn test_is_valid() {
    let mut board = create_board();
    assert!(board.is_valid());
    board.set_cell_index(2, Some(Entry::Six));
    assert!(!board.is_valid());
}

#[test]
fn test_get_cell_matches_linear_index() {
    let board = create_board();
    for row in 0..9 {
        for column in 0..9 {
            assert_eq!(board.get_cell(row, column), board.get_cell_index(row * 9 + column));
        }
    }
}

#[test]
fn test_get_cell_index_tolerant() {
    let board = create_board();
    assert_eq!(board.get_cell_index(81), None);
    assert_eq!(board.get_cell_index(1000), None);
}

#[test]
fn test_set_cell_index_out_of_range_is_noop() {
    let mut board = create_board();
    let before: Vec<Option<Entry>> = (0..81).map(|i| board.get_cell_index(i)).collect();
    board.set_cell_index(81, Some(Entry::One));
    board.set_cell_index(7777, None);
    let after: Vec<Option<Entry>> = (0..81).map(|i| board.get_cell_index(i)).collect();
    assert_eq!(before, after);
}

#[test]
fn test_box_indexing_top_left() {
    let board = Board::from_text(
        "16_______\
         2________\
         _9_______",
    );
    assert_eq!(
        board.get_big_cell(0),
        vec![
            Some(Entry::One),
            Some(Entry::Six),
            None,
            Some(Entry::Two),
            None,
            None,
            None,
            Some(Entry::Nine),
            None,
        ]
    );
    // the other boxes of this mostly empty board follow the same offset
    // formula and are entirely empty
    assert_eq!(board.get_big_cell(4), vec![None; 9]);
    assert_eq!(board.get_big_cell(8), vec![None; 9]);
}

#[test]
fn test_box_indexing_center_and_bottom_right() {
    let board = Board::from_text(
        "123456789\
         456789123\
         789123456\
         234567891\
         567891234\
         891234567\
         345678912\
         678912345\
         912345678",
    );
    assert_eq!(
        board.get_big_cell(4),
        vec![
            Some(Entry::Five),
            Some(Entry::Six),
            Some(Entry::Seven),
            Some(Entry::Eight),
            Some(Entry::Nine),
            Some(Entry::One),
            Some(Entry::Two),
            Some(Entry::Three),
            Some(Entry::Four),
        ]
    );
    assert_eq!(
        board.get_big_cell(8),
        vec![
            Some(Entry::Nine),
            Some(Entry::One),
            Some(Entry::Two),
            Some(Entry::Three),
            Some(Entry::Four),
            Some(Entry::Five),
            Some(Entry::Six),
            Some(Entry::Seven),
            Some(Entry::Eight),
        ]
    );
}

#[test]
fn test_parse_ignores_decoration() {
    let plain = Board::from_text(
        "16_9____52___456_9_9__3_7_26____7_939___1___747_3_9__87_2_8_956__629___4__9_____1",
    );
    let framed = create_board();
    for i in 0..81 {
        assert_eq!(plain.get_cell_index(i), framed.get_cell_index(i));
    }
}

#[test]
fn test_parse_partial_fill_leaves_rest_empty() {
    let board = Board::from_text("12_4");
    assert_eq!(board.get_cell_index(0), Some(Entry::One));
    assert_eq!(board.get_cell_index(1), Some(Entry::Two));
    assert_eq!(board.get_cell_index(2), None);
    assert_eq!(board.get_cell_index(3), Some(Entry::Four));
    for i in 4..81 {
        assert_eq!(board.get_cell_index(i), None);
    }
}

#[test]
fn test_parse_ignores_markers_past_the_board() {
    let mut text = String::new();
    for _ in 0..81 {
        text.push('1');
    }
    text.push('9');
    let board = Board::from_text(&text);
    for i in 0..81 {
        assert_eq!(board.get_cell_index(i), Some(Entry::One));
    }
}

#[test]
fn test_first_unfilled_index() {
    assert_eq!(Board::empty().first_unfilled_index(), Some(0));
    assert_eq!(create_board().first_unfilled_index(), Some(2));
    let mut full = String::new();
    for _ in 0..9 {
        full.push_str("123456789");
    }
    assert_eq!(Board::from_text(&full).first_unfilled_index(), None);
}

#[test]
fn test_entry_successor() {
    assert_eq!(Entry::One.successor(), Some(Entry::Two));
    assert_eq!(Entry::Five.successor(), Some(Entry::Six));
    assert_eq!(Entry::Nine.successor(), None);
}

#[test]
fn test_entry_from_number() {
    assert_eq!(Entry::from_number(1), Some(Entry::One));
    assert_eq!(Entry::from_number(7), Some(Entry::Seven));
    assert_eq!(Entry::from_number(0), None);
    assert_eq!(Entry::from_number(10), None);
    assert_eq!(Entry::Three.number(), 3);
}

#[test]
fn test_cell_pos_to_index() {
    assert_eq!(sudoku_solver::board::cell_pos_to_index(0, 0), Some(0));
    assert_eq!(sudoku_solver::board::cell_pos_to_index(4, 2), Some(22));
    assert_eq!(sudoku_solver::board::cell_pos_to_index(9, 2), None);
    assert_eq!(sudoku_solver::board::cell_pos_to_index(2, 9), None);
}
