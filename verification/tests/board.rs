use cactpot_solver::{Board, BoardPosition, FillFailure, ValuedBoardPosition};

#[test]
fn fill_first_digit() {
    // Scenario: an empty board accepts digit 5 at (2, 1) and grows to one fill.
    let mut board = Board::default();
    assert_eq!(board.len(), 0);

    let res = board.fill(ValuedBoardPosition::from_u8(5, 2, 1));

    assert_eq!(res, Ok(()));
    assert_eq!(board.len(), 1);
}

#[test]
fn fill_duplicate_value() {
    // Scenario: after placing 5 at (2, 1), digit 5 cannot go anywhere else.
    let mut board = Board::default();
    board.fill(ValuedBoardPosition::from_u8(5, 2, 1)).unwrap();

    let res = board.fill(ValuedBoardPosition::from_u8(5, 0, 0));

    assert_eq!(res, Err(FillFailure::ValueAlreadyContained));
    assert_eq!(board.len(), 1);
}

#[test]
fn fill_occupied_position() {
    // Scenario: after placing 5 at (2, 1), no other digit fits that cell.
    let mut board = Board::default();
    board.fill(ValuedBoardPosition::from_u8(5, 2, 1)).unwrap();

    let res = board.fill(ValuedBoardPosition::from_u8(9, 2, 1));

    assert_eq!(res, Err(FillFailure::PositionAlreadyFilled));
    assert_eq!(board.len(), 1);
}

#[test]
fn value_conflict_reported_first() {
    // When both the digit and the position conflict, the digit conflict wins.
    let mut board = Board::default();
    board.fill(ValuedBoardPosition::from_u8(5, 2, 1)).unwrap();

    let res = board.fill(ValuedBoardPosition::from_u8(5, 2, 1));

    assert_eq!(res, Err(FillFailure::ValueAlreadyContained));
}

#[test]
fn col_positions() {
    // Each column line consists of the three cells of that column.
    let mut board = Board::default();
    board.fill(ValuedBoardPosition::from_u8(4, 1, 2)).unwrap();

    for col in 0u8..3 {
        let line = board.col(col);
        for k in 0..3 {
            assert_eq!(line.item(k).position().col(), col, "col {} item {}", col, k);
            assert_eq!(line.item(k).position().row(), k as u8, "col {} item {}", col, k);
        }
    }
}

#[test]
fn row_positions() {
    let board = Board::default();

    for row in 0u8..3 {
        let line = board.row(row);
        for k in 0..3 {
            assert_eq!(line.item(k).position().row(), row, "row {} item {}", row, k);
            assert_eq!(line.item(k).position().col(), k as u8, "row {} item {}", row, k);
        }
    }
}

#[test]
fn line_values_and_payouts() {
    // Rows {1,2,3}, {4,5,6}, {7,8,9} on a full board, with exact payouts.
    let mut board = Board::default();
    for i in 0u8..9 {
        let pos = BoardPosition::from_index(i);
        board
            .fill(ValuedBoardPosition::from_pos(i + 1, pos))
            .unwrap();
    }
    assert!(board.is_full());
    assert_eq!(board.remaining_capacity(), 0);

    assert_eq!(board.row(0).payout_value(), 10000); // 1+2+3 == 6
    assert_eq!(board.row(1).payout_value(), 180); // 4+5+6 == 15
    assert_eq!(board.row(2).payout_value(), 3600); // 7+8+9 == 24
    assert_eq!(board.col(0).payout_value(), 108); // 1+4+7 == 12
    assert_eq!(board.col(1).payout_value(), 180); // 2+5+8 == 15
    assert_eq!(board.col(2).payout_value(), 119); // 3+6+9 == 18
    assert_eq!(board.diag_tl_br().payout_value(), 180); // 1+5+9 == 15
    assert_eq!(board.diag_bl_tr().payout_value(), 180); // 7+5+3 == 15
}

#[test]
fn empty_cells_score_zero() {
    // Unfilled positions appear in lines as digit 0 placeholders.
    let board = Board::default();
    let line = board.diag_tl_br();
    for k in 0..3 {
        assert_eq!(line.item(k).value(), 0);
    }
    assert_eq!(line.payout_value(), 0);
}

#[test]
fn find_and_contains() {
    let mut board = Board::default();
    board.fill(ValuedBoardPosition::from_u8(7, 0, 2)).unwrap();

    let pos = BoardPosition::new(0, 2);
    assert!(board.contains_position(pos));
    assert!(board.contains_value(7));
    assert!(!board.contains_value(3));
    assert!(!board.contains_position(BoardPosition::new(1, 1)));

    let found = board.find(pos).unwrap();
    assert_eq!(found.value(), 7);
    assert_eq!(found.position(), pos);
    assert!(board.find(BoardPosition::new(1, 1)).is_none());
}

#[test]
fn available_selections_shrink() {
    let mut board = Board::default();
    assert_eq!(
        board.available_selections(),
        vec![1, 2, 3, 4, 5, 6, 7, 8, 9]
    );

    board.fill(ValuedBoardPosition::from_u8(4, 0, 0)).unwrap();
    board.fill(ValuedBoardPosition::from_u8(9, 1, 0)).unwrap();
    assert_eq!(board.available_selections(), vec![1, 2, 3, 5, 6, 7, 8]);
}

#[test]
fn clear_fills_resets() {
    let mut board = Board::default();
    board.fill(ValuedBoardPosition::from_u8(1, 0, 0)).unwrap();
    board.fill(ValuedBoardPosition::from_u8(2, 1, 0)).unwrap();
    assert_eq!(board.len(), 2);

    board.clear_fills();

    assert_eq!(board.len(), 0);
    assert_eq!(board.remaining_capacity(), 9);
    assert!(!board.contains_value(1));
}
