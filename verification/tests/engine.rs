use cactpot_solver::end_board::{factorial, BoardIterator, DiagOrientation};
use cactpot_solver::{Board, Recommendation, RecommendationFailure, ValuedBoardPosition};

fn board_with_fills(fills: &[(u8, u8, u8)]) -> Board {
    let mut board = Board::default();
    for (value, col, row) in fills.iter() {
        board
            .fill(ValuedBoardPosition::from_u8(*value, *col, *row))
            .unwrap();
    }
    board
}

#[test]
fn factorial_values() {
    assert_eq!(factorial(0), 0);
    assert_eq!(factorial(1), 1);
    assert_eq!(factorial(4), 24);
    assert_eq!(factorial(8), 40320);
}

#[test]
fn enumeration_count_one_fill() {
    // A board with one fill has exactly 8! completions.
    let board = board_with_fills(&[(5, 2, 1)]);
    let completions = BoardIterator::new(&board).iterate();
    assert_eq!(completions.len(), 40320);
}

#[test]
fn enumeration_count_and_consistency() {
    // A board with six fills has exactly 3! completions, each a full board
    // that keeps the starting fills.
    let board = board_with_fills(&[
        (1, 0, 0),
        (2, 1, 0),
        (3, 2, 0),
        (4, 0, 1),
        (5, 1, 1),
        (6, 2, 1),
    ]);
    let completions = BoardIterator::new(&board).iterate();
    assert_eq!(completions.len(), 6);

    for pb in completions.iter() {
        assert_eq!(pb.board.len(), 9);
        for (value, col, row) in [(1u8, 0u8, 0u8), (5, 1, 1), (6, 2, 1)].iter() {
            let found = pb
                .board
                .find(cactpot_solver::BoardPosition::new(*col, *row))
                .unwrap();
            assert_eq!(found.value(), *value);
        }
    }
}

#[test]
fn enumeration_distinct() {
    // With seven fills the two remaining digits can be placed two ways, and
    // the two completions differ on the open cells.
    let board = board_with_fills(&[
        (1, 0, 0),
        (2, 1, 0),
        (3, 2, 0),
        (4, 0, 1),
        (5, 1, 1),
        (6, 2, 1),
        (7, 0, 2),
    ]);
    let completions = BoardIterator::new(&board).iterate();
    assert_eq!(completions.len(), 2);

    let cell = cactpot_solver::BoardPosition::new(1, 2);
    let d0 = completions[0].board.find(cell).unwrap().value();
    let d1 = completions[1].board.find(cell).unwrap().value();
    assert_ne!(d0, d1);
    assert_eq!([d0.min(d1), d0.max(d1)], [8, 9]);
}

#[test]
fn averages_of_single_completion() {
    // With eight fills only one completion remains (digit 9 on the last
    // cell), so every average equals that completion's payout.
    let board = board_with_fills(&[
        (1, 0, 0),
        (2, 1, 0),
        (3, 2, 0),
        (4, 0, 1),
        (5, 1, 1),
        (6, 2, 1),
        (7, 0, 2),
        (8, 1, 2),
    ]);
    let endings = board.available_endings();

    assert_eq!(endings.avg_for_col(0), 108); // 1+4+7 == 12
    assert_eq!(endings.avg_for_col(1), 180); // 2+5+8 == 15
    assert_eq!(endings.avg_for_col(2), 119); // 3+6+9 == 18
    assert_eq!(endings.avg_for_row(0), 10000); // 1+2+3 == 6
    assert_eq!(endings.avg_for_row(1), 180); // 4+5+6 == 15
    assert_eq!(endings.avg_for_row(2), 3600); // 7+8+9 == 24
    assert_eq!(
        endings.avg_for_diag_row(DiagOrientation::TopLeftBottomRight),
        180
    ); // 1+5+9 == 15
    assert_eq!(
        endings.avg_for_diag_row(DiagOrientation::BottomLeftTopRight),
        180
    ); // 7+5+3 == 15
}

#[test]
fn recommendation_board_empty() {
    // Scenario: no fills yet, the recommendation refuses.
    let board = Board::default();
    let res = Recommendation::from_board(&board);
    assert!(matches!(res, Err(RecommendationFailure::BoardEmpty)));
}

#[test]
fn recommendation_too_many_fills() {
    // Scenario: five fills are past the point of recommending.
    let board = board_with_fills(&[(1, 0, 0), (2, 1, 0), (3, 2, 0), (4, 0, 1), (5, 1, 1)]);
    let res = Recommendation::from_board(&board);
    assert!(matches!(res, Err(RecommendationFailure::TooManyFills)));
}

#[test]
fn recommendation_suggests_empty_cells() {
    // Suggestions are always a subset of the currently empty positions.
    let board = board_with_fills(&[(5, 2, 1), (1, 0, 0), (9, 1, 2)]);
    let rec = Recommendation::from_board(&board).unwrap();

    assert!(!rec.suggestions().is_empty());
    for pos in rec.suggestions().iter() {
        assert!(
            !board.contains_position(*pos),
            "suggested filled cell {:?}",
            pos
        );
    }
}

#[test]
fn recommendation_lowers_threshold() {
    // Column 0 revealed as {1,2,3}: its line pays 10000 in every completion,
    // so its average is the strict maximum, but all of its cells are filled.
    // No empty cell matches the top threshold, so the engine must retry at
    // the next-highest average, and every suggestion must match that one.
    let board = board_with_fills(&[(1, 0, 0), (2, 0, 1), (3, 0, 2)]);
    let rec = Recommendation::from_board(&board).unwrap();

    assert_eq!(rec.avg_col()[0], 10000);
    assert_eq!(rec.max_avg(), 10000);

    let avgs = [
        rec.avg_col()[0],
        rec.avg_col()[1],
        rec.avg_col()[2],
        rec.avg_row()[0],
        rec.avg_row()[1],
        rec.avg_row()[2],
        rec.avg_tl_br(),
        rec.avg_bl_tr(),
    ];
    // The filled column's average is the only one that reaches 10000.
    for a in avgs.iter().skip(1) {
        assert!(*a < 10000, "average {} reaches the maximum", a);
    }
    let fallback = *avgs.iter().filter(|a| **a < 10000).max().unwrap();

    assert!(!rec.suggestions().is_empty());
    for pos in rec.suggestions().iter() {
        assert_ne!(pos.col(), 0, "suggested a cell of the filled column");
        let on_tl_br = pos.col() == pos.row();
        let on_bl_tr = pos.col() + pos.row() == 2;
        let matches = rec.avg_col()[pos.col() as usize] == fallback
            || rec.avg_row()[pos.row() as usize] == fallback
            || (on_tl_br && rec.avg_tl_br() == fallback)
            || (on_bl_tr && rec.avg_bl_tr() == fallback);
        assert!(
            matches,
            "cell ({},{}) does not match the fallback threshold {}",
            pos.col(),
            pos.row(),
            fallback
        );
    }
}

#[test]
fn recommendation_max_is_max_of_averages() {
    let board = board_with_fills(&[(5, 2, 1)]);
    let rec = Recommendation::from_board(&board).unwrap();

    let mut avgs = Vec::new();
    avgs.extend_from_slice(rec.avg_col());
    avgs.extend_from_slice(rec.avg_row());
    avgs.push(rec.avg_tl_br());
    avgs.push(rec.avg_bl_tr());

    assert_eq!(rec.max_avg(), *avgs.iter().max().unwrap());
    assert_eq!(avgs.len(), 8);
}

#[test]
fn recommendation_matches_direct_averages() {
    // The recommendation's stored averages agree with the enumeration's.
    let board = board_with_fills(&[(3, 1, 1), (7, 0, 2)]);
    let rec = Recommendation::from_board(&board).unwrap();
    let endings = board.available_endings();

    for col in 0u8..3 {
        assert_eq!(rec.avg_col()[col as usize], endings.avg_for_col(col));
    }
    for row in 0u8..3 {
        assert_eq!(rec.avg_row()[row as usize], endings.avg_for_row(row));
    }
    assert_eq!(
        rec.avg_tl_br(),
        endings.avg_for_diag_row(DiagOrientation::TopLeftBottomRight)
    );
    assert_eq!(
        rec.avg_bl_tr(),
        endings.avg_for_diag_row(DiagOrientation::BottomLeftTopRight)
    );
}
