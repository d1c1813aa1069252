use cactpot_solver::{BoardPosition, DiagRow};

#[test]
fn default() {
    assert_eq!(BoardPosition::default(), BoardPosition::from_index(0))
}

#[test]
fn never() {
    assert_eq!(
        BoardPosition::never(),
        BoardPosition {
            col: u8::MAX,
            row: u8::MAX,
            index: u8::MAX,
        }
    )
}

#[test]
fn new() {
    for col in 0u8..3 {
        for row in 0u8..3 {
            let pos = BoardPosition::new(col, row);

            assert_eq!(pos.col(), col, "Col at {},{}", col, row);
            assert_eq!(pos.row(), row, "Row at {},{}", col, row);
        }
    }
}

#[test]
fn diag_row() {
    let specs = [
        DiagRow::TopLeftBottomRight,
        DiagRow::Neither,
        DiagRow::BottomLeftTopRight,
        DiagRow::Neither,
        DiagRow::Both,
        DiagRow::Neither,
        DiagRow::BottomLeftTopRight,
        DiagRow::Neither,
        DiagRow::TopLeftBottomRight,
    ];
    for i in 0..specs.len() {
        let pos = BoardPosition::from_index(i as u8);
        assert_eq!(pos.diag_row(), specs[i], "{}, {}", pos.col, pos.row);
    }
}

#[test]
fn eq_board() {
    let a = BoardPosition {
        col: 0,
        row: 0,
        index: 0,
    };
    let b = BoardPosition {
        col: 0,
        row: 0,
        index: 0,
    };
    assert_eq!(a, b);
}

#[test]
fn from_index() {
    let exps = [
        BoardPosition::new(0, 0),
        BoardPosition::new(1, 0),
        BoardPosition::new(2, 0),
        BoardPosition::new(0, 1),
        BoardPosition::new(1, 1),
        BoardPosition::new(2, 1),
        BoardPosition::new(0, 2),
        BoardPosition::new(1, 2),
        BoardPosition::new(2, 2),
    ];

    for i in 0..exps.len() {
        let fi = BoardPosition::from_index(i as u8);
        let e = exps[i];
        assert_eq!(fi, e, "{},{} (idx {})", e.col, e.row, e.index);
    }
}
