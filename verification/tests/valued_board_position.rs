use cactpot_solver::{BoardPosition, ValuedBoardPosition};

#[test]
fn from_pos() {
    for value in 1u8..9 {
        for col in 0u8..3 {
            for row in 0u8..3 {
                let actual = ValuedBoardPosition::from_pos(value, BoardPosition::new(col, row));
                let exp = ValuedBoardPosition {
                    value,
                    position: BoardPosition::new(col, row),
                };

                assert_eq!(exp, actual, "{} @ {},{}", value, col, row);
            }
        }
    }
}

#[test]
fn from_u8() {
    for value in 1u8..9 {
        for col in 0u8..3 {
            for row in 0u8..3 {
                let actual = ValuedBoardPosition::from_u8(value, col, row);
                let exp = ValuedBoardPosition {
                    value,
                    position: BoardPosition::new(col, row),
                };

                assert_eq!(exp, actual, "{} @ {},{}", value, col, row);
            }
        }
    }
}

#[test]
fn empty() {
    for pos_idx in 0u8..9 {
        let pos = BoardPosition::from_index(pos_idx);
        let actual = ValuedBoardPosition::empty(pos);
        let exp = ValuedBoardPosition {
            value: 0,
            position: BoardPosition::from_index(pos_idx),
        };

        assert_eq!(exp, actual, "{},{}", pos.col, pos.row);
    }
}
