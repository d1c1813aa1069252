use cactpot_solver::end_row::EndRow;
use cactpot_solver::{BoardPosition, DiagRow, ValuedBoardPosition};

type VBP = ValuedBoardPosition;

fn std_vbp(val_a: u8, val_b: u8, val_c: u8) -> [VBP; 3] {
    [
        VBP::from_pos(val_a, BoardPosition::default()),
        VBP::from_pos(val_b, BoardPosition::default()),
        VBP::from_pos(val_c, BoardPosition::default()),
    ]
}

#[test]
fn get_diag_row() {
    type Spec = (VBP, VBP, VBP, DiagRow);
    fn mkspec(a: [u8; 2], b: [u8; 2], c: [u8; 2], exp: DiagRow) -> Spec {
        (
            VBP::from_u8(1, a[0], a[1]),
            VBP::from_u8(1, b[0], b[1]),
            VBP::from_u8(1, c[0], c[1]),
            exp,
        )
    }
    let specs = [
        mkspec([0, 0], [1, 1], [2, 2], DiagRow::TopLeftBottomRight),
        mkspec([0, 2], [1, 1], [2, 0], DiagRow::BottomLeftTopRight),
        mkspec([0, 2], [1, 1], [2, 1], DiagRow::Neither),
        mkspec([0, 0], [1, 1], [2, 0], DiagRow::Neither),
        mkspec([0, 2], [1, 1], [1, 0], DiagRow::Neither),
        mkspec([0, 2], [0, 1], [2, 0], DiagRow::Neither),
        mkspec([0, 2], [1, 0], [2, 0], DiagRow::Neither),
        mkspec([1, 2], [1, 1], [2, 0], DiagRow::Neither),
    ];

    for (a, b, c, exp) in specs.iter() {
        let row = cactpot_solver::end_row::get_diag_row(*a, *b, *c);
        assert_eq!(
            exp,
            &row,
            "{:?} | {:?}  {:?}",
            a.position(),
            b.position(),
            c.position()
        );
    }
}

#[test]
fn get_column() {
    type Spec = (u8, u8, u8, Option<u8>);
    let specs: [Spec; 5] = [
        (1, 1, 1, Some(1)),
        (0, 1, 1, None),
        (1, 0, 1, None),
        (0, 0, 1, None),
        (0, 0, 0, Some(0)),
    ];
    for (a, b, c, expectation) in specs.iter() {
        let row = {
            let a = VBP::from_u8(1, *a, 1);
            let b = VBP::from_u8(1, *b, 1);
            let c = VBP::from_u8(1, *c, 1);

            EndRow::new(a, b, c)
        };

        assert_eq!(*expectation, row.get_column(), "{}, {}, {}", a, b, c);
    }
}

#[test]
fn point_sum() {
    let [a, b, c] = std_vbp(9, 4, 7);

    let res = cactpot_solver::end_row::point_sum(a, b, c);
    assert_eq!(res, 20);
}

#[test]
fn payout_value() {
    let [a, b, c] = std_vbp(1, 2, 3);
    let [d, e, f] = std_vbp(9, 7, 4);

    let r1 = EndRow::new(a, b, c);
    let r2 = EndRow::new(d, e, f);

    assert_eq!(10000, r1.payout_value(), "EndRow 1");
    assert_eq!(306, r2.payout_value(), "EndRow 2");
}

#[test]
fn has_column() {
    fn mkrow(pos_1: u8, pos_2: u8, pos_3: u8) -> EndRow {
        let a = VBP::from_pos(1, BoardPosition::new(pos_1, 0));
        let b = VBP::from_pos(1, BoardPosition::new(pos_2, 0));
        let c = VBP::from_pos(1, BoardPosition::new(pos_3, 0));

        EndRow::new(a, b, c)
    }

    type Spec = (EndRow, u8, bool);
    let specs: [Spec; 4] = [
        (mkrow(0, 1, 2), 0, true),
        (mkrow(1, 0, 2), 0, true),
        (mkrow(2, 1, 0), 0, true),
        (mkrow(1, 1, 1), 0, false),
    ];

    for (row, col, exp) in specs.iter() {
        assert_eq!(row.has_column(*col), *exp, "{:?}", row);
    }
}

#[test]
fn ord() {
    let [a, b, c] = std_vbp(1, 2, 3);
    let [d, e, f] = std_vbp(9, 7, 4);
    let [g, h, i] = std_vbp(6, 3, 7);

    let r1 = EndRow::new(a, b, c); // 10000
    let r2 = EndRow::new(d, e, f); // 306
    let r3 = EndRow::new(g, h, i); // 72

    let mut arr = [&r2, &r1, &r3];
    arr.sort_unstable_by_key(|r| r.payout_value());

    assert_eq!([&r3, &r2, &r1], arr);
}

#[test]
fn index() {
    let [a, b, c] = std_vbp(1, 2, 3);
    let r = EndRow::new(a, b, c);

    assert_eq!(r.item(0), a, "a");
    assert_eq!(r.item(1), b, "b");
    assert_eq!(r.item(2), c, "c");
}
