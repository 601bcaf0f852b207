use crate::bits::{bit, lemma_lone, lone};
use crate::grid::{anchor, group_mask, BOX, BOX_LOCS, COLUMN, ROW};
use crate::puzzle::NEW_BOARD;
use vstd::prelude::*;

verus! {

/// Whether a value is not zero and shares no bit with its predecessor.
spec fn power_of_two(x: u128) -> bool {
    x != 0 && x & ((x - 1) as u128) == 0
}

/// The folds of `quick_columns`, as one value.
spec fn columns_folded(b0: u128) -> u128 {
    let t1 = b0 & (b0 >> 27);
    let b1 = b0 | (b0 >> 27);
    let t2 = t1 | (b1 & (b1 >> 54));
    let b2 = (b1 | (b1 >> 54)) & 0o777_777_777;
    let t3 = t2 | (t2 >> 9);
    let t4 = t3 | (t3 >> 18);
    let t5 = t4 | (b2 & (b2 >> 9));
    let b3 = b2 | (b2 >> 9);
    let t6 = t5 | (b3 & (b3 >> 18));
    let b4 = b3 | (b3 >> 18);
    b4 & !t6 & ROW
}

/// What the folds of `quick_columns` give at bit `s`.
proof fn lemma_columns_folded(b: u128, s: u128)
    by (bit_vector)
    requires
        b <= NEW_BOARD,
        s < 128,
    ensures
        (columns_folded(b) >> s) & 1 == 1 ==> s < 9,
        s < 9 ==> ((columns_folded(b) >> s) & 1 == 1 <==> power_of_two(b & (COLUMN << s))),
{
}

/// The columns in which `board` has exactly one cell, one bit for each
/// column at the column's first cell.
pub fn quick_columns(board: u128) -> (r: u128)
    requires
        board <= NEW_BOARD,
    ensures
        forall|i: int| #[trigger] bit(r, i) ==> 0 <= i < 9,
        forall|g: int|
            18 <= g < 27 ==> bit(r, anchor(g)) == lone(board & #[trigger] group_mask(g)),
{
    let t1 = board & (board >> 27);
    let b1 = board | (board >> 27);
    let t2 = t1 | (b1 & (b1 >> 54));
    let b2 = (b1 | (b1 >> 54)) & 0o777_777_777;
    let t3 = t2 | (t2 >> 9);
    let t4 = t3 | (t3 >> 18);
    let t5 = t4 | (b2 & (b2 >> 9));
    let b3 = b2 | (b2 >> 9);
    let t6 = t5 | (b3 & (b3 >> 18));
    let b4 = b3 | (b3 >> 18);
    let r = b4 & !t6 & ROW;
    proof {
        assert(r == columns_folded(board));
        assert forall|i: int| #[trigger] bit(r, i) implies 0 <= i < 9 by {
            lemma_columns_folded(board, i as u128);
        }
        assert forall|g: int| 18 <= g < 27 implies bit(r, anchor(g)) == lone(
            board & #[trigger] group_mask(g),
        ) by {
            lemma_columns_folded(board, anchor(g) as u128);
            lemma_lone(board & group_mask(g));
        }
    }
    r
}

/// The folds of `quick_rows`, as one value.
spec fn rows_folded(b0: u128) -> u128 {
    let three_column = 0o007_007_007_007_007_007_007_007_007u128;
    let t1 = b0 & (b0 >> 3);
    let b1 = b0 | ((b0 >> 3) & three_column);
    let t2 = t1 | (b1 & (b1 >> 6));
    let b2 = (b1 | (b1 >> 6)) & three_column;
    let t3 = t2 | ((t2 >> 1) & COLUMN);
    let t4 = t3 | (t3 >> 2);
    let t5 = t4 | (b2 & (b2 >> 1));
    let b3 = b2 | (b2 >> 1);
    let t6 = t5 | (b3 & (b3 >> 2));
    let b4 = b3 | (b3 >> 2);
    b4 & !t6 & COLUMN
}

/// What the folds of `quick_rows` give at bit `s`.
proof fn lemma_rows_folded(b: u128, s: u128)
    by (bit_vector)
    requires
        b <= NEW_BOARD,
        s < 128,
    ensures
        (rows_folded(b) >> s) & 1 == 1 ==> (COLUMN >> s) & 1 == 1,
        (COLUMN >> s) & 1 == 1 ==> ((rows_folded(b) >> s) & 1 == 1 <==> power_of_two(
            b & (ROW << s),
        )),
        (COLUMN >> s) & 1 == 1 <==> (s == 0 || s == 9 || s == 18 || s == 27 || s == 36 || s == 45
            || s == 54 || s == 63 || s == 72),
{
}

/// The rows in which `board` has exactly one cell, one bit for each row
/// at the row's first cell.
pub fn quick_rows(board: u128) -> (r: u128)
    requires
        board <= NEW_BOARD,
    ensures
        forall|i: int| #[trigger] bit(r, i) ==> 0 <= i < 81 && i % 9 == 0,
        forall|g: int|
            9 <= g < 18 ==> bit(r, anchor(g)) == lone(board & #[trigger] group_mask(g)),
{
    let three_column: u128 = 0o007_007_007_007_007_007_007_007_007;
    let t1 = board & (board >> 3);
    let b1 = board | ((board >> 3) & three_column);
    let t2 = t1 | (b1 & (b1 >> 6));
    let b2 = (b1 | (b1 >> 6)) & three_column;
    let t3 = t2 | ((t2 >> 1) & COLUMN);
    let t4 = t3 | (t3 >> 2);
    let t5 = t4 | (b2 & (b2 >> 1));
    let b3 = b2 | (b2 >> 1);
    let t6 = t5 | (b3 & (b3 >> 2));
    let b4 = b3 | (b3 >> 2);
    let r = b4 & !t6 & COLUMN;
    proof {
        assert(r == rows_folded(board));
        assert forall|i: int| #[trigger] bit(r, i) implies 0 <= i < 81 && i % 9 == 0 by {
            lemma_rows_folded(board, i as u128);
        }
        assert forall|g: int| 9 <= g < 18 implies bit(r, anchor(g)) == lone(
            board & #[trigger] group_mask(g),
        ) by {
            lemma_rows_folded(board, anchor(g) as u128);
            lemma_lone(board & group_mask(g));
        }
    }
    r
}

/// The folds of `quick_boxes`, as one value.
spec fn boxes_folded(b0: u128) -> u128 {
    let three_row = 0o000_000_777_000_000_777_000_000_777u128;
    let t1 = b0 & (b0 >> 9);
    let b1 = b0 | ((b0 >> 9) & three_row);
    let t2 = t1 | (b1 & (b1 >> 18));
    let b2 = (b1 | (b1 >> 18)) & three_row;
    let t3 = t2 | ((t2 >> 1) & BOX_LOCS);
    let t4 = t3 | (t3 >> 2);
    let t5 = t4 | (b2 & (b2 >> 1));
    let b3 = b2 | ((b2 >> 1) & BOX_LOCS);
    let t6 = t5 | (b3 & (b3 >> 2));
    let b4 = b3 | (b3 >> 2);
    b4 & !t6 & BOX_LOCS
}

/// What the folds of `quick_boxes` give at bit `s`.
proof fn lemma_boxes_folded(b: u128, s: u128)
    by (bit_vector)
    requires
        b <= NEW_BOARD,
        s < 128,
    ensures
        (boxes_folded(b) >> s) & 1 == 1 ==> (BOX_LOCS >> s) & 1 == 1,
        (BOX_LOCS >> s) & 1 == 1 ==> ((boxes_folded(b) >> s) & 1 == 1 <==> power_of_two(
            b & (BOX << s),
        )),
        (BOX_LOCS >> s) & 1 == 1 <==> (s == 0 || s == 3 || s == 6 || s == 27 || s == 30 || s == 33
            || s == 54 || s == 57 || s == 60),
{
}

/// The boxes in which `board` has exactly one cell, one bit for each box
/// at the box's first cell.
pub fn quick_boxes(board: u128) -> (r: u128)
    requires
        board <= NEW_BOARD,
    ensures
        forall|i: int| #[trigger] bit(r, i) ==> 0 <= i < 61 && i % 3 == 0 && i / 9 % 3 == 0,
        forall|g: int| 0 <= g < 9 ==> bit(r, anchor(g)) == lone(board & #[trigger] group_mask(g)),
{
    let three_row: u128 = 0o000_000_777_000_000_777_000_000_777;
    let t1 = board & (board >> 9);
    let b1 = board | ((board >> 9) & three_row);
    let t2 = t1 | (b1 & (b1 >> 18));
    let b2 = (b1 | (b1 >> 18)) & three_row;
    let t3 = t2 | ((t2 >> 1) & BOX_LOCS);
    let t4 = t3 | (t3 >> 2);
    let t5 = t4 | (b2 & (b2 >> 1));
    let b3 = b2 | ((b2 >> 1) & BOX_LOCS);
    let t6 = t5 | (b3 & (b3 >> 2));
    let b4 = b3 | (b3 >> 2);
    let r = b4 & !t6 & BOX_LOCS;
    proof {
        assert(r == boxes_folded(board));
        assert forall|i: int| #[trigger] bit(r, i) implies 0 <= i < 61 && i % 3 == 0 && i / 9 % 3
            == 0 by {
            lemma_boxes_folded(board, i as u128);
        }
        assert forall|g: int| 0 <= g < 9 implies bit(r, anchor(g)) == lone(
            board & #[trigger] group_mask(g),
        ) by {
            lemma_boxes_folded(board, anchor(g) as u128);
            lemma_lone(board & group_mask(g));
        }
    }
    r
}

/// Whether `board` holds one of the three cells side by side that start
/// at cell `s`.
pub open spec fn in_horiz_triad(board: u128, s: int) -> bool {
    board & (0o7u128 << (s as u128)) != 0
}

/// Whether `board` holds one of the three cells below each other that
/// start at cell `s`.
pub open spec fn in_vert_triad(board: u128, s: int) -> bool {
    board & (0o1_001_001u128 << (s as u128)) != 0
}

/// Exactly one of three holds.
pub open spec fn one_of(a: bool, b: bool, c: bool) -> bool {
    (a && !b && !c) || (!a && b && !c) || (!a && !b && c)
}

/// One bit for each horizontal triad that holds a cell of the board.
spec fn horiz_triads(b0: u128) -> u128 {
    let three_column = 0o111_111_111_111_111_111_111_111_111u128;
    let b1 = b0 | ((b0 >> 1) & three_column);
    (b1 | (b1 >> 2)) & three_column
}

/// The second result of `quick_horiz_triads`, as one value.
spec fn horiz_boxes_folded(b0: u128) -> u128 {
    let b = horiz_triads(b0);
    let t1 = b & (b >> 9);
    let b1 = b | ((b >> 9) & BOX_LOCS);
    let t2 = t1 | (b1 & (b1 >> 18));
    let b2 = b1 | (b1 >> 18);
    b2 & (!t2 & BOX_LOCS)
}

/// The first result of `quick_horiz_triads`, as one value.
spec fn horiz_rows_folded(b0: u128) -> u128 {
    let b = horiz_triads(b0);
    let t1 = b & (b >> 3) & COLUMN;
    let b1 = b | ((b >> 3) & COLUMN);
    let t2 = t1 | (b1 & (b1 >> 6) & COLUMN);
    let b2 = b1 | (b1 >> 6);
    b2 & COLUMN & !t2
}

/// What the folds of `quick_horiz_triads` give at bit `s`.
proof fn lemma_horiz_folded(b: u128, s: u128)
    by (bit_vector)
    requires
        b <= NEW_BOARD,
        s < 128,
    ensures
        (horiz_rows_folded(b) >> s) & 1 == 1 ==> (COLUMN >> s) & 1 == 1,
        (COLUMN >> s) & 1 == 1 ==> ((horiz_rows_folded(b) >> s) & 1 == 1 <==> one_of(
            b & (0o7u128 << s) != 0,
            b & (0o7u128 << ((s + 3) as u128)) != 0,
            b & (0o7u128 << ((s + 6) as u128)) != 0,
        )),
        (COLUMN >> s) & 1 == 1 <==> (s == 0 || s == 9 || s == 18 || s == 27 || s == 36 || s == 45
            || s == 54 || s == 63 || s == 72),
        (horiz_boxes_folded(b) >> s) & 1 == 1 ==> (BOX_LOCS >> s) & 1 == 1,
        (BOX_LOCS >> s) & 1 == 1 ==> ((horiz_boxes_folded(b) >> s) & 1 == 1 <==> one_of(
            b & (0o7u128 << s) != 0,
            b & (0o7u128 << ((s + 9) as u128)) != 0,
            b & (0o7u128 << ((s + 18) as u128)) != 0,
        )),
        (BOX_LOCS >> s) & 1 == 1 <==> (s == 0 || s == 3 || s == 6 || s == 27 || s == 30 || s == 33
            || s == 54 || s == 57 || s == 60),
{
}

/// The rows, and the boxes, in which `board` lies within a single
/// horizontal triad: the first mask has one bit for each such row at the
/// row's first cell, the second one bit for each such box at the box's
/// first cell.
pub fn quick_horiz_triads(board: u128) -> (r: (u128, u128))
    requires
        board <= NEW_BOARD,
    ensures
        forall|i: int| #[trigger] bit(r.0, i) ==> 0 <= i < 81 && i % 9 == 0,
        forall|g: int|
            #![trigger anchor(g)]
            9 <= g < 18 ==> bit(r.0, anchor(g)) == one_of(
                in_horiz_triad(board, anchor(g)),
                in_horiz_triad(board, anchor(g) + 3),
                in_horiz_triad(board, anchor(g) + 6),
            ),
        forall|i: int| #[trigger] bit(r.1, i) ==> 0 <= i < 61 && i % 3 == 0 && i / 9 % 3 == 0,
        forall|g: int|
            #![trigger anchor(g)]
            0 <= g < 9 ==> bit(r.1, anchor(g)) == one_of(
                in_horiz_triad(board, anchor(g)),
                in_horiz_triad(board, anchor(g) + 9),
                in_horiz_triad(board, anchor(g) + 18),
            ),
{
    let three_column: u128 = 0o111_111_111_111_111_111_111_111_111;
    let b1 = board | ((board >> 1) & three_column);
    let triads = (b1 | (b1 >> 2)) & three_column;

    let t1 = triads & (triads >> 9);
    let c1 = triads | ((triads >> 9) & BOX_LOCS);
    let t2 = t1 | (c1 & (c1 >> 18));
    let c2 = c1 | (c1 >> 18);
    let boxes = c2 & (!t2 & BOX_LOCS);

    let u1 = triads & (triads >> 3) & COLUMN;
    let d1 = triads | ((triads >> 3) & COLUMN);
    let u2 = u1 | (d1 & (d1 >> 6) & COLUMN);
    let d2 = d1 | (d1 >> 6);
    let rows = d2 & COLUMN & !u2;
    proof {
        assert(rows == horiz_rows_folded(board));
        assert(boxes == horiz_boxes_folded(board));
        assert forall|i: int| #[trigger] bit(rows, i) implies 0 <= i < 81 && i % 9 == 0 by {
            lemma_horiz_folded(board, i as u128);
        }
        assert forall|i: int| #[trigger] bit(boxes, i) implies 0 <= i < 61 && i % 3 == 0 && i / 9
            % 3 == 0 by {
            lemma_horiz_folded(board, i as u128);
        }
        assert forall|g: int| #![trigger anchor(g)] 9 <= g < 18 implies bit(rows, anchor(g))
            == one_of(
            in_horiz_triad(board, anchor(g)),
            in_horiz_triad(board, anchor(g) + 3),
            in_horiz_triad(board, anchor(g) + 6),
        ) by {
            lemma_horiz_folded(board, anchor(g) as u128);
        }
        assert forall|g: int| #![trigger anchor(g)] 0 <= g < 9 implies bit(boxes, anchor(g))
            == one_of(
            in_horiz_triad(board, anchor(g)),
            in_horiz_triad(board, anchor(g) + 9),
            in_horiz_triad(board, anchor(g) + 18),
        ) by {
            lemma_horiz_folded(board, anchor(g) as u128);
        }
    }
    (rows, boxes)
}

/// One bit for each vertical triad that holds a cell of the board.
spec fn vert_triads(b0: u128) -> u128 {
    let three_row = 0o000_000_777_000_000_777_000_000_777u128;
    let b1 = b0 | ((b0 >> 9) & three_row);
    (b1 | (b1 >> 18)) & three_row
}

/// The second result of `quick_vert_triads`, as one value.
spec fn vert_boxes_folded(b0: u128) -> u128 {
    let b = vert_triads(b0);
    let t1 = b & (b >> 1);
    let b1 = b | ((b >> 1) & BOX_LOCS);
    let t2 = t1 | (b1 & (b1 >> 2));
    let b2 = b1 | (b1 >> 2);
    b2 & (!t2 & BOX_LOCS)
}

/// The first result of `quick_vert_triads`, as one value.
spec fn vert_columns_folded(b0: u128) -> u128 {
    let b = vert_triads(b0);
    let t1 = b & (b >> 27);
    let b1 = b | (b >> 27);
    let t2 = t1 | (b1 & (b1 >> 54));
    let b2 = b1 | (b1 >> 54);
    b2 & ROW & !t2
}

/// What the folds of `quick_vert_triads` give at bit `s`.
proof fn lemma_vert_folded(b: u128, s: u128)
    by (bit_vector)
    requires
        b <= NEW_BOARD,
        s < 128,
    ensures
        (vert_columns_folded(b) >> s) & 1 == 1 ==> s < 9,
        s < 9 ==> ((vert_columns_folded(b) >> s) & 1 == 1 <==> one_of(
            b & (0o1_001_001u128 << s) != 0,
            b & (0o1_001_001u128 << ((s + 27) as u128)) != 0,
            b & (0o1_001_001u128 << ((s + 54) as u128)) != 0,
        )),
        (vert_boxes_folded(b) >> s) & 1 == 1 ==> (BOX_LOCS >> s) & 1 == 1,
        (BOX_LOCS >> s) & 1 == 1 ==> ((vert_boxes_folded(b) >> s) & 1 == 1 <==> one_of(
            b & (0o1_001_001u128 << s) != 0,
            b & (0o1_001_001u128 << ((s + 1) as u128)) != 0,
            b & (0o1_001_001u128 << ((s + 2) as u128)) != 0,
        )),
        (BOX_LOCS >> s) & 1 == 1 <==> (s == 0 || s == 3 || s == 6 || s == 27 || s == 30 || s == 33
            || s == 54 || s == 57 || s == 60),
{
}

/// The columns, and the boxes, in which `board` lies within a single
/// vertical triad: the first mask has one bit for each such column at the
/// column's first cell, the second one bit for each such box at the box's
/// first cell.
pub fn quick_vert_triads(board: u128) -> (r: (u128, u128))
    requires
        board <= NEW_BOARD,
    ensures
        forall|i: int| #[trigger] bit(r.0, i) ==> 0 <= i < 9,
        forall|g: int|
            #![trigger anchor(g)]
            18 <= g < 27 ==> bit(r.0, anchor(g)) == one_of(
                in_vert_triad(board, anchor(g)),
                in_vert_triad(board, anchor(g) + 27),
                in_vert_triad(board, anchor(g) + 54),
            ),
        forall|i: int| #[trigger] bit(r.1, i) ==> 0 <= i < 61 && i % 3 == 0 && i / 9 % 3 == 0,
        forall|g: int|
            #![trigger anchor(g)]
            0 <= g < 9 ==> bit(r.1, anchor(g)) == one_of(
                in_vert_triad(board, anchor(g)),
                in_vert_triad(board, anchor(g) + 1),
                in_vert_triad(board, anchor(g) + 2),
            ),
{
    let three_row: u128 = 0o000_000_777_000_000_777_000_000_777;
    let b1 = board | ((board >> 9) & three_row);
    let triads = (b1 | (b1 >> 18)) & three_row;

    let t1 = triads & (triads >> 1);
    let c1 = triads | ((triads >> 1) & BOX_LOCS);
    let t2 = t1 | (c1 & (c1 >> 2));
    let c2 = c1 | (c1 >> 2);
    let boxes = c2 & (!t2 & BOX_LOCS);

    let u1 = triads & (triads >> 27);
    let d1 = triads | (triads >> 27);
    let u2 = u1 | (d1 & (d1 >> 54));
    let d2 = d1 | (d1 >> 54);
    let columns = d2 & ROW & !u2;
    proof {
        assert(columns == vert_columns_folded(board));
        assert(boxes == vert_boxes_folded(board));
        assert forall|i: int| #[trigger] bit(columns, i) implies 0 <= i < 9 by {
            lemma_vert_folded(board, i as u128);
        }
        assert forall|i: int| #[trigger] bit(boxes, i) implies 0 <= i < 61 && i % 3 == 0 && i / 9
            % 3 == 0 by {
            lemma_vert_folded(board, i as u128);
        }
        assert forall|g: int|
            #![trigger anchor(g)]
            18 <= g < 27 implies bit(columns, anchor(g)) == one_of(
            in_vert_triad(board, anchor(g)),
            in_vert_triad(board, anchor(g) + 27),
            in_vert_triad(board, anchor(g) + 54),
        ) by {
            lemma_vert_folded(board, anchor(g) as u128);
        }
        assert forall|g: int| #![trigger anchor(g)] 0 <= g < 9 implies bit(boxes, anchor(g))
            == one_of(
            in_vert_triad(board, anchor(g)),
            in_vert_triad(board, anchor(g) + 1),
            in_vert_triad(board, anchor(g) + 2),
        ) by {
            lemma_vert_folded(board, anchor(g) as u128);
        }
    }
    (columns, boxes)
}

} // verus!
