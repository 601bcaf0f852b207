use sudoku2::{
    gen_group_table, gen_square_table, quick_boxes, quick_columns, quick_horiz_triads, quick_rows,
    quick_vert_triads, LocIter, BOX, COLUMN, NEW_BOARD, ROW,
};

fn naive(board: u128, from: usize, first_cell: fn(usize) -> usize) -> u128 {
    let groups = gen_group_table();
    let mut out: u128 = 0;
    for k in 0..9usize {
        let hit = board & groups[from + k];
        if hit.is_power_of_two() {
            out |= 1 << first_cell(k);
        }
    }
    out
}

fn naive_rows(board: u128) -> u128 {
    naive(board, 9, |r| r * 9)
}

fn naive_columns(board: u128) -> u128 {
    naive(board, 18, |c| c)
}

fn naive_boxes(board: u128) -> u128 {
    naive(board, 0, |b| b % 3 * 3 + b / 3 * 27)
}

#[test]
fn group_table_holds_boxes_rows_columns() {
    let g = gen_group_table();
    assert_eq!(g[0], BOX);
    assert_eq!(g[0], 0x1c0e07);
    assert_eq!(g[1], 0xe07038);
    assert_eq!(g[4], 0x70381c0000000);
    assert_eq!(g[8], 0x1c0e07000000000000000);
    assert_eq!(g[9], ROW);
    assert_eq!(g[9], 0x1ff);
    assert_eq!(g[17], 0x1ff000000000000000000);
    assert_eq!(g[18], COLUMN);
    assert_eq!(g[18], 0x1008040201008040201);
    assert_eq!(g[26], 0x100804020100804020100);
    let mut all: u128 = 0;
    for k in 0..27usize {
        assert_eq!(g[k].count_ones(), 9);
        all |= g[k];
    }
    assert_eq!(all, NEW_BOARD);
}

#[test]
fn square_table_clears_the_peers() {
    let s = gen_square_table();
    assert_eq!(s[0], 0xfffffffffffffeff7fbfdfeff7e3f001);
    assert_eq!(s[40], 0xffffffffffffeff7fbf8e10e3fbfdfef);
    assert_eq!(s[80], 0xffffffffffff001f8fdfeff7fbfdfeff);
    for c in 0..81usize {
        assert_eq!((!s[c]).count_ones(), 20);
        assert!(s[c] & (1 << c) != 0);
    }
}

#[test]
fn scanners_on_empty_and_full_board() {
    assert_eq!(quick_rows(0), 0);
    assert_eq!(quick_columns(0), 0);
    assert_eq!(quick_boxes(0), 0);
    assert_eq!(quick_rows(NEW_BOARD), 0);
    assert_eq!(quick_columns(NEW_BOARD), 0);
    assert_eq!(quick_boxes(NEW_BOARD), 0);
}

#[test]
fn scanners_find_a_single_cell() {
    for c in 0..81usize {
        let board: u128 = 1 << c;
        assert_eq!(quick_rows(board), 1 << (c / 9 * 9));
        assert_eq!(quick_columns(board), 1 << (c % 9));
        assert_eq!(quick_boxes(board), 1 << (c / 27 * 27 + c % 9 / 3 * 3));
    }
    assert_eq!(quick_rows(1 << 80), 0x1000000000000000000);
    assert_eq!(quick_columns(1 << 80), 0x100);
    assert_eq!(quick_boxes(1 << 80), 0x1000000000000000);
}

#[test]
fn row_scanner_keeps_rows_apart() {
    // one cell in row 0 and one in row 1, three columns apart
    let board: u128 = (1 << 3) | (1 << 9);
    assert_eq!(quick_rows(board), 0x201);
    assert_eq!(quick_columns(board), 0x9);
    assert_eq!(quick_boxes(board), 0x9);
}

#[test]
fn scanners_agree_with_group_table() {
    let mut x: u128 = 0x186c10030b8300000160f;
    for _ in 0..2000 {
        // a simple generator of 81-bit boards
        x = x.wrapping_mul(6364136223846793005).wrapping_add(1442695040888963407);
        let a = (x ^ (x >> 47)) & NEW_BOARD;
        x = x.wrapping_mul(6364136223846793005).wrapping_add(1442695040888963407);
        let b = (x ^ (x >> 31)) & NEW_BOARD;
        x = x.wrapping_mul(6364136223846793005).wrapping_add(1442695040888963407);
        let c = (x ^ (x >> 59)) & NEW_BOARD;
        for board in [a, a & b, a & b & c, a | b, a & !b & c] {
            assert_eq!(quick_rows(board), naive_rows(board));
            assert_eq!(quick_columns(board), naive_columns(board));
            assert_eq!(quick_boxes(board), naive_boxes(board));
        }
    }
}

#[test]
fn scanners_on_a_crowded_board() {
    let board: u128 = 0x186c10030b8300000160f;
    assert_eq!(quick_rows(board), 0);
    assert_eq!(quick_columns(board), 0);
    assert_eq!(quick_boxes(board), 0);
}

#[test]
fn horizontal_triads() {
    assert_eq!(quick_horiz_triads(0), (0, 0));
    assert_eq!(quick_horiz_triads(NEW_BOARD), (0, 0));
    assert_eq!(quick_horiz_triads(1 << 9), (0x200, 0x1));
    assert_eq!(
        quick_horiz_triads(0o770_770_007_777_777_007_770_770_777),
        (0x40000008000000, 0x40000000000001)
    );
    assert_eq!(quick_horiz_triads(0o667_667_667_667_667_667_171_171_171), (0, 0));
}

#[test]
fn vertical_triads() {
    assert_eq!(quick_vert_triads(0), (0, 0));
    assert_eq!(quick_vert_triads(NEW_BOARD), (0, 0));
    assert_eq!(quick_vert_triads(1 << 9), (0x1, 0x1));
    assert_eq!(quick_vert_triads(0o667_667_667_667_667_667_171_171_171), (0x48, 0x41));
    assert_eq!(quick_vert_triads(0o770_770_007_777_777_007_770_770_777), (0, 0));
    assert_eq!(quick_vert_triads(0x186c10030b8300000160f), (0x8, 0x8));
}

#[test]
fn loc_iter_hands_out_bits_from_the_lowest() {
    let mut it = LocIter((1 << 0) | (1 << 7) | (1 << 63) | (1 << 64) | (1 << 80) | (1 << 127));
    assert_eq!(it.next(), Some(0));
    assert_eq!(it.next(), Some(7));
    assert_eq!(it.next(), Some(63));
    assert_eq!(it.next(), Some(64));
    assert_eq!(it.0, (1 << 80) | (1 << 127));
    assert_eq!(it.next(), Some(80));
    assert_eq!(it.next(), Some(127));
    assert_eq!(it.next(), None);
    assert_eq!(it.0, 0);
    assert_eq!(it.next(), None);
}
