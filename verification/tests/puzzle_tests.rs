use sudoku2::{Puzzle, NEW_BOARD};

const GIVEN: &str =
    "000801200800000419100020060508300000070000520200000073020085007001000004760900080";
const SOLVED: &str =
    "697841235852763419134529768518372946376498521249156873423685197981237654765914382";

#[test]
fn new_board_has_every_candidate() {
    let p = Puzzle::new();
    assert_eq!(p.boards, [NEW_BOARD; 9]);
    assert_eq!(p.solved, 0);
    assert_eq!(NEW_BOARD, (1u128 << 81) - 1);
}

#[test]
fn from_str_sets_givens_and_blanks() {
    let p = Puzzle::from_str(GIVEN);
    // cell 3 holds an 8, cell 5 a 1, cell 0 is blank
    for d in 0..9usize {
        assert_eq!(p.boards[d] & (1 << 3) != 0, d == 7);
        assert_eq!(p.boards[d] & (1 << 5) != 0, d == 0);
        assert!(p.boards[d] & 1 != 0);
        assert_eq!(p.boards[d] >> 81, 0);
    }
    assert_eq!(p.solved, 0);
}

#[test]
fn from_str_of_blank_grid_is_new_board() {
    let blank: String = "0".repeat(81);
    let p = Puzzle::from_str(&blank);
    assert!(p == Puzzle::new());
    assert_eq!(p.boards, [NEW_BOARD; 9]);
}

#[test]
fn from_str_leaves_missing_and_odd_characters_blank() {
    let p = Puzzle::from_str("5x.");
    assert_eq!(p.boards[4], NEW_BOARD);
    for d in 0..9usize {
        if d != 4 {
            assert_eq!(p.boards[d], NEW_BOARD & !1);
        }
    }
    let empty = Puzzle::from_str("");
    assert_eq!(empty.boards, [NEW_BOARD; 9]);
}

#[test]
fn from_str_reads_no_more_than_81_characters() {
    let long: String = format!("{}{}", "0".repeat(81), "123456789");
    let p = Puzzle::from_str(&long);
    assert_eq!(p.boards, [NEW_BOARD; 9]);
}

#[test]
fn to_squarewise_gives_candidates_of_each_cell() {
    let p = Puzzle::from_str(GIVEN);
    let sq = p.to_squarewise();
    assert_eq!(sq[0], 0x1ff);
    assert_eq!(sq[3], 1 << 7);
    assert_eq!(sq[5], 1);
    assert_eq!(sq[80], 0x1ff);
    assert_eq!(sq[79], 1 << 7);
}

#[test]
fn to_string_renders_givens_and_blanks() {
    let p = Puzzle::from_str(GIVEN);
    assert_eq!(p.to_string(), GIVEN);
    assert_eq!(Puzzle::new().to_string(), "0".repeat(81));
}

#[test]
fn to_string_renders_empty_cell_as_zero() {
    let mut p = Puzzle::from_str(SOLVED);
    p.boards[5] &= !1; // cell 0 holds a 6: take it away
    let text = p.to_string();
    assert_eq!(&text[0..1], "0");
    assert_eq!(&text[1..], &SOLVED[1..]);
}

#[test]
fn round_trip_of_solved_board() {
    let p = Puzzle::from_str(SOLVED);
    let text = p.to_string();
    assert_eq!(text, SOLVED);
    let q = Puzzle::from_str(&text);
    assert!(p == q);
    assert_eq!(p.boards, q.boards);
}

#[test]
fn get_solved_marks_cells_with_one_candidate() {
    let p = Puzzle::from_str(GIVEN);
    assert_eq!(p.get_solved(), 0x8b824cb02c206a478268);
    assert_eq!(Puzzle::new().get_solved(), 0);
    assert_eq!(Puzzle::from_str(SOLVED).get_solved(), NEW_BOARD);
}

#[test]
fn get_new_solved_returns_each_cell_once() {
    let mut p = Puzzle::from_str(GIVEN);
    assert_eq!(p.get_new_solved(), 0x8b824cb02c206a478268);
    assert_eq!(p.solved, 0x8b824cb02c206a478268);
    assert_eq!(p.get_new_solved(), 0);
    assert_eq!(p.solved, 0x8b824cb02c206a478268);
    p.boards[0] = 1 | (p.boards[0] & !1);
    for d in 1..9usize {
        p.boards[d] &= !1;
    }
    assert_eq!(p.get_new_solved(), 1);
    assert_eq!(p.solved, 0x8b824cb02c206a478269);
}

#[test]
fn is_valid_wants_a_candidate_in_every_cell() {
    assert!(Puzzle::new().is_valid());
    assert!(Puzzle::from_str(GIVEN).is_valid());
    let mut p = Puzzle::from_str(SOLVED);
    p.boards[5] &= !1;
    assert!(!p.is_valid());
    let mut q = Puzzle::new();
    q.boards[0] |= 1 << 81;
    assert!(!q.is_valid());
}

#[test]
fn get_square_options_sorts_cells_by_count() {
    let p = Puzzle::from_str(GIVEN);
    let o = p.get_square_options();
    assert_eq!(o[0], 0x8b824cb02c206a478268);
    for k in 1..8usize {
        assert_eq!(o[k], 0);
    }
    assert_eq!(o[8], 0x1747db34fd3df95b87d97);
    let mut q = Puzzle::new();
    q.boards[0] &= !1;
    q.boards[1] &= !1;
    q.boards[2] &= !2;
    let r = q.get_square_options();
    assert_eq!(r[6], 1);
    assert_eq!(r[7], 2);
    assert_eq!(r[8], NEW_BOARD & !3);
    assert_eq!(r[0], 0);
}

#[test]
fn eq_compares_candidates_only() {
    let mut p = Puzzle::from_str(GIVEN);
    let q = Puzzle::from_str(GIVEN);
    p.get_new_solved();
    assert!(p == q);
    assert!(p != Puzzle::new());
}
