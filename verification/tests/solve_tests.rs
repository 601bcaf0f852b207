use sudoku2::{gen_group_table, gen_square_table, Puzzle, Solver, NEW_BOARD};

const GIVEN: &str =
    "000801200800000419100020060508300000070000520200000073020085007001000004760900080";
const SOLVED: &str =
    "697841235852763419134529768518372946376498521249156873423685197981237654765914382";

fn is_peer(a: usize, b: usize) -> bool {
    a != b && (a / 9 == b / 9 || a % 9 == b % 9 || (a / 27 == b / 27 && a % 9 / 3 == b % 9 / 3))
}

fn full_and_valid(text: &str) -> bool {
    let cells: Vec<char> = text.chars().collect();
    if cells.len() != 81 || cells.iter().any(|ch| !('1'..='9').contains(ch)) {
        return false;
    }
    for a in 0..81usize {
        for b in 0..81usize {
            if is_peer(a, b) && cells[a] == cells[b] {
                return false;
            }
        }
    }
    true
}

#[test]
fn new_solver_has_tables_and_blank_board() {
    let s = Solver::new();
    assert_eq!(s.groups, gen_group_table());
    assert_eq!(s.squares, gen_square_table());
    assert!(s.stack.is_empty());
    assert_eq!(s.puzzle.boards, [NEW_BOARD; 9]);
}

#[test]
fn solves_the_given_puzzle() {
    let mut s = Solver::new();
    s.puzzle = Puzzle::from_str(GIVEN);
    assert!(s.solve());
    assert_eq!(s.puzzle.to_string(), SOLVED);
    assert!(s.stack.is_empty());
    assert!(s.slow_is_valid());
}

#[test]
fn solves_puzzles_that_need_many_guesses() {
    let cases = [
        (
            "000000002001000700030050090000006040003040800040509000090060030002000100700003000",
            "985374612421698753637251498279836541513742869846519327198467235362985174754123986",
        ),
        (
            "800000000003600000070090200050007000000045700000100030001000068008500010090000400",
            "812753649943682175675491283154237896369845721287169534521974368438526917796318452",
        ),
        (
            "000000000000003085001020000000507000004000100090000000500000073002010000000040009",
            "987654321246173985351928746128537694634892157795461832519286473472319568863745219",
        ),
        (
            "100007090030020008009600500005300900010080002600004000300000010040000007007000300",
            "162857493534129678789643521475312986913586742628794135356478219241935867897261354",
        ),
    ];
    let mut s = Solver::new();
    for (given, solved) in cases {
        s.puzzle = Puzzle::from_str(given);
        assert!(s.solve());
        assert_eq!(s.puzzle.to_string(), solved);
        assert!(full_and_valid(solved));
        assert!(s.stack.is_empty());
        assert!(s.slow_is_valid());
    }
}

#[test]
fn test_compares_with_the_solution() {
    let mut s = Solver::new();
    assert!(s.test(GIVEN, SOLVED));
    assert!(!s.test(GIVEN, GIVEN));
    let mut other: String = String::from(SOLVED);
    other.replace_range(0..2, "96");
    assert!(!s.test(GIVEN, &other));
    assert!(s.test(GIVEN, SOLVED));
}

#[test]
fn blank_grid_solves_to_a_valid_grid() {
    let mut s = Solver::new();
    s.puzzle = Puzzle::from_str(&"0".repeat(81));
    assert!(s.solve());
    let text = s.puzzle.to_string();
    assert!(full_and_valid(&text));
    assert_eq!(
        text,
        "123456789456789123789123456231674895875912364694538217317265948542897631968341572"
    );
}

#[test]
fn solved_grid_is_returned_as_it_is() {
    let mut s = Solver::new();
    s.puzzle = Puzzle::from_str(SOLVED);
    assert!(s.solve());
    assert_eq!(s.puzzle.to_string(), SOLVED);
    assert!(s.stack.is_empty());
}

#[test]
fn two_fives_in_a_row_are_rejected() {
    let text: String = format!("55{}", "0".repeat(79));
    let mut s = Solver::new();
    s.puzzle = Puzzle::from_str(&text);
    s.update();
    assert!(!s.puzzle.is_valid());
    assert!(!s.slow_is_valid());
    s.puzzle = Puzzle::from_str(&text);
    assert!(!s.solve());
    assert!(s.stack.is_empty());
}

#[test]
fn unsolvable_without_plain_clash() {
    // row 0 leaves only a 9 for its last cell, column 8 already holds a 9
    let text: String = format!("12345678{}9{}", "0".repeat(9), "0".repeat(63));
    let mut s = Solver::new();
    s.puzzle = Puzzle::from_str(&text);
    assert!(!s.solve());
}

#[test]
fn solver_can_be_used_again() {
    let mut s = Solver::new();
    s.puzzle = Puzzle::from_str(&format!("55{}", "0".repeat(79)));
    assert!(!s.solve());
    s.puzzle = Puzzle::from_str(GIVEN);
    assert!(s.solve());
    assert_eq!(s.puzzle.to_string(), SOLVED);
}

#[test]
fn update_propagates_the_givens() {
    let mut s = Solver::new();
    s.puzzle = Puzzle::from_str(GIVEN);
    s.update();
    assert!(s.puzzle.is_valid());
    assert!(s.slow_is_valid());
    assert_eq!(
        s.puzzle.to_string(),
        "607801235802700419100020768518372946070008521200000873020085097981207054765900082"
    );
    assert_eq!(s.puzzle.solved, 0x18fd7ecb83e2fff479bed);
    assert_eq!(
        s.puzzle.boards,
        [
            0x50021203100010050020,
            0x100040080280100400840,
            0x70281160005040986480,
            0x30800347c1d400b88012,
            0x4400803040008282500,
            0x228120781c802006001,
            0x1104010002081001004,
            0x80010408020024000208,
            0x800a006c142009a0012
        ]
    );
}

#[test]
fn update_gives_a_hidden_single_its_digit() {
    // a 1 in rows 1 and 2 and in columns 1 and 2 leaves the first box one
    // cell for its 1
    let text = "000000000000100000000000100010000000000000000000000000001000000000000000000000000";
    let mut s = Solver::new();
    s.puzzle = Puzzle::from_str(text);
    assert_eq!(s.puzzle.to_squarewise()[0], 0x1ff);
    s.update();
    assert!(s.puzzle.is_valid());
    assert_eq!(s.puzzle.to_squarewise()[0], 1);
    assert_eq!(
        s.puzzle.to_string(),
        "100000000000100000000000100010000000000000000000000000001000000000000000000000000"
    );
    assert_eq!(s.puzzle.solved, 0x100000011001001);
}

#[test]
fn update_takes_solved_digits_from_peers() {
    let mut s = Solver::new();
    s.puzzle = Puzzle::from_str(GIVEN);
    s.update();
    let cells = s.puzzle.to_squarewise();
    for a in 0..81usize {
        if cells[a].is_power_of_two() {
            for b in 0..81usize {
                if is_peer(a, b) {
                    assert_eq!(cells[b] & cells[a], 0);
                }
            }
        }
    }
}

#[test]
fn update_twice_changes_nothing() {
    let mut s = Solver::new();
    s.puzzle = Puzzle::from_str(GIVEN);
    s.update();
    let boards = s.puzzle.boards;
    let marks = s.puzzle.solved;
    s.update();
    assert_eq!(s.puzzle.boards, boards);
    assert_eq!(s.puzzle.solved, marks);
}

#[test]
fn update_leaves_a_blank_board_alone() {
    let mut s = Solver::new();
    s.update();
    assert_eq!(s.puzzle.boards, [NEW_BOARD; 9]);
    assert_eq!(s.puzzle.solved, 0);
}

#[test]
fn guess_picks_fewest_candidates_then_lowest() {
    let mut s = Solver::new();
    s.puzzle = Puzzle::from_str(GIVEN);
    s.update();
    assert_eq!(s.guess(), (1, 3));
    assert_eq!(
        s.puzzle.to_string(),
        "647801235802700419100020768518372946070008521200000873020085097981207054765900082"
    );
    assert_eq!(s.puzzle.to_squarewise()[1], 1 << 3);
}

#[test]
fn guess_on_blank_board_takes_first_cell_and_digit() {
    let mut s = Solver::new();
    assert_eq!(s.guess(), (0, 0));
    assert_eq!(s.puzzle.boards[0], NEW_BOARD);
    for d in 1..9usize {
        assert_eq!(s.puzzle.boards[d], NEW_BOARD & !1);
    }
}

#[test]
fn guess_on_full_board_changes_nothing() {
    let mut s = Solver::new();
    s.puzzle = Puzzle::from_str(SOLVED);
    let boards = s.puzzle.boards;
    assert_eq!(s.guess(), (81, 0));
    assert_eq!(s.puzzle.boards, boards);
}

#[test]
fn validator_on_full_grids() {
    let mut s = Solver::new();
    s.puzzle = Puzzle::from_str(SOLVED);
    assert!(s.slow_is_valid());
    // swap two cells of row 0: rows stay valid, columns do not
    let mut swapped: String = String::from(SOLVED);
    swapped.replace_range(0..2, "96");
    s.puzzle = Puzzle::from_str(&swapped);
    assert!(s.puzzle.is_valid());
    assert!(!s.slow_is_valid());
    // one digit twice in a row
    let mut twice: String = String::from(SOLVED);
    twice.replace_range(0..1, "9");
    s.puzzle = Puzzle::from_str(&twice);
    assert!(!s.slow_is_valid());
}

#[test]
fn validator_on_open_boards() {
    let mut s = Solver::new();
    assert!(s.slow_is_valid());
    s.puzzle = Puzzle::from_str(GIVEN);
    // the givens are still candidates of their peers
    assert!(!s.slow_is_valid());
    s.puzzle.boards[0] = 0;
    s.puzzle.boards[1] &= !1;
    assert!(!s.slow_is_valid());
}
