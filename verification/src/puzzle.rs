use crate::bits::{
    bit, bit16, lemma_bit16_nonzero, lemma_bit16_set, lemma_bit_and, lemma_bit_ext, lemma_bit_not,
    lemma_bit_or, lemma_bit_single, lemma_bit_test, lemma_bit_zero,
};
use crate::grid::peers;
use vstd::prelude::*;
use vstd::std_specs::bits::axiom_u16_trailing_zeros;
use vstd::std_specs::cmp::{PartialEqSpec, PartialEqSpecImpl};
use vstd::string::{StrSliceExecFns, StringExecFns};

verus! {

/// The mask of all 81 cells.
pub const NEW_BOARD: u128 = 0x1_fffff_fffff_fffff_fffff;

/// The candidates of a 9x9 grid: one 81-bit mask for each digit.
///
/// Bit `c` of `boards[d]` says that digit `d + 1` is still a candidate of
/// cell `c`. `solved` remembers the solved cells whose digit has already
/// been taken from their peers.
#[derive(Clone, Copy)]
pub struct Puzzle {
    pub boards: [u128; 9],
    pub solved: u128,
}

/// Bits of the full board: exactly the 81 cells.
pub proof fn lemma_bit_new_board()
    ensures
        forall|i: int| #[trigger] bit(NEW_BOARD, i) == (0 <= i < 81),
{
    assert forall|i: int| #[trigger] bit(NEW_BOARD, i) == (0 <= i < 81) by {
        if 0 <= i < 128 {
            let k = i as u128;
            assert((0x1_fffff_fffff_fffff_fffffu128 >> k) & 1 == 1 <==> k < 81) by (bit_vector)
                requires
                    k < 128,
            ;
        }
    }
}

/// The digit, counted from zero, that a character of a grid gives to its
/// cell: `'1'` to `'9'` give 0 to 8, every other character leaves the cell
/// blank.
pub open spec fn digit_value(ch: char) -> Option<int> {
    if '1' <= ch <= '9' {
        Some(ch as int - '1' as int)
    } else {
        None
    }
}

/// The character that stands for digit `d`, counted from zero.
pub open spec fn digit_char(d: int) -> char {
    if d == 0 {
        '1'
    } else if d == 1 {
        '2'
    } else if d == 2 {
        '3'
    } else if d == 3 {
        '4'
    } else if d == 4 {
        '5'
    } else if d == 5 {
        '6'
    } else if d == 6 {
        '7'
    } else if d == 7 {
        '8'
    } else {
        '9'
    }
}

/// The digit that a character gives, if it gives one.
fn digit_of(ch: char) -> (r: Option<usize>)
    ensures
        match r {
            Some(d) => digit_value(ch) == Some(d as int) && d < 9,
            None => digit_value(ch) is None,
        },
{
    if ch == '1' {
        Some(0)
    } else if ch == '2' {
        Some(1)
    } else if ch == '3' {
        Some(2)
    } else if ch == '4' {
        Some(3)
    } else if ch == '5' {
        Some(4)
    } else if ch == '6' {
        Some(5)
    } else if ch == '7' {
        Some(6)
    } else if ch == '8' {
        Some(7)
    } else if ch == '9' {
        Some(8)
    } else {
        None
    }
}

/// The text of one character that stands for digit `d`.
fn digit_str(d: u32) -> (r: &'static str)
    requires
        d < 9,
    ensures
        r@ == seq![digit_char(d as int)],
{
    proof {
        reveal_strlit("1");
        reveal_strlit("2");
        reveal_strlit("3");
        reveal_strlit("4");
        reveal_strlit("5");
        reveal_strlit("6");
        reveal_strlit("7");
        reveal_strlit("8");
        reveal_strlit("9");
    }
    let r = if d == 0 {
        "1"
    } else if d == 1 {
        "2"
    } else if d == 2 {
        "3"
    } else if d == 3 {
        "4"
    } else if d == 4 {
        "5"
    } else if d == 5 {
        "6"
    } else if d == 6 {
        "7"
    } else if d == 7 {
        "8"
    } else {
        "9"
    };
    assert(r@ =~= seq![digit_char(d as int)]);
    r
}

impl Puzzle {
    /// Whether digit `digit` (0 to 8) is a candidate of cell `cell`.
    pub open spec fn has(self, cell: int, digit: int) -> bool {
        0 <= digit < 9 && bit(self.boards[digit], cell)
    }

    /// How many of the digits below `n` are candidates of `cell`.
    pub open spec fn count_below(self, cell: int, n: nat) -> nat
        decreases n,
    {
        if n == 0 {
            0
        } else {
            self.count_below(cell, (n - 1) as nat) + if self.has(cell, n - 1) {
                1nat
            } else {
                0nat
            }
        }
    }

    /// How many candidates `cell` has.
    pub open spec fn count(self, cell: int) -> nat {
        self.count_below(cell, 9)
    }

    /// No mask holds a bit outside the 81 cells.
    pub open spec fn in_range(self) -> bool {
        forall|d: int, i: int| 0 <= d < 9 && #[trigger] bit(self.boards[d], i) ==> 0 <= i < 81
    }

    /// Every cell has a candidate, and nothing lies outside the grid.
    pub open spec fn consistent(self) -> bool {
        &&& self.in_range()
        &&& forall|c: int| 0 <= c < 81 ==> #[trigger] self.count(c) >= 1
    }

    /// Every candidate of this board is a candidate of `other`.
    pub open spec fn refines(self, other: Puzzle) -> bool {
        forall|c: int, d: int| #[trigger] self.has(c, d) ==> other.has(c, d)
    }

    /// No peer of `cell` has a candidate that `cell` has: where the cell is
    /// solved, its digit is gone from its peers.
    pub open spec fn eliminated(self, cell: int) -> bool {
        forall|d: int, c: int| self.has(cell, d) && peers(cell, c) ==> !#[trigger] self.has(c, d)
    }

    /// Every solved cell's digit is gone from the cell's peers.
    pub open spec fn propagated(self) -> bool {
        forall|c: int| #[trigger] self.count(c) == 1 ==> self.eliminated(c)
    }

    /// Every solved cell is marked.
    pub open spec fn settled(self) -> bool {
        forall|c: int| #[trigger] self.count(c) == 1 ==> bit(self.solved, c)
    }

    /// Every cell is solved.
    pub open spec fn complete(self) -> bool {
        forall|c: int| 0 <= c < 81 ==> #[trigger] self.count(c) == 1
    }

    /// Whether `cell` is the cell to guess at: an unsolved cell with the
    /// fewest candidates, and among those the first.
    pub open spec fn is_pick(self, cell: int) -> bool {
        &&& 0 <= cell < 81
        &&& self.count(cell) >= 2
        &&& forall|c: int|
            0 <= c < 81 && #[trigger] self.count(c) >= 2 ==> self.count(cell) < self.count(c) || (
            self.count(cell) == self.count(c) && cell <= c)
    }

    /// The board's invariant: nothing lies outside the grid, a marked cell
    /// has no second candidate, and as long as every cell has a candidate,
    /// the digit of a marked cell is gone from the cell's peers.
    pub open spec fn wf(self) -> bool {
        &&& self.in_range()
        &&& forall|c: int| #[trigger] bit(self.solved, c) ==> self.count(c) <= 1
        &&& self.consistent() ==> forall|c: int| #[trigger]
            bit(self.solved, c) ==> self.eliminated(c)
    }

    /// Whether the finished grid `grid` is still possible: the digit that
    /// it gives to a cell is a candidate of the cell.
    pub open spec fn admits(self, grid: Seq<int>) -> bool {
        forall|c: int| 0 <= c < 81 ==> self.has(c, #[trigger] grid[c])
    }

    /// The lowest candidate of `cell`: its digit, where the cell is solved.
    pub open spec fn digit_at(self, cell: int) -> int {
        if self.has(cell, 0) {
            0
        } else if self.has(cell, 1) {
            1
        } else if self.has(cell, 2) {
            2
        } else if self.has(cell, 3) {
            3
        } else if self.has(cell, 4) {
            4
        } else if self.has(cell, 5) {
            5
        } else if self.has(cell, 6) {
            6
        } else if self.has(cell, 7) {
            7
        } else {
            8
        }
    }

    /// The digits of the cells, as a grid: of a solved cell its digit.
    pub open spec fn grid(self) -> Seq<int> {
        Seq::new(81, |c: int| self.digit_at(c))
    }

    /// How many candidates the cells below `n` have together.
    pub open spec fn total_below(self, n: nat) -> nat
        decreases n,
    {
        if n == 0 {
            0
        } else {
            self.total_below((n - 1) as nat) + self.count(n - 1)
        }
    }

    /// How many candidates the 81 cells have together.
    pub open spec fn total(self) -> nat {
        self.total_below(81)
    }

    /// The character that renders `cell`: its digit where exactly one
    /// candidate is left, `'0'` otherwise.
    pub open spec fn glyph(self, cell: int) -> char {
        if self.count(cell) == 1 {
            digit_char(self.digit_at(cell))
        } else {
            '0'
        }
    }

    /// The grid in text form, one character for each cell.
    pub open spec fn text(self) -> Seq<char> {
        Seq::new(81, |c: int| self.glyph(c))
    }

    /// Whether this is the board that the text of a grid describes: a cell
    /// that the text gives a digit has that candidate alone, every other
    /// cell has all nine, and no cell is marked.
    pub open spec fn reads(self, text: Seq<char>) -> bool {
        &&& self.solved == 0
        &&& forall|c: int, d: int| #[trigger]
            self.has(c, d) == (0 <= c < 81 && 0 <= d < 9 && (c < text.len() ==> match digit_value(
                text[c],
            ) {
                Some(k) => d == k,
                None => true,
            }))
    }

    /// A board on which every digit is a candidate of every cell.
    pub fn new() -> (r: Self)
        ensures
            r.solved == 0,
            forall|d: int| 0 <= d < 9 ==> r.boards[d] == NEW_BOARD,
            r.wf(),
    {
        let r = Puzzle { boards: [NEW_BOARD;9], solved: 0 };
        proof {
            lemma_bit_zero();
            lemma_bit_new_board();
        }
        r
    }

    /// Whether every cell still has a candidate.
    pub fn is_valid(&self) -> (r: bool)
        ensures
            r == self.consistent(),
    {
        let mut tmp: u128 = 0;
        let mut k: usize = 0;
        proof {
            lemma_bit_zero();
        }
        while k < 9
            invariant
                k <= 9,
                forall|i: int| #[trigger] bit(tmp, i) == (self.count_below(i, k as nat) >= 1),
            decreases 9 - k,
        {
            proof {
                lemma_bit_or(tmp, self.boards[k as int]);
            }
            tmp |= self.boards[k];
            k += 1;
        }
        proof {
            lemma_bit_new_board();
            if tmp == NEW_BOARD {
                assert forall|d: int, i: int| 0 <= d < 9 && #[trigger] bit(
                    self.boards[d],
                    i,
                ) implies 0 <= i < 81 by {
                    self.lemma_count_positive(i, d);
                    assert(bit(tmp, i));
                }
                assert forall|c: int| 0 <= c < 81 implies #[trigger] self.count(c) >= 1 by {
                    assert(bit(tmp, c));
                }
            } else {
                if self.consistent() {
                    assert forall|i: int| 0 <= i < 128 implies bit(tmp, i) == bit(NEW_BOARD, i) by {
                        if i >= 81 && self.count(i) >= 1 {
                            let d = self.lemma_positive_count(i);
                        }
                    }
                    lemma_bit_ext(tmp, NEW_BOARD);
                }
            }
        }
        tmp == NEW_BOARD
    }

    /// Reads a grid: `'1'` to `'9'` give a cell its digit, any other
    /// character leaves it blank, and so does a missing one. Characters
    /// after the 81st are not read.
    pub fn from_str(s: &str) -> (r: Self)
        ensures
            r.reads(s@),
            r.wf(),
    {
        let len = s.unicode_len();
        let n: usize = if len < 81 {
            len
        } else {
            81
        };
        let mut boards: [u128; 9] = [0;9];
        let mut all_solved: u128 = 0;
        let mut i: usize = 0;
        proof {
            lemma_bit_zero();
        }
        while i < n
            invariant
                i <= n <= 81,
                n <= s@.len(),
                forall|c: int, d: int|
                    0 <= d < 9 ==> #[trigger] bit(boards[d], c) == (0 <= c < i && digit_value(
                        s@[c],
                    ) == Some(d)),
                forall|c: int| #[trigger]
                    bit(all_solved, c) == (0 <= c < i && digit_value(s@[c]) is Some),
            decreases n - i,
        {
            let ch = s.get_char(i);
            match digit_of(ch) {
                Some(d) => {
                    proof {
                        lemma_bit_single(i as int);
                        lemma_bit_or(boards[d as int], 1u128 << (i as u128));
                        lemma_bit_or(all_solved, 1u128 << (i as u128));
                    }
                    boards[d] = boards[d] | (1u128 << (i as u128));
                    all_solved = all_solved | (1u128 << (i as u128));
                },
                None => {},
            }
            i += 1;
        }
        proof {
            lemma_bit_not(all_solved);
            lemma_bit_and(!all_solved, NEW_BOARD);
            lemma_bit_new_board();
        }
        let unsolved = !all_solved & NEW_BOARD;
        let ghost given = boards;
        let mut k: usize = 0;
        while k < 9
            invariant
                k <= 9,
                forall|d: int| 0 <= d < k ==> boards[d] == given[d] | unsolved,
                forall|d: int| k <= d < 9 ==> boards[d] == given[d],
            decreases 9 - k,
        {
            boards[k] = boards[k] | unsolved;
            k += 1;
        }
        let r = Puzzle { boards, solved: 0 };
        proof {
            assert forall|c: int, d: int| #[trigger]
                r.has(c, d) == (0 <= c < 81 && 0 <= d < 9 && (c < s@.len() ==> match digit_value(
                    s@[c],
                ) {
                    Some(k) => d == k,
                    None => true,
                })) by {
                if 0 <= d < 9 {
                    lemma_bit_or(given[d], unsolved);
                }
            }
            r.lemma_reads_wf(s@);
        }
        r
    }

    /// Renders the grid as 81 characters: a solved cell as its digit, any
    /// other cell as `'0'`.
    pub fn to_string(&self) -> (out: String)
        ensures
            out@ == self.text(),
    {
        let squarewise = self.to_squarewise();
        let solved = self.get_solved();
        let mut out = String::new();
        let mut c: usize = 0;
        while c < 81
            invariant
                c <= 81,
                out@.len() == c,
                forall|i: int| 0 <= i < c ==> out@[i] == self.glyph(i),
                forall|i: int, d: int|
                    0 <= i < 81 ==> #[trigger] bit16(squarewise[i], d) == self.has(i, d),
                forall|i: int| #[trigger] bit(solved, i) == (self.count(i) == 1),
            decreases 81 - c,
        {
            let x = squarewise[c];
            proof {
                lemma_bit_test(solved, c as int);
                reveal_strlit("0");
            }
            if solved & (1u128 << (c as u128)) != 0 {
                let t = x.trailing_zeros();
                proof {
                    let d = self.lemma_positive_count(c as int);
                    assert(bit16(x, d));
                    lemma_bit16_nonzero(x, d);
                    axiom_u16_trailing_zeros(x);
                    assert(bit16(x, t as int));
                    self.lemma_lone_candidate(c as int, t as int);
                }
                out.append(digit_str(t));
            } else {
                out.append("0");
            }
            c += 1;
        }
        assert(out@ =~= self.text());
        out
    }

    /// For each cell, its candidates as a mask of nine bits.
    pub fn to_squarewise(&self) -> (out: [u16; 81])
        ensures
            forall|c: int, d: int| 0 <= c < 81 ==> #[trigger] bit16(out[c], d) == self.has(c, d),
    {
        let mut out: [u16; 81] = [0;81];
        let mut c: usize = 0;
        while c < 81
            invariant
                c <= 81,
                forall|i: int, d: int| 0 <= i < c ==> #[trigger] bit16(out[i], d) == self.has(i, d),
                forall|i: int| c <= i < 81 ==> out[i] == 0,
            decreases 81 - c,
        {
            let mut j: usize = 0;
            proof {
                lemma_bit16_set(0, 0);
            }
            while j < 9
                invariant
                    j <= 9,
                    c < 81,
                    forall|i: int, d: int|
                        0 <= i < c ==> #[trigger] bit16(out[i], d) == self.has(i, d),
                    forall|d: int| #[trigger]
                        bit16(out[c as int], d) == (self.has(c as int, d) && d < j),
                    forall|i: int| c < i < 81 ==> out[i] == 0,
                decreases 9 - j,
            {
                proof {
                    lemma_bit_test(self.boards[j as int], c as int);
                    lemma_bit16_set(out[c as int], j as int);
                }
                if self.boards[j] & (1u128 << (c as u128)) != 0 {
                    out[c] = out[c] | (1u16 << (j as u16));
                }
                j += 1;
            }
            c += 1;
        }
        out
    }

    /// The mask of the cells that have exactly one candidate.
    pub fn get_solved(&self) -> (m: u128)
        ensures
            forall|i: int| #[trigger] bit(m, i) == (self.count(i) == 1),
    {
        let mut once: u128 = 0;
        let mut twice: u128 = 0;
        let mut k: usize = 0;
        proof {
            lemma_bit_zero();
        }
        while k < 9
            invariant
                k <= 9,
                forall|i: int| #[trigger] bit(once, i) == (self.count_below(i, k as nat) >= 1),
                forall|i: int| #[trigger] bit(twice, i) == (self.count_below(i, k as nat) >= 2),
            decreases 9 - k,
        {
            let b = self.boards[k];
            proof {
                lemma_bit_and(once, b);
                lemma_bit_or(twice, once & b);
                lemma_bit_or(once, b);
            }
            twice |= once & b;
            once |= b;
            k += 1;
        }
        proof {
            lemma_bit_not(twice);
            lemma_bit_and(once, !twice);
            assert forall|i: int| #[trigger] bit(once & !twice, i) == (self.count(i) == 1) by {
                self.lemma_count_outside(i);
            }
        }
        once & !twice
    }

    /// The solved cells that were not marked yet; marks them.
    pub fn get_new_solved(&mut self) -> (m: u128)
        ensures
            forall|i: int| #[trigger] bit(m, i) == (old(self).count(i) == 1 && !bit(old(self).solved, i)),
            final(self).solved == old(self).solved | m,
            final(self).boards == old(self).boards,
    {
        let all = self.get_solved();
        proof {
            lemma_bit_not(self.solved);
            lemma_bit_and(all, !self.solved);
        }
        let out = all & !self.solved;
        self.solved |= out;
        out
    }

    /// For each rank `k`, the mask of the cells with exactly `k + 1`
    /// candidates.
    pub fn get_square_options(&self) -> (out: [u128; 9])
        ensures
            forall|k: int, i: int| 0 <= k < 9 ==> #[trigger] bit(out[k], i) == (self.count(i) == k + 1),
    {
        let mut out: [u128; 9] = [0;9];
        let mut n: usize = 0;
        proof {
            lemma_bit_zero();
        }
        while n < 9
            invariant
                n <= 9,
                forall|k: int, i: int|
                    0 <= k < 9 ==> #[trigger] bit(out[k], i) == (self.count_below(i, n as nat) >= k
                        + 1),
            decreases 9 - n,
        {
            let b = self.boards[n];
            let ghost before = out;
            let mut j: usize = 8;
            while j > 0
                invariant
                    j <= 8,
                    n < 9,
                    b == self.boards[n as int],
                    forall|k: int, i: int|
                        0 <= k <= j ==> #[trigger] bit(out[k], i) == (self.count_below(
                            i,
                            n as nat,
                        ) >= k + 1),
                    forall|k: int, i: int|
                        j < k < 9 ==> #[trigger] bit(out[k], i) == (self.count_below(
                            i,
                            (n + 1) as nat,
                        ) >= k + 1),
                decreases j,
            {
                proof {
                    lemma_bit_and(out[j - 1], b);
                    lemma_bit_or(out[j as int], out[j - 1] & b);
                }
                out[j] = out[j] | (out[j - 1] & b);
                j -= 1;
            }
            proof {
                lemma_bit_or(out[0], b);
            }
            out[0] = out[0] | b;
            n += 1;
        }
        let mut j: usize = 0;
        while j < 8
            invariant
                j <= 8,
                forall|k: int, i: int|
                    j <= k < 9 ==> #[trigger] bit(out[k], i) == (self.count(i) >= k + 1),
                forall|k: int, i: int|
                    0 <= k < j ==> #[trigger] bit(out[k], i) == (self.count(i) == k + 1),
            decreases 8 - j,
        {
            proof {
                lemma_bit_not(out[j + 1]);
                lemma_bit_and(out[j as int], !out[j + 1]);
                assert forall|i: int| #[trigger]
                    bit(out[j as int] & !out[j + 1], i) == (self.count(i) == j + 1) by {
                    self.lemma_count_outside(i);
                }
            }
            out[j] = out[j] & !out[j + 1];
            j += 1;
        }
        proof {
            assert forall|i: int| #[trigger] bit(out[8], i) == (self.count(i) == 9) by {
                self.lemma_count_bound(i, 9);
            }
        }
        out
    }

    /// A board that was refined has no more candidates in any cell.
    pub proof fn lemma_refines_count(self, other: Puzzle, cell: int, n: nat)
        requires
            self.refines(other),
        ensures
            self.count_below(cell, n) <= other.count_below(cell, n),
        decreases n,
    {
        if n > 0 {
            self.lemma_refines_count(other, cell, (n - 1) as nat);
        }
    }

    /// A board that was read from text has the invariant.
    pub proof fn lemma_reads_wf(self, text: Seq<char>)
        requires
            self.reads(text),
        ensures
            self.wf(),
    {
        lemma_bit_zero();
        assert forall|d: int, i: int| 0 <= d < 9 && #[trigger] bit(self.boards[d], i) implies 0
            <= i < 81 by {
            assert(self.has(i, d));
        }
    }

    /// Rendering a board on which every cell is solved, and reading the
    /// text again, gives the board's candidates back.
    pub proof fn lemma_round_trip(self, back: Puzzle)
        requires
            self.in_range(),
            self.complete(),
            back.reads(self.text()),
        ensures
            back.boards == self.boards,
            PartialEqSpec::eq_spec(&self, &back),
    {
        let text = self.text();
        assert forall|d: int| 0 <= d < 9 implies back.boards[d] == self.boards[d] by {
            assert forall|i: int| 0 <= i < 128 implies bit(back.boards[d], i) == bit(
                self.boards[d],
                i,
            ) by {
                assert(back.has(i, d) == bit(back.boards[d], i));
                assert(self.has(i, d) == bit(self.boards[d], i));
                if 0 <= i < 81 {
                    assert(self.count(i) == 1);
                    let e = self.lemma_positive_count(i);
                    self.lemma_lone_candidate(i, e);
                    assert(text[i] == digit_char(e));
                    assert(digit_value(text[i]) == Some(e));
                }
            }
            lemma_bit_ext(back.boards[d], self.boards[d]);
        }
        assert(back.boards =~= self.boards);
    }

    /// Two boards that were read from the same text are the same.
    pub proof fn lemma_reads_one(self, other: Puzzle, text: Seq<char>)
        requires
            self.reads(text),
            other.reads(text),
        ensures
            self == other,
    {
        assert forall|d: int| 0 <= d < 9 implies self.boards[d] == other.boards[d] by {
            assert forall|i: int| 0 <= i < 128 implies bit(self.boards[d], i) == bit(
                other.boards[d],
                i,
            ) by {
                assert(self.has(i, d) == other.has(i, d));
            }
            lemma_bit_ext(self.boards[d], other.boards[d]);
        }
        assert(self.boards =~= other.boards);
    }

    /// A board that was refined and lost a candidate of `cell` has fewer
    /// candidates in that cell.
    pub proof fn lemma_refines_count_less(self, other: Puzzle, cell: int, digit: int, n: nat)
        requires
            self.refines(other),
            other.has(cell, digit),
            !self.has(cell, digit),
            digit < n,
        ensures
            self.count_below(cell, n) < other.count_below(cell, n),
        decreases n,
    {
        if digit == n - 1 {
            self.lemma_refines_count(other, cell, (n - 1) as nat);
        } else {
            self.lemma_refines_count_less(other, cell, digit, (n - 1) as nat);
        }
    }

    /// A board that was refined has no more candidates in all, and fewer
    /// where it lost one.
    pub proof fn lemma_refines_total(self, other: Puzzle, n: nat)
        requires
            self.refines(other),
        ensures
            self.total_below(n) <= other.total_below(n),
            forall|c: int, d: int|
                0 <= c < n && other.has(c, d) && !self.has(c, d) ==> self.total_below(n)
                    < other.total_below(n),
        decreases n,
    {
        if n > 0 {
            self.lemma_refines_total(other, (n - 1) as nat);
            self.lemma_refines_count(other, n - 1, 9);
            assert forall|c: int, d: int|
                0 <= c < n && other.has(c, d) && !self.has(c, d) implies self.total_below(n)
                < other.total_below(n) by {
                if c == n - 1 {
                    self.lemma_refines_count_less(other, c, d, 9);
                }
            }
        }
    }

    /// A cell with two candidates or more has one besides any given digit.
    pub proof fn lemma_second_candidate(self, cell: int, digit: int) -> (other: int)
        requires
            self.count(cell) >= 2,
        ensures
            self.has(cell, other),
            other != digit,
    {
        reveal_with_fuel(Puzzle::count_below, 10);
        choose|d: int| self.has(cell, d) && d != digit
    }

    /// A cell that has a candidate and no other is solved.
    pub proof fn lemma_one_candidate(self, cell: int, digit: int)
        requires
            self.has(cell, digit),
            forall|d: int| self.has(cell, d) ==> d == digit,
        ensures
            self.count(cell) == 1,
    {
        reveal_with_fuel(Puzzle::count_below, 10);
    }

    /// The one candidate of a solved cell is its digit.
    pub proof fn lemma_lone_candidate(self, cell: int, digit: int)
        requires
            self.count(cell) == 1,
            self.has(cell, digit),
        ensures
            self.digit_at(cell) == digit,
            forall|d: int| self.has(cell, d) ==> d == digit,
    {
        reveal_with_fuel(Puzzle::count_below, 10);
    }

    /// What is no bit index has no candidate.
    pub proof fn lemma_count_outside(self, cell: int)
        ensures
            !(0 <= cell < 128) ==> self.count(cell) == 0,
    {
        reveal_with_fuel(Puzzle::count_below, 10);
    }

    /// No more than `n` of the digits below `n` are candidates.
    pub proof fn lemma_count_bound(self, cell: int, n: nat)
        ensures
            self.count_below(cell, n) <= n,
        decreases n,
    {
        if n > 0 {
            self.lemma_count_bound(cell, (n - 1) as nat);
        }
    }

    /// A cell with a candidate has a positive count.
    pub proof fn lemma_count_positive(self, cell: int, digit: int)
        requires
            self.has(cell, digit),
        ensures
            self.count(cell) >= 1,
    {
        reveal_with_fuel(Puzzle::count_below, 10);
    }

    /// A cell with a positive count has a candidate.
    pub proof fn lemma_positive_count(self, cell: int) -> (digit: int)
        requires
            self.count(cell) >= 1,
        ensures
            self.has(cell, digit),
    {
        reveal_with_fuel(Puzzle::count_below, 10);
        choose|d: int| self.has(cell, d)
    }
}

impl PartialEq for Puzzle {
    /// Two boards are equal where they have the same candidates; the
    /// marks do not count.
    fn eq(&self, other: &Self) -> (r: bool) {
        let mut k: usize = 0;
        while k < 9
            invariant
                k <= 9,
                forall|d: int| 0 <= d < k ==> self.boards[d] == other.boards[d],
            decreases 9 - k,
        {
            if self.boards[k] != other.boards[k] {
                return false;
            }
            k += 1;
        }
        assert(self.boards =~= other.boards);
        true
    }
}

impl PartialEqSpecImpl for Puzzle {
    open spec fn obeys_eq_spec() -> bool {
        true
    }

    open spec fn eq_spec(&self, other: &Self) -> bool {
        self.boards == other.boards
    }
}

} // verus!
