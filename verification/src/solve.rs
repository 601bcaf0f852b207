use crate::bits::{
    bit, lemma_bit_and, lemma_bit_bound, lemma_bit_differ, lemma_bit_ext, lemma_bit_nonzero,
    lemma_bit_not, lemma_bit_or, lemma_bit_single, lemma_bit_test, lemma_bit_xor, lemma_bit_zero,
    lemma_nonzero_bit, lemma_zeros_below, lone, lowest_bit, only_bit, zeros_below,
};
use crate::deduce::{
    alone_in, any_hidden, carries, derives, forced_in, hidden_below, hidden_single,
    lemma_admits_consistent, lemma_alone, lemma_carries_trans, lemma_clash, lemma_derives_same,
    lemma_derives_step, lemma_derives_trans, lemma_eliminate, lemma_forced, lemma_full_grid,
    lemma_quiet, lemma_refines_consistent, lemma_refines_wf, lemma_settled_propagated,
    propagation, quiet, reveals, solvable,
};
use crate::grid::{anchor, group_mask, is_solution, peers, BOX, COLUMN, ROW};
use crate::puzzle::{lemma_bit_new_board, Puzzle, NEW_BOARD};
use crate::scan::{quick_boxes, quick_columns, quick_rows};
use crate::search::{
    checkpoint_ok, covered, covers, finishes, lemma_guess, lemma_pow3, lemma_retry, weight,
};
use crate::tables::{gen_group_table, gen_square_table};
use vstd::prelude::*;

verus! {

/// The set bits of a mask, handed out from the lowest up.
pub struct LocIter(pub u128);

impl LocIter {
    /// The lowest bit that is left, which is then taken out; `None` when
    /// no bit is left.
    pub fn next(&mut self) -> (r: Option<usize>)
        ensures
            match r {
                None => old(self).0 == 0 && final(self).0 == 0,
                Some(i) => {
                    &&& bit(old(self).0, i as int)
                    &&& forall|j: int| #[trigger] bit(old(self).0, j) ==> i <= j
                    &&& forall|j: int| #[trigger]
                        bit(final(self).0, j) == (bit(old(self).0, j) && j != i)
                    &&& final(self).0 < old(self).0
                },
            },
    {
        if self.0 == 0 {
            None
        } else {
            let out = lowest_bit(self.0);
            proof {
                lemma_bit_single(out as int);
                lemma_bit_xor(self.0, 1u128 << (out as u128));
                let x = self.0;
                let k = out as u128;
                assert((x >> k) & 1 == 1 ==> x ^ (1u128 << k) < x) by (bit_vector)
                    requires
                        k < 128,
                ;
            }
            self.0 = self.0 ^ (1u128 << (out as u128));
            Some(out as usize)
        }
    }
}

/// Whether `cell` is the only cell of `unsolved` in a group, from `base`
/// up to `base + 9`, that `found` names and `left` does not.
spec fn gathered(unsolved: u128, found: u128, left: u128, cell: int, base: int) -> bool {
    exists|g: int|
        base <= g < base + 9 && bit(found, anchor(g)) && !bit(left, anchor(g)) && #[trigger] only_bit(
            unsolved & group_mask(g),
            cell,
        )
}

/// The cells of `unsolved` that stand alone in a group that `found` names
/// by its first cell; `unit` is the pattern of the kind of group.
fn gather(unsolved: u128, found: u128, unit: u128, Ghost(base): Ghost<int>) -> (r: u128)
    requires
        base == 0 || base == 9 || base == 18,
        forall|j: int| #[trigger]
            bit(found, j) ==> exists|g: int| base <= g < base + 9 && #[trigger] anchor(g) == j,
        forall|g: int|
            base <= g < base + 9 ==> bit(found, anchor(g)) == lone(
                unsolved & #[trigger] group_mask(g),
            ),
        forall|g: int|
            base <= g < base + 9 ==> #[trigger] group_mask(g) == unit << (anchor(g) as u128),
    ensures
        forall|c: int| #[trigger] bit(r, c) == forced_in(unsolved, c, base, base + 9),
{
    let mut it = LocIter(found);
    let mut r: u128 = 0;
    proof {
        lemma_bit_zero();
    }
    while it.0 != 0
        invariant
            base == 0 || base == 9 || base == 18,
            forall|j: int| #[trigger]
                bit(found, j) ==> exists|g: int| base <= g < base + 9 && #[trigger] anchor(g) == j,
            forall|g: int|
                base <= g < base + 9 ==> bit(found, anchor(g)) == lone(
                    unsolved & #[trigger] group_mask(g),
                ),
            forall|g: int|
                base <= g < base + 9 ==> #[trigger] group_mask(g) == unit << (anchor(g) as u128),
            forall|j: int| #[trigger] bit(it.0, j) ==> bit(found, j),
            forall|c: int| #[trigger] bit(r, c) == gathered(unsolved, found, it.0, c, base),
        decreases it.0,
    {
        let ghost left = it.0;
        match it.next() {
            Some(j) => {
                let ghost gj = choose|g: int| base <= g < base + 9 && #[trigger] anchor(g) == j;
                assert(bit(found, j as int));
                assert(group_mask(gj) == unit << (j as u128));
                let tmp = unsolved & (unit << (j as u128));
                proof {
                    lemma_bit_or(r, tmp);
                    assert(lone(tmp));
                    let cs = choose|cs: int| only_bit(tmp, cs);
                    assert forall|c: int| #[trigger]
                        bit(r | tmp, c) == gathered(unsolved, found, it.0, c, base) by {
                        if bit(r, c) {
                            assert(gathered(unsolved, found, left, c, base));
                            let g = choose|g: int|
                                base <= g < base + 9 && bit(found, anchor(g)) && !bit(
                                    left,
                                    anchor(g),
                                ) && #[trigger] only_bit(unsolved & group_mask(g), c);
                            assert(only_bit(unsolved & group_mask(g), c));
                        }
                        if bit(tmp, c) {
                            assert(only_bit(unsolved & group_mask(gj), c));
                        }
                        if gathered(unsolved, found, it.0, c, base) {
                            let g = choose|g: int|
                                base <= g < base + 9 && bit(found, anchor(g)) && !bit(
                                    it.0,
                                    anchor(g),
                                ) && #[trigger] only_bit(unsolved & group_mask(g), c);
                            if anchor(g) == j {
                                assert(unsolved & group_mask(g) == tmp);
                            } else {
                                assert(only_bit(unsolved & group_mask(g), c));
                            }
                        }
                    }
                }
                r = r | tmp;
            },
            None => {},
        }
    }
    proof {
        lemma_bit_zero();
        assert forall|c: int| #[trigger] bit(r, c) == forced_in(unsolved, c, base, base + 9) by {
            if gathered(unsolved, found, it.0, c, base) {
                let g = choose|g: int|
                    base <= g < base + 9 && bit(found, anchor(g)) && !bit(it.0, anchor(g))
                        && #[trigger] only_bit(unsolved & group_mask(g), c);
                assert(only_bit(unsolved & group_mask(g), c));
            }
            if forced_in(unsolved, c, base, base + 9) {
                let g = choose|g: int|
                    base <= g < base + 9 && #[trigger] only_bit(unsolved & group_mask(g), c);
                assert(lone(unsolved & group_mask(g)));
                assert(only_bit(unsolved & group_mask(g), c));
            }
        }
    }
    r
}

/// What holds between two passes of propagation, where `fresh` holds the
/// cells that were marked last: they are solved, every solved cell is
/// marked, and the board's invariant holds but for the digits of the fresh
/// cells, which are still to be taken from their peers.
spec fn between_passes(cur: Puzzle, fresh: u128) -> bool {
    &&& cur.in_range()
    &&& cur.settled()
    &&& forall|c: int| #[trigger] bit(cur.solved, c) ==> cur.count(c) <= 1
    &&& forall|c: int| #[trigger] bit(fresh, c) ==> cur.count(c) == 1
    &&& cur.consistent() ==> forall|c: int|
        #[trigger] bit(cur.solved, c) && !bit(fresh, c) ==> cur.eliminated(c)
}

/// Marking the newly solved cells of a board with its invariant.
proof fn lemma_marking(before: Puzzle, after: Puzzle, fresh: u128)
    requires
        before.wf(),
        after.boards == before.boards,
        after.solved == before.solved | fresh,
        forall|i: int| #[trigger] bit(fresh, i) == (before.count(i) == 1 && !bit(before.solved, i)),
    ensures
        between_passes(after, fresh),
        carries(before, after),
        work_left(after, fresh) <= work_left(before, 0),
        fresh == 0 ==> after == before,
{
    lemma_bit_or(before.solved, fresh);
    lemma_zeros_below(before.solved, after.solved, 128);
    lemma_bit_zero();
    if fresh != 0 {
        let i = lemma_nonzero_bit(fresh);
        before.lemma_count_outside(i);
        assert(0 <= i < 128 && bit(after.solved, i) && !bit(before.solved, i));
    } else {
        lemma_bit_ext(after.solved, before.solved);
    }
    assert(after.refines(before));
    assert(before.refines(after));
    assert(after.in_range());
    assert forall|c: int| after.count(c) == before.count(c) by {
        after.lemma_refines_count(before, c, 9);
        before.lemma_refines_count(after, c, 9);
    }
    assert(after.consistent() == before.consistent());
    assert forall|c: int| after.eliminated(c) == before.eliminated(c) by {}
}

/// How much is left to do: the cells that are not marked count twice, the
/// fresh ones once.
spec fn work_left(cur: Puzzle, fresh: u128) -> int {
    2 * zeros_below(cur.solved, 128) + if fresh != 0 {
        1int
    } else {
        0int
    }
}

/// A solver: the board it works on, the tables of the grid, and the stack
/// of the guesses it can still take back.
pub struct Solver {
    pub puzzle: Puzzle,
    pub squares: [u128; 81],
    pub groups: [u128; 27],
    pub stack: Vec<(Puzzle, u8, u8)>,
}

impl Solver {
    /// The two tables hold what the grid's layout says.
    pub open spec fn tables_ok(&self) -> bool {
        &&& forall|g: int| 0 <= g < 27 ==> self.groups[g] == group_mask(g)
        &&& forall|c: int, i: int|
            0 <= c < 81 ==> #[trigger] bit(self.squares[c], i) == (0 <= i < 128 && !peers(c, i))
    }

    /// A solver with its tables, a blank board and no guess.
    pub fn new() -> (r: Self)
        ensures
            r.tables_ok(),
            r.stack@.len() == 0,
            r.puzzle.solved == 0,
            forall|d: int| 0 <= d < 9 ==> r.puzzle.boards[d] == NEW_BOARD,
            r.puzzle.wf(),
    {
        Solver {
            puzzle: Puzzle::new(),
            squares: gen_square_table(),
            groups: gen_group_table(),
            stack: Vec::new(),
        }
    }

    /// Checks the board cell by cell: every cell has a candidate, and the
    /// digit of each solved cell is a candidate of none of its peers.
    pub fn slow_is_valid(&self) -> (r: bool)
        requires
            self.tables_ok(),
        ensures
            r == (self.puzzle.consistent() && self.puzzle.propagated()),
    {
        if !self.puzzle.is_valid() {
            return false;
        }
        let solved = self.puzzle.get_solved();
        let mut d: usize = 0;
        while d < 9
            invariant
                d <= 9,
                self.tables_ok(),
                self.puzzle.consistent(),
                forall|i: int| #[trigger] bit(solved, i) == (self.puzzle.count(i) == 1),
                forall|c: int, e: int, c2: int|
                    self.puzzle.count(c) == 1 && self.puzzle.has(c, e) && e < d && #[trigger] peers(
                        c,
                        c2,
                    ) ==> !#[trigger] self.puzzle.has(c2, e),
            decreases 9 - d,
        {
            let b = self.puzzle.boards[d];
            let mut it = LocIter(b & solved);
            proof {
                lemma_bit_and(b, solved);
            }
            while it.0 != 0
                invariant
                    d < 9,
                    self.tables_ok(),
                    self.puzzle.consistent(),
                    b == self.puzzle.boards[d as int],
                    forall|i: int| #[trigger] bit(solved, i) == (self.puzzle.count(i) == 1),
                    forall|i: int| #[trigger] bit(it.0, i) ==> bit(b, i) && bit(solved, i),
                    forall|c: int, e: int, c2: int|
                        self.puzzle.count(c) == 1 && self.puzzle.has(c, e) && e < d
                            && #[trigger] peers(c, c2) ==> !#[trigger] self.puzzle.has(c2, e),
                    forall|c: int, c2: int|
                        self.puzzle.count(c) == 1 && self.puzzle.has(c, d as int) && !bit(it.0, c)
                            && #[trigger] peers(c, c2) ==> !self.puzzle.has(c2, d as int),
                decreases it.0,
            {
                match it.next() {
                    Some(l) => {
                        proof {
                            lemma_bit_not(self.squares[l as int]);
                            lemma_bit_and(!self.squares[l as int], b);
                            self.puzzle.lemma_count_outside(l as int);
                        }
                        if !self.squares[l] & b != 0 {
                            proof {
                                let i = lemma_nonzero_bit(!self.squares[l as int] & b);
                                assert(peers(l as int, i));
                                assert(self.puzzle.has(i, d as int));
                                assert(!self.puzzle.eliminated(l as int));
                            }
                            return false;
                        }
                        proof {
                            assert forall|c2: int| #[trigger] peers(l as int, c2) implies !self.puzzle.has(
                                c2,
                                d as int,
                            ) by {
                                if self.puzzle.has(c2, d as int) {
                                    assert(bit(!self.squares[l as int] & b, c2));
                                    lemma_bit_nonzero(!self.squares[l as int] & b, c2);
                                }
                            }
                        }
                    },
                    None => {},
                }
            }
            proof {
                lemma_bit_zero();
            }
            d += 1;
        }
        true
    }

    /// Picks the cell to guess at and its lowest candidate, and leaves the
    /// cell that candidate alone. On a board without an unsolved cell it
    /// changes nothing and returns 81 for the cell.
    pub fn guess(&mut self) -> (r: (u8, u8))
        requires
            old(self).puzzle.consistent(),
        ensures
            final(self).squares == old(self).squares,
            final(self).groups == old(self).groups,
            final(self).stack == old(self).stack,
            final(self).puzzle.solved == old(self).puzzle.solved,
            old(self).puzzle.wf() ==> final(self).puzzle.wf(),
            old(self).puzzle.complete() ==> r == (81u8, 0u8) && final(self).puzzle == old(self).puzzle,
            !old(self).puzzle.complete() ==> {
                &&& old(self).puzzle.is_pick(r.0 as int)
                &&& old(self).puzzle.has(r.0 as int, r.1 as int)
                &&& forall|d: int| old(self).puzzle.has(r.0 as int, d) ==> r.1 <= d
                &&& forall|c: int, d: int| #[trigger]
                    final(self).puzzle.has(c, d) == (if c == r.0 {
                        d == r.1
                    } else {
                        old(self).puzzle.has(c, d)
                    })
            },
    {
        let options = self.puzzle.get_square_options();
        let ghost pre = self.puzzle;
        proof {
            lemma_bit_new_board();
            if pre.complete() {
                assert forall|i: int| 0 <= i < 128 implies bit(options[0], i) == bit(
                    NEW_BOARD,
                    i,
                ) by {
                    if pre.count(i) >= 1 {
                        let d = pre.lemma_positive_count(i);
                    }
                }
                lemma_bit_ext(options[0], NEW_BOARD);
            }
        }
        if options[0] == NEW_BOARD {
            proof {
                assert forall|c: int| 0 <= c < 81 implies #[trigger] pre.count(c) == 1 by {
                    assert(bit(options[0], c));
                }
            }
            return (81, 0);
        }
        let ghost c0 = lemma_bit_differ(options[0], NEW_BOARD);
        proof {
            if pre.count(c0) >= 1 {
                let d = pre.lemma_positive_count(c0);
            }
            pre.lemma_count_bound(c0, 9);
            assert(bit(options[pre.count(c0) - 1], c0));
            lemma_bit_nonzero(options[pre.count(c0) - 1], c0);
        }
        let mut i: usize = 1;
        while options[i] == 0
            invariant
                1 <= i <= pre.count(c0) - 1 < 9,
                options[pre.count(c0) - 1] != 0,
                forall|k: int| 1 <= k < i ==> options[k] == 0,
            decreases 9 - i,
        {
            i += 1;
        }
        let sq = lowest_bit(options[i]);
        let mask: u128 = 1u128 << (sq as u128);
        proof {
            assert(bit(options[i as int], sq as int));
            assert(pre.count(sq as int) == i + 1);
            pre.lemma_count_outside(sq as int);
            if sq >= 81 {
                let d = pre.lemma_positive_count(sq as int);
            }
            lemma_bit_zero();
            assert forall|c: int| 0 <= c < 81 && #[trigger] pre.count(c) >= 2 implies pre.count(
                sq as int,
            ) < pre.count(c) || (pre.count(sq as int) == pre.count(c) && sq <= c) by {
                pre.lemma_count_bound(c, 9);
                assert(bit(options[pre.count(c) - 1], c));
            }
        }
        let ghost d0 = pre.lemma_positive_count(sq as int);
        let mut j: usize = 0;
        while self.puzzle.boards[j] & mask == 0
            invariant
                self.puzzle == pre,
                mask == 1u128 << (sq as u128),
                sq < 81,
                0 <= j <= d0 < 9,
                pre.has(sq as int, d0),
                forall|d: int| 0 <= d < j ==> !pre.has(sq as int, d),
            decreases 9 - j,
        {
            proof {
                lemma_bit_test(pre.boards[j as int], sq as int);
            }
            j += 1;
        }
        proof {
            lemma_bit_test(pre.boards[j as int], sq as int);
            lemma_bit_single(sq as int);
            lemma_bit_not(mask);
        }
        let mut k: usize = 0;
        while k < 9
            invariant
                k <= 9,
                self.squares == old(self).squares,
                self.groups == old(self).groups,
                self.stack == old(self).stack,
                self.puzzle.solved == pre.solved,
                forall|d: int| 0 <= d < k ==> self.puzzle.boards[d] == pre.boards[d] & !mask,
                forall|d: int| k <= d < 9 ==> self.puzzle.boards[d] == pre.boards[d],
            decreases 9 - k,
        {
            self.puzzle.boards[k] = self.puzzle.boards[k] & !mask;
            k += 1;
        }
        self.puzzle.boards[j] = self.puzzle.boards[j] | mask;
        proof {
            assert forall|c: int, d: int| #[trigger]
                self.puzzle.has(c, d) == (if c == sq {
                    d == j
                } else {
                    pre.has(c, d)
                }) by {
                if 0 <= d < 9 {
                    lemma_bit_and(pre.boards[d], !mask);
                    lemma_bit_or(pre.boards[d] & !mask, mask);
                }
            }
            if pre.wf() {
                assert(self.puzzle.refines(pre));
                lemma_refines_wf(pre, self.puzzle);
            }
        }
        (sq as u8, j as u8)
    }

    /// Propagates: takes the digit of every newly solved cell from the
    /// cell's peers, then gives the hidden singles their digits, and so on
    /// until no cell is newly solved. It stops at once when a cell is left
    /// without a candidate.
    #[verifier::loop_isolation(false)]
    pub fn update(&mut self)
        requires
            old(self).tables_ok(),
            old(self).puzzle.wf(),
        ensures
            final(self).squares == old(self).squares,
            final(self).groups == old(self).groups,
            final(self).stack == old(self).stack,
            propagation(old(self).puzzle, final(self).puzzle),
    {
        let ghost pre = self.puzzle;
        let mut solved = self.puzzle.get_new_solved();
        proof {
            lemma_marking(pre, self.puzzle, solved);
            lemma_derives_same(pre, self.puzzle);
            lemma_bit_zero();
            if solved != 0 {
                let i = lemma_nonzero_bit(solved);
            }
        }
        while solved != 0
            invariant
                self.squares == old(self).squares,
                self.groups == old(self).groups,
                self.stack == old(self).stack,
                carries(pre, self.puzzle),
                derives(pre, self.puzzle),
                between_passes(self.puzzle, solved),
                solved != 0 ==> !pre.settled(),
                pre.settled() ==> self.puzzle == pre,
                solved == 0 && !pre.settled() ==> quiet(self.puzzle),
            decreases work_left(self.puzzle, solved),
        {
            let ghost outer = work_left(self.puzzle, solved);
            while solved != 0
                invariant
                    self.squares == old(self).squares,
                    self.groups == old(self).groups,
                    self.stack == old(self).stack,
                    carries(pre, self.puzzle),
                    derives(pre, self.puzzle),
                    between_passes(self.puzzle, solved),
                    !pre.settled(),
                    work_left(self.puzzle, solved) <= outer,
                decreases work_left(self.puzzle, solved),
            {
                let ghost cur = self.puzzle;
                let ok = self.eliminate(solved);
                let ghost swept = self.puzzle;
                proof {
                    lemma_carries_trans(pre, cur, swept);
                    lemma_derives_trans(pre, cur, swept);
                }
                if !ok {
                    proof {
                        assert forall|grid: Seq<int>| is_solution(grid) implies !swept.admits(
                            grid,
                        ) by {
                            if swept.admits(grid) {
                                lemma_admits_consistent(swept, grid);
                            }
                        }
                    }
                    return ;
                }
                solved = self.puzzle.get_new_solved();
                proof {
                    lemma_marking(swept, self.puzzle, solved);
                    lemma_carries_trans(pre, swept, self.puzzle);
                    lemma_derives_same(swept, self.puzzle);
                    lemma_derives_trans(pre, swept, self.puzzle);
                }
            }
            proof {
                lemma_bit_zero();
            }
            let ghost cur = self.puzzle;
            self.hidden_singles();
            let ghost found = self.puzzle;
            solved = self.puzzle.get_new_solved();
            proof {
                lemma_carries_trans(pre, cur, found);
                lemma_marking(found, self.puzzle, solved);
                lemma_carries_trans(pre, found, self.puzzle);
                lemma_derives_trans(pre, cur, found);
                lemma_derives_same(found, self.puzzle);
                lemma_derives_trans(pre, found, self.puzzle);
                if solved == 0 {
                    lemma_quiet(cur, found);
                }
            }
        }
        proof {
            lemma_bit_zero();
            if self.puzzle.consistent() {
                lemma_settled_propagated(self.puzzle);
            }
        }
    }

    /// Searches for a finished grid: propagates, and where that leaves a
    /// choice, guesses the lowest candidate of the first cell with the
    /// fewest candidates, and comes back to try the cell's other digits when
    /// the guess fails. It returns true with the finished grid on the
    /// board, or false where no finished grid is possible.
    #[verifier::loop_isolation(false)]
    pub fn solve(&mut self) -> (ok: bool)
        requires
            old(self).tables_ok(),
            old(self).puzzle.wf(),
            old(self).stack@.len() == 0,
        ensures
            final(self).squares == old(self).squares,
            final(self).groups == old(self).groups,
            final(self).stack@.len() == 0,
            final(self).puzzle.wf(),
            ok == solvable(old(self).puzzle),
            ok ==> finishes(old(self).puzzle, final(self).puzzle),
            ok ==> is_solution(final(self).puzzle.grid()) && old(self).puzzle.admits(
                final(self).puzzle.grid(),
            ),
    {
        let ghost start = self.puzzle;
        loop
            invariant
                self.squares == old(self).squares,
                self.groups == old(self).groups,
                self.puzzle.wf(),
                self.puzzle.refines(start),
                forall|k: int|
                    0 <= k < self.stack@.len() ==> checkpoint_ok(#[trigger] self.stack@[k], start),
                forall|grid: Seq<int>|
                    is_solution(grid) && #[trigger] start.admits(grid) ==> self.puzzle.admits(grid)
                        || covered(self.stack@, grid),
            decreases weight(self.puzzle, self.stack@),
        {
            let ghost before = self.puzzle;
            let ghost bound = weight(self.puzzle, self.stack@);
            self.update();
            let mut alive = self.puzzle.is_valid();
            let mut pushed = false;
            proof {
                self.puzzle.lemma_refines_total(before, 81);
                lemma_pow3(self.puzzle.total(), before.total());
                assert forall|grid: Seq<int>|
                    is_solution(grid) && #[trigger] start.admits(grid) implies self.puzzle.admits(
                    grid,
                ) || covered(self.stack@, grid) by {
                    if before.admits(grid) {
                        assert(self.puzzle.admits(grid));
                    }
                }
                if !alive {
                    assert forall|grid: Seq<int>| is_solution(grid) implies !self.puzzle.admits(
                        grid,
                    ) by {
                        if self.puzzle.admits(grid) {
                            lemma_admits_consistent(self.puzzle, grid);
                        }
                    }
                }
            }
            while !pushed
                invariant
                    self.squares == old(self).squares,
                    self.groups == old(self).groups,
                    self.puzzle.wf(),
                    self.puzzle.refines(start),
                    forall|k: int|
                        0 <= k < self.stack@.len() ==> checkpoint_ok(
                            #[trigger] self.stack@[k],
                            start,
                        ),
                    forall|grid: Seq<int>|
                        is_solution(grid) && #[trigger] start.admits(grid) ==> self.puzzle.admits(
                            grid,
                        ) || covered(self.stack@, grid),
                    alive ==> self.puzzle.consistent(),
                    !alive ==> forall|grid: Seq<int>|
                        is_solution(grid) ==> !self.puzzle.admits(grid),
                    weight(self.puzzle, self.stack@) <= bound,
                    pushed ==> weight(self.puzzle, self.stack@) < bound,
                decreases
                        weight(self.puzzle, self.stack@),
                        (if alive {
                            1int
                        } else {
                            0int
                        }),
                        (if pushed {
                            0int
                        } else {
                            1int
                        }),
            {
                let ghost cur = self.puzzle;
                let ghost trail = self.stack@;
                if !alive {
                    match self.stack.pop() {
                        None => {
                            return false;
                        },
                        Some((p, s, n)) => {
                            assert(checkpoint_ok(trail[trail.len() - 1], start));
                            assert(trail.drop_last() =~= self.stack@);
                            self.puzzle = p;
                            proof {
                                lemma_bit_single(s as int);
                                lemma_bit_not(1u128 << (s as u128));
                                lemma_bit_and(p.boards[n as int], !(1u128 << (s as u128)));
                            }
                            self.puzzle.boards[n as usize] = self.puzzle.boards[n as usize] & !(1u128
                                << (s as u128));
                            proof {
                                lemma_retry(p, self.puzzle, start, s, n);
                                lemma_pow3(0, cur.total());
                                assert forall|grid: Seq<int>|
                                    is_solution(grid) && #[trigger] start.admits(
                                        grid,
                                    ) implies self.puzzle.admits(grid) || covered(
                                    self.stack@,
                                    grid,
                                ) by {
                                    assert(covered(trail, grid));
                                    let k = choose|k: int|
                                        0 <= k < trail.len() && #[trigger] covers(trail[k], grid);
                                    if k < trail.len() - 1 {
                                        assert(covers(self.stack@[k], grid));
                                    }
                                }
                            }
                            alive = self.puzzle.is_valid();
                            proof {
                                if !alive {
                                    assert forall|grid: Seq<int>|
                                        is_solution(grid) implies !self.puzzle.admits(grid) by {
                                        if self.puzzle.admits(grid) {
                                            lemma_admits_consistent(self.puzzle, grid);
                                        }
                                    }
                                }
                            }
                        },
                    }
                } else {
                    let p = self.puzzle;
                    let (sq, num) = self.guess();
                    if sq == 81 {
                        if self.slow_is_valid() {
                            self.stack.clear();
                            proof {
                                lemma_full_grid(self.puzzle);
                                assert forall|c: int| 0 <= c < 81 implies start.has(
                                    c,
                                    #[trigger] self.puzzle.grid()[c],
                                ) by {
                                    assert(self.puzzle.has(c, self.puzzle.grid()[c]));
                                }
                                assert(is_solution(self.puzzle.grid()) && start.admits(
                                    self.puzzle.grid(),
                                ));
                            }
                            return true;
                        }
                        alive = false;
                        proof {
                            assert forall|grid: Seq<int>| is_solution(grid) implies !self.puzzle.admits(
                                grid,
                            ) by {
                                lemma_clash(self.puzzle, grid);
                            }
                        }
                    } else {
                        proof {
                            lemma_guess(p, self.puzzle, trail, sq, num);
                            assert forall|grid: Seq<int>|
                                is_solution(grid) && #[trigger] start.admits(
                                    grid,
                                ) implies self.puzzle.admits(grid) || covered(
                                trail.push((p, sq, num)),
                                grid,
                            ) by {
                                let next = trail.push((p, sq, num));
                                if p.admits(grid) {
                                    if !self.puzzle.admits(grid) {
                                        assert(covers(next[trail.len() as int], grid));
                                    }
                                } else {
                                    let k = choose|k: int|
                                        0 <= k < trail.len() && #[trigger] covers(trail[k], grid);
                                    assert(covers(next[k], grid));
                                }
                            }
                        }
                        self.stack.push((p, sq, num));
                        pushed = true;
                    }
                }
            }
        }
    }

    /// Solves the grid `puzzle` and says whether that gave the grid
    /// `solution`.
    pub fn test(&mut self, puzzle: &str, solution: &str) -> (ok: bool)
        requires
            old(self).tables_ok(),
            old(self).stack@.len() == 0,
        ensures
            final(self).squares == old(self).squares,
            final(self).groups == old(self).groups,
            final(self).stack@.len() == 0,
            final(self).puzzle.wf(),
            forall|given: Puzzle, wanted: Puzzle|
                #![trigger given.reads(puzzle@), wanted.reads(solution@)]
                given.reads(puzzle@) && wanted.reads(solution@) ==> ok == (finishes(
                    given,
                    final(self).puzzle,
                ) && final(self).puzzle.boards == wanted.boards),
    {
        let given = Puzzle::from_str(puzzle);
        let wanted = Puzzle::from_str(solution);
        self.puzzle = given;
        let found = self.solve();
        let ok = found && self.puzzle == wanted;
        proof {
            assert forall|g: Puzzle, w: Puzzle|
                #![trigger g.reads(puzzle@), w.reads(solution@)]
                g.reads(puzzle@) && w.reads(solution@) implies ok == (finishes(g, self.puzzle)
                && self.puzzle.boards == w.boards) by {
                g.lemma_reads_one(given, puzzle@);
                w.lemma_reads_one(wanted, solution@);
                if finishes(given, self.puzzle) {
                    lemma_full_grid(self.puzzle);
                    assert forall|c: int| 0 <= c < 81 implies given.has(
                        c,
                        #[trigger] self.puzzle.grid()[c],
                    ) by {
                        assert(self.puzzle.has(c, self.puzzle.grid()[c]));
                    }
                    assert(given.admits(self.puzzle.grid()));
                }
            }
        }
        ok
    }

    /// Takes the digit of each cell of `solved` from the cell's peers,
    /// digit by digit. Stops and returns false as soon as a cell is left
    /// without a candidate.
    #[verifier::loop_isolation(false)]
    fn eliminate(&mut self, solved: u128) -> (ok: bool)
        requires
            old(self).tables_ok(),
            between_passes(old(self).puzzle, solved),
        ensures
            final(self).squares == old(self).squares,
            final(self).groups == old(self).groups,
            final(self).stack == old(self).stack,
            final(self).puzzle.solved == old(self).puzzle.solved,
            carries(old(self).puzzle, final(self).puzzle),
            derives(old(self).puzzle, final(self).puzzle),
            final(self).puzzle.wf(),
            !ok ==> !final(self).puzzle.consistent(),
    {
        let ghost snap = self.puzzle;
        proof {
            lemma_derives_same(snap, snap);
        }
        let mut i: usize = 0;
        while i < 9
            invariant
                i <= 9,
                self.squares == old(self).squares,
                self.groups == old(self).groups,
                self.stack == old(self).stack,
                self.puzzle.solved == snap.solved,
                carries(snap, self.puzzle),
                derives(snap, self.puzzle),
                forall|d: int| i <= d < 9 ==> self.puzzle.boards[d] == snap.boards[d],
                forall|c: int, d: int, c2: int|
                    bit(solved, c) && self.puzzle.has(c, d) && d < i && #[trigger] peers(c, c2)
                        ==> !#[trigger] self.puzzle.has(c2, d),
            decreases 9 - i,
        {
            let ghost mid = self.puzzle;
            let mut it = LocIter(self.puzzle.boards[i] & solved);
            let ghost todo = it.0;
            proof {
                lemma_bit_and(mid.boards[i as int], solved);
            }
            while it.0 != 0
                invariant
                    self.squares == old(self).squares,
                    self.groups == old(self).groups,
                    self.stack == old(self).stack,
                    self.puzzle.solved == snap.solved,
                    carries(snap, self.puzzle),
                    derives(snap, self.puzzle),
                    self.puzzle.boards[i as int] == mid.boards[i as int]
                        || self.puzzle.consistent(),
                    forall|d: int| 0 <= d < 9 && d != i ==> self.puzzle.boards[d] == mid.boards[d],
                    forall|c: int| #[trigger]
                        bit(self.puzzle.boards[i as int], c) ==> bit(mid.boards[i as int], c),
                    forall|c: int| #[trigger] bit(it.0, c) ==> bit(todo, c),
                    forall|c: int, c2: int|
                        bit(todo, c) && !bit(it.0, c) && #[trigger] peers(c, c2)
                            ==> !self.puzzle.has(c2, i as int),
                decreases it.0,
            {
                match it.next() {
                    Some(j) => {
                        let ghost before = self.puzzle;
                        proof {
                            assert(bit(todo, j as int));
                            assert(snap.has(j as int, i as int));
                            snap.lemma_lone_candidate(j as int, i as int);
                            lemma_bit_and(before.boards[i as int], self.squares[j as int]);
                            if before.consistent() {
                                let e = before.lemma_positive_count(j as int);
                            }
                            assert(before.has(j as int, i as int));
                        }
                        self.puzzle.boards[i] = self.puzzle.boards[i] & self.squares[j];
                        proof {
                            lemma_eliminate(
                                before,
                                self.puzzle,
                                j as int,
                                i as int,
                                self.squares[j as int],
                            );
                            lemma_carries_trans(snap, before, self.puzzle);
                            lemma_derives_step(before, self.puzzle);
                            lemma_derives_trans(snap, before, self.puzzle);
                        }
                        if !self.puzzle.is_valid() {
                            proof {
                                assert forall|c: int| #[trigger]
                                    bit(self.puzzle.solved, c) implies self.puzzle.count(c)
                                    <= 1 by {
                                    self.puzzle.lemma_refines_count(snap, c, 9);
                                }
                            }
                            return false;
                        }
                    },
                    None => {},
                }
            }
            proof {
                lemma_bit_zero();
                assert forall|c: int, d: int, c2: int|
                    bit(solved, c) && self.puzzle.has(c, d) && d < i + 1 && #[trigger] peers(
                        c,
                        c2,
                    ) implies !#[trigger] self.puzzle.has(c2, d) by {
                    if d < i {
                        assert(self.puzzle.boards[d] == mid.boards[d]);
                        assert(mid.has(c, d));
                        assert(!mid.has(c2, d));
                    } else {
                        assert(bit(mid.boards[i as int], c));
                        assert(bit(todo, c));
                    }
                }
            }
            i += 1;
        }
        proof {
            let swept = self.puzzle;
            assert forall|c: int| #[trigger] bit(swept.solved, c) implies swept.count(c) <= 1 by {
                swept.lemma_refines_count(snap, c, 9);
            }
            if swept.consistent() {
                lemma_refines_consistent(snap, swept);
                assert forall|c: int| #[trigger] bit(swept.solved, c) implies swept.eliminated(
                    c,
                ) by {
                    if bit(solved, c) {
                        assert forall|d: int, c2: int|
                            swept.has(c, d) && peers(c, c2) implies !#[trigger] swept.has(
                            c2,
                            d,
                        ) by {}
                    } else {
                        assert(snap.eliminated(c));
                        assert forall|d: int, c2: int|
                            swept.has(c, d) && peers(c, c2) implies !#[trigger] swept.has(
                            c2,
                            d,
                        ) by {
                            assert(snap.has(c, d));
                            if swept.has(c2, d) {
                                assert(snap.has(c2, d));
                            }
                        }
                    }
                }
            }
        }
        true
    }

    /// Gives each hidden single its digit: a cell that alone among the
    /// unsolved cells of one of its groups can take a digit keeps the
    /// digits of which that holds, and loses its other candidates.
    #[verifier::loop_isolation(false)]
    fn hidden_singles(&mut self)
        requires
            old(self).tables_ok(),
            old(self).puzzle.wf(),
            old(self).puzzle.settled(),
        ensures
            final(self).squares == old(self).squares,
            final(self).groups == old(self).groups,
            final(self).stack == old(self).stack,
            final(self).puzzle.solved == old(self).puzzle.solved,
            forall|c: int, d: int| #[trigger]
                final(self).puzzle.has(c, d) == (old(self).puzzle.has(c, d) && (hidden_single(
                    old(self).puzzle,
                    c,
                    d,
                ) || !any_hidden(old(self).puzzle, c))),
            carries(old(self).puzzle, final(self).puzzle),
            derives(old(self).puzzle, final(self).puzzle),
            final(self).puzzle.wf(),
    {
        let ghost x = self.puzzle;
        let old_solved = self.puzzle.get_solved();
        let mut num_solved: [u128; 9] = [0;9];
        let mut all_solved: u128 = 0;
        let mut i: usize = 0;
        proof {
            lemma_bit_zero();
            lemma_bit_not(old_solved);
        }
        while i < 9
            invariant
                i <= 9,
                self.puzzle == x,
                self.squares == old(self).squares,
                self.groups == old(self).groups,
                self.stack == old(self).stack,
                forall|d: int, c: int|
                    0 <= d < i ==> #[trigger] bit(num_solved[d], c) == hidden_single(x, c, d),
                forall|c: int| #[trigger] bit(all_solved, c) == hidden_below(x, c, i as int),
            decreases 9 - i,
        {
            let unsolved = self.puzzle.boards[i] & !old_solved;
            proof {
                lemma_bit_and(x.boards[i as int], !old_solved);
                assert forall|c: int| #[trigger]
                    bit(unsolved, c) == (x.has(c, i as int) && x.count(c) != 1) by {}
                lemma_bit_bound(unsolved);
            }
            let in_rows = quick_rows(unsolved);
            proof {
                assert forall|j: int| #[trigger] bit(in_rows, j) implies exists|g: int|
                    9 <= g < 18 && #[trigger] anchor(g) == j by {
                    assert(anchor(9 + j / 9) == j);
                }
            }
            let rows = gather(unsolved, in_rows, ROW, Ghost(9));
            let in_columns = quick_columns(unsolved);
            proof {
                assert forall|j: int| #[trigger] bit(in_columns, j) implies exists|g: int|
                    18 <= g < 27 && #[trigger] anchor(g) == j by {
                    assert(anchor(18 + j) == j);
                }
            }
            let columns = gather(unsolved, in_columns, COLUMN, Ghost(18));
            let in_boxes = quick_boxes(unsolved);
            proof {
                assert forall|j: int| #[trigger] bit(in_boxes, j) implies exists|g: int|
                    0 <= g < 9 && #[trigger] anchor(g) == j by {
                    assert(anchor(j / 27 * 3 + j % 9 / 3) == j);
                }
            }
            let boxes = gather(unsolved, in_boxes, BOX, Ghost(0));
            let hits = rows | columns | boxes;
            proof {
                lemma_bit_or(rows, columns);
                lemma_bit_or(rows | columns, boxes);
                lemma_bit_or(all_solved, hits);
                assert forall|c: int| #[trigger] bit(hits, c) == hidden_single(x, c, i as int) by {
                    if bit(hits, c) {
                        let g = if bit(rows, c) {
                            choose|g: int|
                                9 <= g < 18 && #[trigger] only_bit(unsolved & group_mask(g), c)
                        } else if bit(columns, c) {
                            choose|g: int|
                                18 <= g < 27 && #[trigger] only_bit(unsolved & group_mask(g), c)
                        } else {
                            choose|g: int|
                                0 <= g < 9 && #[trigger] only_bit(unsolved & group_mask(g), c)
                        };
                        lemma_alone(x, unsolved, g, c, i as int);
                        assert(alone_in(x, g, c, i as int));
                    }
                    if hidden_single(x, c, i as int) {
                        let g = choose|g: int| 0 <= g < 27 && #[trigger] alone_in(x, g, c, i as int);
                        lemma_alone(x, unsolved, g, c, i as int);
                        assert(only_bit(unsolved & group_mask(g), c));
                    }
                }
                assert forall|c: int| #[trigger]
                    bit(all_solved | hits, c) == hidden_below(x, c, i + 1) by {
                    if hidden_below(x, c, i as int) {
                        let e = choose|e: int| 0 <= e < i && #[trigger] hidden_single(x, c, e);
                        assert(0 <= e < i + 1 && hidden_single(x, c, e));
                    }
                    if hidden_single(x, c, i as int) {
                        assert(0 <= i < i + 1 && hidden_single(x, c, i as int));
                    }
                    if hidden_below(x, c, i + 1) {
                        let e = choose|e: int| 0 <= e < i + 1 && #[trigger] hidden_single(x, c, e);
                        if e < i {
                            assert(hidden_below(x, c, i as int));
                        }
                    }
                }
            }
            num_solved[i] = hits;
            all_solved = all_solved | hits;
            i += 1;
        }
        let mut k: usize = 0;
        while k < 9
            invariant
                k <= 9,
                self.squares == old(self).squares,
                self.groups == old(self).groups,
                self.stack == old(self).stack,
                self.puzzle.solved == x.solved,
                forall|d: int|
                    0 <= d < k ==> self.puzzle.boards[d] == x.boards[d] & (!all_solved
                        | num_solved[d]),
                forall|d: int| k <= d < 9 ==> self.puzzle.boards[d] == x.boards[d],
            decreases 9 - k,
        {
            self.puzzle.boards[k] = self.puzzle.boards[k] & (!all_solved | num_solved[k]);
            k += 1;
        }
        proof {
            let y = self.puzzle;
            lemma_bit_not(all_solved);
            assert forall|c: int, d: int| #[trigger]
                y.has(c, d) == (x.has(c, d) && (hidden_single(x, c, d) || !any_hidden(x, c))) by {
                if 0 <= d < 9 {
                    lemma_bit_or(!all_solved, num_solved[d]);
                    lemma_bit_and(x.boards[d], !all_solved | num_solved[d]);
                    if any_hidden(x, c) {
                        let e = choose|e: int| #[trigger] hidden_single(x, c, e);
                        let g = choose|g: int| 0 <= g < 27 && #[trigger] alone_in(x, g, c, e);
                        assert(0 <= e < 9 && hidden_single(x, c, e));
                        assert(hidden_below(x, c, 9));
                    }
                    if hidden_below(x, c, 9) {
                        let e = choose|e: int| 0 <= e < 9 && #[trigger] hidden_single(x, c, e);
                        assert(hidden_single(x, c, e));
                    }
                }
            }
            assert forall|grid: Seq<int>| is_solution(grid) && #[trigger] x.admits(grid) implies y.admits(
                grid,
            ) by {
                assert forall|c: int| 0 <= c < 81 implies y.has(c, #[trigger] grid[c]) by {
                    assert(x.has(c, grid[c]));
                    if any_hidden(x, c) {
                        let e = choose|e: int| #[trigger] hidden_single(x, c, e);
                        lemma_forced(x, grid, c, e);
                    }
                }
            }
            assert(y.refines(x));
            lemma_refines_wf(x, y);
            assert(reveals(x, y));
            lemma_derives_step(x, y);
        }
    }
}

} // verus!
