use crate::bits::{bit, lemma_bit_and, only_bit};
use crate::grid::{
    group_mask, in_unit, is_solution, lemma_distinct_is_solution, lemma_group_bits,
    lemma_peers_share_unit, peers, unit_holds,
};
use crate::puzzle::Puzzle;
use vstd::prelude::*;

verus! {

/// Whether `cell` is the only cell of `unsolved` in one of the groups from
/// `lo` up to `hi`.
pub open spec fn forced_in(unsolved: u128, cell: int, lo: int, hi: int) -> bool {
    exists|g: int| lo <= g < hi && #[trigger] only_bit(unsolved & group_mask(g), cell)
}

/// Whether `cell` is the only unsolved cell of group `g` that can still
/// take `digit`.
pub open spec fn alone_in(p: Puzzle, g: int, cell: int, digit: int) -> bool {
    &&& in_unit(g, cell)
    &&& p.has(cell, digit)
    &&& p.count(cell) != 1
    &&& forall|c: int| #[trigger] in_unit(g, c) && p.has(c, digit) && p.count(c) != 1 ==> c == cell
}

/// Whether `cell` is a hidden single for `digit`: the only unsolved cell
/// of one of its groups that can still take the digit.
pub open spec fn hidden_single(p: Puzzle, cell: int, digit: int) -> bool {
    exists|g: int| 0 <= g < 27 && #[trigger] alone_in(p, g, cell, digit)
}

/// Whether `cell` is a hidden single for some digit.
pub open spec fn any_hidden(p: Puzzle, cell: int) -> bool {
    exists|e: int| #[trigger] hidden_single(p, cell, e)
}

/// In a mask of the unsolved cells that can take a digit, the cell that
/// stands alone in a group is the hidden single of the group.
pub proof fn lemma_alone(p: Puzzle, unsolved: u128, g: int, cell: int, digit: int)
    requires
        0 <= g < 27,
        forall|c: int| #[trigger] bit(unsolved, c) == (p.has(c, digit) && p.count(c) != 1),
    ensures
        only_bit(unsolved & group_mask(g), cell) <==> alone_in(p, g, cell, digit),
{
    lemma_bit_and(unsolved, group_mask(g));
    lemma_group_bits(g);
    if alone_in(p, g, cell, digit) {
        assert(bit(unsolved, cell));
        assert forall|j: int| #[trigger] bit(unsolved & group_mask(g), j) implies j == cell by {
            assert(in_unit(g, j));
        }
    }
    if only_bit(unsolved & group_mask(g), cell) {
        assert forall|c: int|
            #[trigger] in_unit(g, c) && p.has(c, digit) && p.count(c) != 1 implies c == cell by {
            assert(bit(unsolved & group_mask(g), c));
        }
    }
}

/// Whether `cell` is a hidden single for one of the digits below `n`.
pub open spec fn hidden_below(p: Puzzle, cell: int, n: int) -> bool {
    exists|e: int| 0 <= e < n && #[trigger] hidden_single(p, cell, e)
}

/// What every step of propagation keeps of the board `pre` that it started
/// from: no candidate comes back, no mark is lost, and every finished grid
/// that was possible still is.
pub open spec fn carries(pre: Puzzle, cur: Puzzle) -> bool {
    &&& cur.in_range()
    &&& cur.refines(pre)
    &&& forall|i: int| bit(pre.solved, i) ==> #[trigger] bit(cur.solved, i)
    &&& forall|grid: Seq<int>| is_solution(grid) && #[trigger] pre.admits(grid) ==> cur.admits(grid)
}

/// The first kind of deduction: `cell` is solved with `digit`, and `q` is
/// `p` without that digit in the peers of the cell.
pub open spec fn strikes(p: Puzzle, q: Puzzle, cell: int, digit: int) -> bool {
    &&& p.count(cell) == 1
    &&& p.has(cell, digit)
    &&& forall|c: int, d: int| #[trigger]
        q.has(c, d) == (p.has(c, d) && !(d == digit && peers(cell, c)))
}

/// The second kind of deduction: `q` is `p` with each hidden single left
/// only the digits for which it is one.
pub open spec fn reveals(p: Puzzle, q: Puzzle) -> bool {
    forall|c: int, d: int| #[trigger]
        q.has(c, d) == (p.has(c, d) && (hidden_single(p, c, d) || !any_hidden(p, c)))
}

/// One deduction leads from `p` to `q`.
pub open spec fn deduction(p: Puzzle, q: Puzzle) -> bool {
    reveals(p, q) || exists|c: int, d: int| #[trigger] strikes(p, q, c, d)
}

/// Each board of `trace` follows from the one before it by a deduction.
pub open spec fn is_trace(trace: Seq<Puzzle>) -> bool {
    &&& trace.len() >= 1
    &&& forall|k: int| 0 <= k < trace.len() - 1 ==> deduction(#[trigger] trace[k], trace[k + 1])
}

/// The candidates of `q` follow from those of `p` by deductions, and by
/// nothing else.
pub open spec fn derives(p: Puzzle, q: Puzzle) -> bool {
    exists|trace: Seq<Puzzle>| #[trigger]
        is_trace(trace) && trace[0].boards == p.boards && trace.last().boards == q.boards
}

/// A deduction looks at the candidates only, not at the marks.
pub proof fn lemma_deduction_boards(p: Puzzle, q: Puzzle, pa: Puzzle, qa: Puzzle)
    requires
        deduction(p, q),
        pa.boards == p.boards,
        qa.boards == q.boards,
    ensures
        deduction(pa, qa),
{
    assert(pa.refines(p) && p.refines(pa));
    assert forall|c: int| pa.count(c) == p.count(c) by {
        pa.lemma_refines_count(p, c, 9);
        p.lemma_refines_count(pa, c, 9);
    }
    assert forall|g: int, c: int, d: int| alone_in(pa, g, c, d) == alone_in(p, g, c, d) by {
        if alone_in(p, g, c, d) {
            assert(alone_in(pa, g, c, d));
        }
        if alone_in(pa, g, c, d) {
            assert(alone_in(p, g, c, d));
        }
    }
    assert forall|c: int, d: int| hidden_single(pa, c, d) == hidden_single(p, c, d) by {
        if hidden_single(p, c, d) {
            let g = choose|g: int| 0 <= g < 27 && #[trigger] alone_in(p, g, c, d);
            assert(alone_in(pa, g, c, d));
        }
        if hidden_single(pa, c, d) {
            let g = choose|g: int| 0 <= g < 27 && #[trigger] alone_in(pa, g, c, d);
            assert(alone_in(p, g, c, d));
        }
    }
    assert forall|c: int| any_hidden(pa, c) == any_hidden(p, c) by {
        if any_hidden(p, c) {
            let e = choose|e: int| #[trigger] hidden_single(p, c, e);
            assert(hidden_single(pa, c, e));
        }
        if any_hidden(pa, c) {
            let e = choose|e: int| #[trigger] hidden_single(pa, c, e);
            assert(hidden_single(p, c, e));
        }
    }
    if reveals(p, q) {
        assert forall|c: int, d: int| #[trigger]
            qa.has(c, d) == (pa.has(c, d) && (hidden_single(pa, c, d) || !any_hidden(pa, c))) by {
            assert(qa.has(c, d) == q.has(c, d));
        }
    } else {
        let (c, d) = choose|c: int, d: int| #[trigger] strikes(p, q, c, d);
        assert forall|c2: int, e: int| #[trigger]
            qa.has(c2, e) == (pa.has(c2, e) && !(e == d && peers(c, c2))) by {
            assert(qa.has(c2, e) == q.has(c2, e));
        }
        assert(strikes(pa, qa, c, d));
    }
}

/// Boards with the same candidates follow from each other.
pub proof fn lemma_derives_same(p: Puzzle, q: Puzzle)
    requires
        p.boards == q.boards,
    ensures
        derives(p, q),
{
    let trace = seq![p];
    assert(is_trace(trace) && trace[0].boards == p.boards && trace.last().boards == q.boards);
}

/// What one deduction gives follows.
pub proof fn lemma_derives_step(p: Puzzle, q: Puzzle)
    requires
        deduction(p, q),
    ensures
        derives(p, q),
{
    let trace = seq![p, q];
    assert(is_trace(trace) && trace[0].boards == p.boards && trace.last().boards == q.boards);
}

/// What follows from what follows, follows.
pub proof fn lemma_derives_trans(p: Puzzle, q: Puzzle, r: Puzzle)
    requires
        derives(p, q),
        derives(q, r),
    ensures
        derives(p, r),
{
    let first = choose|t: Seq<Puzzle>| #[trigger]
        is_trace(t) && t[0].boards == p.boards && t.last().boards == q.boards;
    let second = choose|t: Seq<Puzzle>| #[trigger]
        is_trace(t) && t[0].boards == q.boards && t.last().boards == r.boards;
    let trace = first + second.subrange(1, second.len() as int);
    assert forall|k: int| 0 <= k < trace.len() - 1 implies deduction(
        #[trigger] trace[k],
        trace[k + 1],
    ) by {
        if k < first.len() - 1 {
            assert(deduction(first[k], first[k + 1]));
        } else if k == first.len() - 1 {
            assert(deduction(second[0], second[1]));
            lemma_deduction_boards(second[0], second[1], first[k], second[1]);
        } else {
            let j = k - first.len() + 1;
            assert(deduction(second[j], second[j + 1]));
        }
    }
    assert(is_trace(trace) && trace[0].boards == p.boards && trace.last().boards == r.boards);
}

/// Whether a finished grid is possible on the board.
pub open spec fn solvable(p: Puzzle) -> bool {
    exists|grid: Seq<int>| is_solution(grid) && #[trigger] p.admits(grid)
}

/// No hidden single is left on the board, unless no finished grid is
/// possible on it.
pub open spec fn quiet(p: Puzzle) -> bool {
    solvable(p) ==> forall|c: int, d: int| !#[trigger] hidden_single(p, c, d)
}

/// What propagation makes of a board: see `carries`; the board's
/// invariant holds again; unless a cell lost its last candidate, every
/// solved cell is marked and its digit is gone from its peers; a board on
/// which every solved cell was marked already is left as it was; any
/// other board is left without a hidden single, see `quiet`; and no
/// candidate is lost but by the two kinds of deduction, see `derives`.
pub open spec fn propagation(pre: Puzzle, post: Puzzle) -> bool {
    &&& carries(pre, post)
    &&& post.wf()
    &&& post.consistent() ==> post.settled() && post.propagated()
    &&& pre.settled() ==> post == pre
    &&& !pre.settled() ==> quiet(post)
    &&& derives(pre, post)
}

/// Where giving the hidden singles of `x` their digits made `y`, and
/// solved no cell that was not marked, `y` has no hidden single, unless no
/// finished grid is possible on it.
pub proof fn lemma_quiet(x: Puzzle, y: Puzzle)
    requires
        x.wf(),
        x.settled(),
        y.solved == x.solved,
        y.settled(),
        forall|c: int, d: int| #[trigger]
            y.has(c, d) == (x.has(c, d) && (hidden_single(x, c, d) || !any_hidden(x, c))),
    ensures
        quiet(y),
{
    if solvable(y) {
        let grid = choose|grid: Seq<int>| is_solution(grid) && #[trigger] y.admits(grid);
        assert(x.admits(grid)) by {
            assert forall|c: int| 0 <= c < 81 implies x.has(c, #[trigger] grid[c]) by {
                assert(y.has(c, grid[c]));
            }
        }
        assert forall|c: int| !any_hidden(x, c) by {
            if any_hidden(x, c) {
                let e = choose|e: int| #[trigger] hidden_single(x, c, e);
                let g = choose|g: int| 0 <= g < 27 && #[trigger] alone_in(x, g, c, e);
                lemma_forced(x, grid, c, e);
                assert(y.has(c, grid[c]));
                assert forall|d: int| y.has(c, d) implies d == grid[c] by {
                    lemma_forced(x, grid, c, d);
                }
                y.lemma_one_candidate(c, grid[c]);
                assert(bit(y.solved, c));
                assert(x.count(c) <= 1);
                x.lemma_count_positive(c, e);
            }
        }
        assert(y.refines(x) && x.refines(y));
        assert forall|c: int, d: int| !#[trigger] hidden_single(y, c, d) by {
            if hidden_single(y, c, d) {
                let g = choose|g: int| 0 <= g < 27 && #[trigger] alone_in(y, g, c, d);
                y.lemma_refines_count(x, c, 9);
                x.lemma_refines_count(y, c, 9);
                assert forall|c2: int|
                    #[trigger] in_unit(g, c2) && x.has(c2, d) && x.count(c2) != 1 implies c2
                    == c by {
                    y.lemma_refines_count(x, c2, 9);
                    x.lemma_refines_count(y, c2, 9);
                }
                assert(alone_in(x, g, c, d));
                assert(hidden_single(x, c, d));
                assert(any_hidden(x, c));
            }
        }
    }
}

/// A board with its invariant on which every solved cell is marked, and
/// every cell has a candidate, has the digit of each solved cell gone from
/// the cell's peers.
pub proof fn lemma_settled_propagated(p: Puzzle)
    requires
        p.wf(),
        p.settled(),
        p.consistent(),
    ensures
        p.propagated(),
{
    assert forall|c: int| #[trigger] p.count(c) == 1 implies p.eliminated(c) by {
        assert(bit(p.solved, c));
    }
}

/// Propagating twice changes no more than propagating once, as long as
/// every cell has a candidate after the first time.
pub proof fn lemma_propagation_idempotent(start: Puzzle, once: Puzzle, twice: Puzzle)
    requires
        propagation(start, once),
        once.consistent(),
        propagation(once, twice),
    ensures
        twice == once,
{
}

/// `carries` is transitive.
pub proof fn lemma_carries_trans(a: Puzzle, b: Puzzle, c: Puzzle)
    requires
        carries(a, b),
        carries(b, c),
    ensures
        carries(a, c),
{
    assert forall|grid: Seq<int>| is_solution(grid) && #[trigger] a.admits(grid) implies c.admits(
        grid,
    ) by {
        assert(b.admits(grid));
    }
}

/// A board that still has a candidate in every cell was refined from one
/// that has.
pub proof fn lemma_refines_consistent(p: Puzzle, q: Puzzle)
    requires
        q.refines(p),
        p.in_range(),
        q.consistent(),
    ensures
        p.consistent(),
{
    assert forall|c: int| 0 <= c < 81 implies #[trigger] p.count(c) >= 1 by {
        assert(q.count(c) >= 1);
        let d = q.lemma_positive_count(c);
        p.lemma_count_positive(c, d);
    }
}

/// What was refined from a board with its invariant, with the same marks
/// and nothing outside the grid, has the invariant too.
pub proof fn lemma_refines_wf(p: Puzzle, q: Puzzle)
    requires
        p.wf(),
        q.refines(p),
        q.solved == p.solved,
    ensures
        q.wf(),
{
    assert forall|d: int, i: int| 0 <= d < 9 && #[trigger] bit(q.boards[d], i) implies 0 <= i
        < 81 by {
        assert(q.has(i, d));
        assert(p.has(i, d));
    }
    assert forall|c: int| #[trigger] bit(q.solved, c) implies q.count(c) <= 1 by {
        q.lemma_refines_count(p, c, 9);
    }
    if q.consistent() {
        lemma_refines_consistent(p, q);
        assert forall|c: int| #[trigger] bit(q.solved, c) implies q.eliminated(c) by {
            assert(p.eliminated(c));
            assert forall|d: int, c2: int| q.has(c, d) && peers(c, c2) implies !#[trigger] q.has(
                c2,
                d,
            ) by {
                assert(p.has(c, d));
                if q.has(c2, d) {
                    assert(p.has(c2, d));
                }
            }
        }
    }
}

/// A board on which a finished grid is possible has a candidate in every
/// cell.
pub proof fn lemma_admits_consistent(p: Puzzle, grid: Seq<int>)
    requires
        p.in_range(),
        p.admits(grid),
    ensures
        p.consistent(),
{
    assert forall|c: int| 0 <= c < 81 implies #[trigger] p.count(c) >= 1 by {
        p.lemma_count_positive(c, grid[c]);
    }
}

/// Taking the digit of a solved cell from the cell's peers: the step
/// carries the board, and afterwards no peer has the digit.
pub proof fn lemma_eliminate(p: Puzzle, q: Puzzle, cell: int, digit: int, mask: u128)
    requires
        p.in_range(),
        0 <= cell < 81,
        0 <= digit < 9,
        forall|d: int| p.has(cell, d) ==> d == digit,
        forall|i: int| #[trigger] bit(mask, i) == (0 <= i < 128 && !peers(cell, i)),
        q.boards[digit] == p.boards[digit] & mask,
        forall|d: int| 0 <= d < 9 && d != digit ==> q.boards[d] == p.boards[d],
        q.solved == p.solved,
    ensures
        carries(p, q),
        forall|c: int| peers(cell, c) ==> !q.has(c, digit),
        p.has(cell, digit) ==> strikes(p, q, cell, digit),
{
    lemma_bit_and(p.boards[digit], mask);
    if p.has(cell, digit) {
        p.lemma_one_candidate(cell, digit);
    }
    assert forall|grid: Seq<int>| is_solution(grid) && #[trigger] p.admits(grid) implies q.admits(
        grid,
    ) by {
        assert(p.has(cell, grid[cell]));
        assert forall|c: int| 0 <= c < 81 implies q.has(c, #[trigger] grid[c]) by {
            assert(p.has(c, grid[c]));
            if grid[c] == digit && peers(cell, c) {
                assert(grid[cell] != grid[c]);
            }
        }
    }
}

/// A hidden single takes its digit in every finished grid that is
/// possible, on a board whose solved cells are all marked.
pub proof fn lemma_forced(p: Puzzle, grid: Seq<int>, cell: int, digit: int)
    requires
        p.wf(),
        p.settled(),
        is_solution(grid),
        p.admits(grid),
        hidden_single(p, cell, digit),
    ensures
        grid[cell] == digit,
{
    let g = choose|g: int| 0 <= g < 27 && #[trigger] alone_in(p, g, cell, digit);
    lemma_admits_consistent(p, grid);
    assert(unit_holds(grid, g, digit));
    let c = choose|c: int| #[trigger] in_unit(g, c) && grid[c] == digit;
    assert(p.has(c, grid[c]));
    if p.count(c) == 1 {
        assert(bit(p.solved, c));
        assert(p.eliminated(c));
        assert(c != cell);
        lemma_peers_share_unit(c, cell);
        assert(in_unit(g, c) && in_unit(g, cell));
        assert(peers(c, cell));
        assert(!p.has(cell, digit));
    }
}

/// A board on which every cell is solved and no two peers have the same
/// digit is a finished grid, and the only one that is possible on it.
pub proof fn lemma_full_grid(p: Puzzle)
    requires
        p.complete(),
        p.consistent(),
        p.propagated(),
    ensures
        is_solution(p.grid()),
        p.admits(p.grid()),
        forall|grid: Seq<int>| grid.len() == 81 && #[trigger] p.admits(grid) ==> grid == p.grid(),
{
    let mine = p.grid();
    assert forall|c: int| 0 <= c < 81 implies p.has(c, #[trigger] mine[c]) by {
        assert(p.count(c) == 1);
        let d = p.lemma_positive_count(c);
        p.lemma_lone_candidate(c, d);
    }
    assert forall|a: int, b: int| #[trigger] peers(a, b) implies mine[a] != mine[b] by {
        assert(p.count(a) == 1);
        assert(p.eliminated(a));
        assert(p.has(a, mine[a]));
        assert(p.has(b, mine[b]));
    }
    lemma_distinct_is_solution(mine);
    assert forall|grid: Seq<int>| grid.len() == 81 && #[trigger] p.admits(grid) implies grid
        == mine by {
        assert forall|c: int| 0 <= c < 81 implies grid[c] == mine[c] by {
            assert(p.count(c) == 1);
            assert(p.has(c, grid[c]));
            p.lemma_lone_candidate(c, grid[c]);
        }
        assert(grid =~= mine);
    }
}

/// On a board on which every cell is solved, and two peers have the same
/// digit, no finished grid is possible.
pub proof fn lemma_clash(p: Puzzle, grid: Seq<int>)
    requires
        p.complete(),
        !p.propagated(),
        is_solution(grid),
    ensures
        !p.admits(grid),
{
    if p.admits(grid) {
        let c = choose|c: int| #[trigger] p.count(c) == 1 && !p.eliminated(c);
        let (d, c2) = choose|d: int, c2: int|
            p.has(c, d) && peers(c, c2) && #[trigger] p.has(c2, d);
        assert(p.count(c2) == 1);
        assert(p.has(c, grid[c]));
        assert(p.has(c2, grid[c2]));
        p.lemma_lone_candidate(c, d);
        p.lemma_lone_candidate(c2, d);
        assert(grid[c] != grid[c2]);
    }
}

/// On a board on which every cell is solved, the validator's verdict
/// (every cell has a candidate, and the digit of each solved cell is gone
/// from the cell's peers) says that no two peers have the same digit.
pub proof fn lemma_valid_full_grid(p: Puzzle)
    requires
        p.in_range(),
        p.complete(),
    ensures
        (p.consistent() && p.propagated()) <==> (forall|a: int, b: int| #[trigger]
            peers(a, b) ==> p.digit_at(a) != p.digit_at(b)),
{
    assert(p.consistent());
    assert forall|c: int| 0 <= c < 81 implies #[trigger] p.has(c, p.digit_at(c)) && (forall|d: int|
        p.has(c, d) ==> d == p.digit_at(c)) by {
        assert(p.count(c) == 1);
        let d = p.lemma_positive_count(c);
        p.lemma_lone_candidate(c, d);
    }
    if p.propagated() {
        assert forall|a: int, b: int| #[trigger] peers(a, b) implies p.digit_at(a) != p.digit_at(
            b,
        ) by {
            assert(p.count(a) == 1);
            assert(p.eliminated(a));
            assert(p.has(a, p.digit_at(a)));
            assert(p.has(b, p.digit_at(b)));
        }
    }
    if forall|a: int, b: int| #[trigger] peers(a, b) ==> p.digit_at(a) != p.digit_at(b) {
        assert forall|c: int| #[trigger] p.count(c) == 1 implies p.eliminated(c) by {
            assert forall|d: int, c2: int| p.has(c, d) && peers(c, c2) implies !#[trigger] p.has(
                c2,
                d,
            ) by {
                assert(p.has(c, p.digit_at(c)));
                assert(p.has(c2, p.digit_at(c2)));
            }
        }
    }
}

} // verus!
