use crate::bits::{bit, lemma_bit_ext};
use crate::deduce::{lemma_full_grid, lemma_refines_wf, solvable};
use crate::puzzle::Puzzle;
use vstd::prelude::*;

verus! {

/// Whether `end` is a finished grid that was possible on `p`: every cell
/// of `end` is solved with one of its candidates on `p`, and no two peers
/// have the same digit.
pub open spec fn finishes(p: Puzzle, end: Puzzle) -> bool {
    &&& end.complete()
    &&& end.consistent()
    &&& end.propagated()
    &&& end.refines(p)
}

/// A board that is a finished grid already is solvable, and no other
/// finished grid is possible on it: a search ends with the same candidates.
pub proof fn lemma_finished_already(p: Puzzle, end: Puzzle)
    requires
        finishes(p, p),
        finishes(p, end),
    ensures
        solvable(p),
        end.boards == p.boards,
{
    lemma_full_grid(p);
    assert forall|d: int| 0 <= d < 9 implies end.boards[d] == p.boards[d] by {
        assert forall|i: int| 0 <= i < 128 implies bit(end.boards[d], i) == bit(p.boards[d], i) by {
            assert(end.has(i, d) == bit(end.boards[d], i));
            assert(p.has(i, d) == bit(p.boards[d], i));
            if 0 <= i < 81 && p.has(i, d) {
                assert(end.count(i) == 1);
                let e = end.lemma_positive_count(i);
                assert(p.has(i, e));
                assert(p.count(i) == 1);
                p.lemma_lone_candidate(i, d);
            }
        }
        lemma_bit_ext(end.boards[d], p.boards[d]);
    }
    assert(end.boards =~= p.boards);
}

/// Whether the checkpoint `e` still stands for the finished grid `grid`:
/// the grid was possible when the guess was made, and gives the guessed
/// cell another digit than the one that was tried.
pub open spec fn covers(e: (Puzzle, u8, u8), grid: Seq<int>) -> bool {
    e.0.admits(grid) && grid[e.1 as int] != e.2
}

/// Whether one of the checkpoints stands for `grid`.
pub open spec fn covered(trail: Seq<(Puzzle, u8, u8)>, grid: Seq<int>) -> bool {
    exists|k: int| 0 <= k < trail.len() && #[trigger] covers(trail[k], grid)
}

/// What holds of a checkpoint of a search that began at `start`: its
/// board has the invariant and was refined from `start`, and the digit
/// that was tried is a candidate of the guessed cell.
pub open spec fn checkpoint_ok(e: (Puzzle, u8, u8), start: Puzzle) -> bool {
    &&& e.0.wf()
    &&& e.0.refines(start)
    &&& e.1 < 81
    &&& e.0.has(e.1 as int, e.2 as int)
}

/// Three to the power of `n`.
pub open spec fn pow3(n: nat) -> nat
    decreases n,
{
    if n == 0 {
        1
    } else {
        3 * pow3((n - 1) as nat)
    }
}

/// Powers of three are positive and grow.
pub proof fn lemma_pow3(a: nat, b: nat)
    requires
        a <= b,
    ensures
        1 <= pow3(a) <= pow3(b),
    decreases b,
{
    if a < b {
        lemma_pow3(a, (b - 1) as nat);
    } else if a > 0 {
        lemma_pow3((a - 1) as nat, (b - 1) as nat);
    }
}

/// A bound on the search that the checkpoints still stand for.
pub open spec fn trail_weight(trail: Seq<(Puzzle, u8, u8)>) -> nat
    decreases trail.len(),
{
    if trail.len() == 0 {
        0
    } else {
        trail_weight(trail.drop_last()) + pow3((trail.last().0.total() - 1) as nat)
    }
}

/// A bound on the search that is left: on the board, and on what the
/// checkpoints lead back to.
pub open spec fn weight(cur: Puzzle, trail: Seq<(Puzzle, u8, u8)>) -> nat {
    pow3(cur.total()) + trail_weight(trail)
}

/// A guess: the guessed cell keeps one candidate of at least two. The new
/// board and the checkpoint weigh less than the board before, and every
/// grid that was possible is still possible or stands in the checkpoint.
pub proof fn lemma_guess(p: Puzzle, q: Puzzle, trail: Seq<(Puzzle, u8, u8)>, cell: u8, digit: u8)
    requires
        p.wf(),
        cell < 81,
        p.count(cell as int) >= 2,
        p.has(cell as int, digit as int),
        q.solved == p.solved,
        forall|c: int, d: int| #[trigger]
            q.has(c, d) == (if c == cell {
                d == digit
            } else {
                p.has(c, d)
            }),
    ensures
        q.wf(),
        q.refines(p),
        p.consistent() ==> q.consistent(),
        weight(q, trail.push((p, cell, digit))) < weight(p, trail),
        forall|grid: Seq<int>|
            #[trigger] p.admits(grid) ==> q.admits(grid) || covers((p, cell, digit), grid),
{
    assert(q.refines(p));
    lemma_refines_wf(p, q);
    if p.consistent() {
        assert forall|c: int| 0 <= c < 81 implies #[trigger] q.count(c) >= 1 by {
            if c == cell {
                q.lemma_count_positive(c, digit as int);
            } else {
                assert(p.count(c) >= 1);
                let d = p.lemma_positive_count(c);
                q.lemma_count_positive(c, d);
            }
        }
    }
    let other = p.lemma_second_candidate(cell as int, digit as int);
    q.lemma_refines_total(p, 81);
    assert(p.has(cell as int, other) && !q.has(cell as int, other));
    assert(q.total() <= p.total() - 1);
    lemma_pow3(q.total(), (p.total() - 1) as nat);
    assert(trail.push((p, cell, digit)).drop_last() =~= trail);
    assert forall|grid: Seq<int>| #[trigger] p.admits(grid) implies q.admits(grid) || covers(
        (p, cell, digit),
        grid,
    ) by {
        if grid[cell as int] == digit {
            assert forall|c: int| 0 <= c < 81 implies q.has(c, #[trigger] grid[c]) by {
                assert(p.has(c, grid[c]));
            }
        }
    }
}

/// Going back to a checkpoint: the board of the checkpoint without the
/// digit that was tried. It weighs no more than the checkpoint did, and
/// every grid that the checkpoint stood for is possible on it.
pub proof fn lemma_retry(p: Puzzle, q: Puzzle, start: Puzzle, cell: u8, digit: u8)
    requires
        checkpoint_ok((p, cell, digit), start),
        q.solved == p.solved,
        forall|c: int, d: int| #[trigger]
            q.has(c, d) == (p.has(c, d) && !(c == cell && d == digit)),
    ensures
        q.wf(),
        q.refines(start),
        pow3(q.total()) <= pow3((p.total() - 1) as nat),
        forall|grid: Seq<int>| #[trigger] covers((p, cell, digit), grid) ==> q.admits(grid),
{
    assert(q.refines(p));
    lemma_refines_wf(p, q);
    q.lemma_refines_total(p, 81);
    assert(p.has(cell as int, digit as int) && !q.has(cell as int, digit as int));
    lemma_pow3(q.total(), (p.total() - 1) as nat);
    assert forall|grid: Seq<int>| #[trigger] covers((p, cell, digit), grid) implies q.admits(
        grid,
    ) by {
        assert forall|c: int| 0 <= c < 81 implies q.has(c, #[trigger] grid[c]) by {
            assert(p.has(c, grid[c]));
        }
    }
}

} // verus!
