use crate::bits::bit;
use vstd::prelude::*;

verus! {

/// The cells of the first row.
pub const ROW: u128 = 0o777;

/// The cells of the first column.
pub const COLUMN: u128 = 0o001_001_001_001_001_001_001_001_001;

/// The cells of the first box.
pub const BOX: u128 = 0o7007007;

/// The first cell of each box.
pub const BOX_LOCS: u128 = 0o000_000_111_000_000_111_000_000_111;

/// The row of a cell.
pub open spec fn row_of(c: int) -> int {
    c / 9
}

/// The column of a cell.
pub open spec fn col_of(c: int) -> int {
    c % 9
}

/// The box of a cell.
pub open spec fn box_of(c: int) -> int {
    (c / 9) / 3 * 3 + (c % 9) / 3
}

/// Whether cell `c` belongs to group `g`. Groups 0 to 8 are the boxes,
/// 9 to 17 the rows and 18 to 26 the columns.
pub open spec fn in_unit(g: int, c: int) -> bool {
    0 <= c < 81 && if 0 <= g < 9 {
        box_of(c) == g
    } else if 9 <= g < 18 {
        row_of(c) == g - 9
    } else if 18 <= g < 27 {
        col_of(c) == g - 18
    } else {
        false
    }
}

/// Whether `a` and `b` are two cells that share a row, a column or a box.
pub open spec fn peers(a: int, b: int) -> bool {
    &&& 0 <= a < 81
    &&& 0 <= b < 81
    &&& a != b
    &&& (row_of(a) == row_of(b) || col_of(a) == col_of(b) || box_of(a) == box_of(b))
}

/// The first cell of group `g`: how far the pattern of the first box, row
/// or column is shifted to give the group.
pub open spec fn anchor(g: int) -> int {
    if 0 <= g < 9 {
        g % 3 * 3 + g / 3 * 27
    } else if 9 <= g < 18 {
        (g - 9) * 9
    } else {
        g - 18
    }
}

/// The mask of the cells of group `g`.
pub open spec fn group_mask(g: int) -> u128 {
    if 0 <= g < 9 {
        BOX << (anchor(g) as u128)
    } else if 9 <= g < 18 {
        ROW << (anchor(g) as u128)
    } else {
        COLUMN << (anchor(g) as u128)
    }
}

/// The bits of the three patterns after a shift.
proof fn lemma_pattern_bits(s: u128, k: u128)
    by (bit_vector)
    requires
        s <= 72,
        k < 128,
    ensures
        ((ROW << s) >> k) & 1 == 1 <==> s <= k < s + 9,
        ((COLUMN << s) >> k) & 1 == 1 <==> (k == s || k == s + 9 || k == s + 18 || k == s + 27
            || k == s + 36 || k == s + 45 || k == s + 54 || k == s + 63 || k == s + 72),
        ((BOX << s) >> k) & 1 == 1 <==> (k == s || k == s + 1 || k == s + 2 || k == s + 9 || k
            == s + 10 || k == s + 11 || k == s + 18 || k == s + 19 || k == s + 20),
{
}

/// The mask of a group holds exactly the cells of the group.
pub proof fn lemma_group_bits(g: int)
    requires
        0 <= g < 27,
    ensures
        forall|i: int| #[trigger] bit(group_mask(g), i) == in_unit(g, i),
{
    assert forall|i: int| #[trigger] bit(group_mask(g), i) == in_unit(g, i) by {
        if 0 <= i < 128 {
            lemma_pattern_bits(anchor(g) as u128, i as u128);
        }
    }
}

/// Two different cells of one group are peers, and two peers share a
/// group.
pub proof fn lemma_peers_share_unit(a: int, b: int)
    ensures
        peers(a, b) <==> (a != b && exists|g: int| 0 <= g < 27 && in_unit(g, a) && in_unit(g, b)),
{
    if peers(a, b) {
        if row_of(a) == row_of(b) {
            assert(in_unit(9 + row_of(a), a) && in_unit(9 + row_of(a), b));
        } else if col_of(a) == col_of(b) {
            assert(in_unit(18 + col_of(a), a) && in_unit(18 + col_of(a), b));
        } else {
            assert(in_unit(box_of(a), a) && in_unit(box_of(a), b));
        }
    }
}

/// Whether a cell of group `g` holds digit `d` in `grid`.
pub open spec fn unit_holds(grid: Seq<int>, g: int, d: int) -> bool {
    exists|c: int| #[trigger] in_unit(g, c) && grid[c] == d
}

/// Whether `grid` is a finished Sudoku: a digit from 0 to 8 in each of the
/// 81 cells, every digit in every group, and no digit twice among peers.
pub open spec fn is_solution(grid: Seq<int>) -> bool {
    &&& grid.len() == 81
    &&& forall|c: int| 0 <= c < 81 ==> 0 <= #[trigger] grid[c] < 9
    &&& forall|g: int, d: int| 0 <= g < 27 && 0 <= d < 9 ==> #[trigger] unit_holds(grid, g, d)
    &&& forall|a: int, b: int| #[trigger] peers(a, b) ==> grid[a] != grid[b]
}

/// The `k`-th cell of group `g`, for `k` from 0 to 8.
pub open spec fn cell_of(g: int, k: int) -> int {
    if 0 <= g < 9 {
        anchor(g) + k / 3 * 9 + k % 3
    } else if 9 <= g < 18 {
        anchor(g) + k
    } else {
        anchor(g) + 9 * k
    }
}

/// The nine cells of a group belong to it and differ from each other.
pub proof fn lemma_cell_of(g: int, k: int, l: int)
    requires
        0 <= g < 27,
        0 <= k < 9,
        0 <= l < 9,
    ensures
        in_unit(g, cell_of(g, k)),
        k != l ==> cell_of(g, k) != cell_of(g, l),
{
    if g < 9 {
        let a = anchor(g);
        let o = k / 3 * 9 + k % 3;
        assert(a == 27 * (g / 3) + 3 * (g % 3));
        assert(o == 9 * (k / 3) + k % 3);
        let c = a + o;
        assert(c == 9 * (3 * (g / 3) + k / 3) + (3 * (g % 3) + k % 3));
        assert(c / 9 == 3 * (g / 3) + k / 3);
        assert(c % 9 == 3 * (g % 3) + k % 3);
    }
}

/// Numbers below `n`, `n` of them and no two the same, are all the numbers
/// below `n`.
pub proof fn lemma_pigeons(f: Seq<int>, v: int) -> (i: int)
    requires
        forall|i: int| 0 <= i < f.len() ==> 0 <= #[trigger] f[i] < f.len(),
        forall|i: int, j: int| 0 <= i < j < f.len() ==> f[i] != f[j],
        0 <= v < f.len(),
    ensures
        0 <= i < f.len(),
        f[i] == v,
    decreases f.len(),
{
    let n = f.len() as int;
    let top = n - 1;
    if exists|p: int| 0 <= p < n && f[p] == top {
        let p = choose|p: int| 0 <= p < n && f[p] == top;
        if v == top {
            p
        } else {
            let rest = Seq::new(top as nat, |i: int| if i == p { f[top] } else { f[i] });
            assert forall|i: int| 0 <= i < rest.len() implies 0 <= #[trigger] rest[i] < rest.len() by {
                if i == p {
                    assert(f[top] != f[p]);
                } else {
                    assert(f[i] != f[p]);
                }
            }
            let i = lemma_pigeons(rest, v);
            if i == p {
                top
            } else {
                i
            }
        }
    } else {
        let rest = f.take(top);
        assert forall|i: int| 0 <= i < rest.len() implies 0 <= #[trigger] rest[i] < rest.len() by {
            assert(f[i] != top);
        }
        let i = lemma_pigeons(rest, f[top]);
        assert(f[i] == f[top]);
        0
    }
}

/// A grid with a digit in each cell and no digit twice among peers holds
/// every digit in every group.
pub proof fn lemma_distinct_is_solution(grid: Seq<int>)
    requires
        grid.len() == 81,
        forall|c: int| 0 <= c < 81 ==> 0 <= #[trigger] grid[c] < 9,
        forall|a: int, b: int| #[trigger] peers(a, b) ==> grid[a] != grid[b],
    ensures
        is_solution(grid),
{
    assert forall|g: int, d: int| 0 <= g < 27 && 0 <= d < 9 implies #[trigger] unit_holds(
        grid,
        g,
        d,
    ) by {
        let f = Seq::new(9, |k: int| grid[cell_of(g, k)]);
        assert forall|i: int| 0 <= i < f.len() implies 0 <= #[trigger] f[i] < f.len() by {
            lemma_cell_of(g, i, i);
        }
        assert forall|i: int, j: int| 0 <= i < j < f.len() implies f[i] != f[j] by {
            lemma_cell_of(g, i, j);
            lemma_cell_of(g, j, i);
            lemma_peers_share_unit(cell_of(g, i), cell_of(g, j));
            assert(peers(cell_of(g, i), cell_of(g, j)));
        }
        let k = lemma_pigeons(f, d);
        lemma_cell_of(g, k, k);
        assert(in_unit(g, cell_of(g, k)) && grid[cell_of(g, k)] == d);
    }
}

} // verus!
