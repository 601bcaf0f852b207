use crate::bits::{
    bit, lemma_bit_and, lemma_bit_not, lemma_bit_or, lemma_bit_single, lemma_bit_test,
    lemma_bit_zero,
};
use crate::grid::{
    anchor, group_mask, in_unit, lemma_group_bits, lemma_peers_share_unit, peers, BOX, COLUMN, ROW,
};
use vstd::prelude::*;

verus! {

/// The masks of the 27 groups: the boxes, then the rows, then the columns.
pub fn gen_group_table() -> (out: [u128; 27])
    ensures
        forall|g: int| 0 <= g < 27 ==> out[g] == group_mask(g),
{
    let mut out: [u128; 27] = [0;27];
    let mut i: usize = 0;
    while i < 9
        invariant
            i <= 9,
            forall|g: int| 0 <= g < i ==> out[g] == group_mask(g),
            forall|g: int| 9 <= g < 9 + i ==> out[g] == group_mask(g),
            forall|g: int| 18 <= g < 18 + i ==> out[g] == group_mask(g),
        decreases 9 - i,
    {
        let s: usize = (i % 3 * 3) + (i / 3 * 27);
        assert(s == anchor(i as int));
        assert(i * 9 == anchor(i + 9));
        assert(i == anchor(i + 18));
        out[i] = BOX << (s as u128);
        out[i + 9] = ROW << ((i * 9) as u128);
        out[i + 18] = COLUMN << (i as u128);
        i += 1;
    }
    out
}

/// Whether one of the groups below `n` holds both cells.
pub open spec fn share_below(a: int, b: int, n: nat) -> bool
    decreases n,
{
    n > 0 && (share_below(a, b, (n - 1) as nat) || (in_unit(n - 1, a) && in_unit(n - 1, b)))
}

/// `share_below` finds a group.
proof fn lemma_share_below(a: int, b: int, n: nat)
    ensures
        share_below(a, b, n) <==> exists|g: int| 0 <= g < n && in_unit(g, a) && in_unit(g, b),
    decreases n,
{
    if n > 0 {
        lemma_share_below(a, b, (n - 1) as nat);
        if share_below(a, b, n) {
            if share_below(a, b, (n - 1) as nat) {
                let g = choose|g: int| 0 <= g < n - 1 && in_unit(g, a) && in_unit(g, b);
                assert(0 <= g < n && in_unit(g, a) && in_unit(g, b));
            } else {
                assert(0 <= n - 1 < n && in_unit(n - 1, a) && in_unit(n - 1, b));
            }
        }
    }
}

/// For each cell, the mask that takes a digit away from the cell's peers:
/// every bit is set but those of the peers.
pub fn gen_square_table() -> (out: [u128; 81])
    ensures
        forall|c: int, i: int|
            0 <= c < 81 ==> #[trigger] bit(out[c], i) == (0 <= i < 128 && !peers(c, i)),
{
    let groups = gen_group_table();
    let mut out: [u128; 81] = [0;81];
    let mut c: usize = 0;
    while c < 81
        invariant
            c <= 81,
            forall|g: int| 0 <= g < 27 ==> groups[g] == group_mask(g),
            forall|a: int, i: int|
                0 <= a < c ==> #[trigger] bit(out[a], i) == (0 <= i < 128 && !peers(a, i)),
        decreases 81 - c,
    {
        let mut tmp: u128 = 0;
        let mut g: usize = 0;
        proof {
            lemma_bit_zero();
        }
        while g < 27
            invariant
                g <= 27,
                c < 81,
                forall|k: int| 0 <= k < 27 ==> groups[k] == group_mask(k),
                forall|i: int| #[trigger] bit(tmp, i) == share_below(c as int, i, g as nat),
            decreases 27 - g,
        {
            proof {
                lemma_group_bits(g as int);
                lemma_bit_test(groups[g as int], c as int);
                lemma_bit_or(tmp, groups[g as int]);
            }
            if groups[g] & (1u128 << (c as u128)) != 0 {
                tmp = tmp | groups[g];
            }
            proof {
                assert(groups[g as int] == group_mask(g as int));
                assert(bit(groups[g as int], c as int) == in_unit(g as int, c as int));
            }
            g += 1;
        }
        proof {
            lemma_bit_single(c as int);
            lemma_bit_not(1u128 << (c as u128));
            lemma_bit_and(tmp, !(1u128 << (c as u128)));
            lemma_bit_not(tmp & !(1u128 << (c as u128)));
            assert forall|i: int| share_below(c as int, i, 27) && i != c <==> peers(
                c as int,
                i,
            ) by {
                lemma_share_below(c as int, i, 27);
                lemma_peers_share_unit(c as int, i);
            }
        }
        tmp = tmp & !(1u128 << (c as u128));
        out[c] = !tmp;
        c += 1;
    }
    out
}

} // verus!
