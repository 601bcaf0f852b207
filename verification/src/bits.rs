use vstd::prelude::*;
use vstd::std_specs::bits::axiom_u64_trailing_zeros;

verus! {

/// Whether bit `i` of `x` is set. No index outside `0..128` names a bit.
pub open spec fn bit(x: u128, i: int) -> bool {
    0 <= i < 128 && (x >> (i as u128)) & 1 == 1
}

/// The bitwise operations, at one bit.
proof fn lemma_bit_ops_at(a: u128, b: u128, k: u128)
    by (bit_vector)
    requires
        k < 128,
    ensures
        ((a & b) >> k) & 1 == 1 <==> ((a >> k) & 1 == 1 && (b >> k) & 1 == 1),
        ((a | b) >> k) & 1 == 1 <==> ((a >> k) & 1 == 1 || (b >> k) & 1 == 1),
        ((a ^ b) >> k) & 1 == 1 <==> ((a >> k) & 1 == 1) != ((b >> k) & 1 == 1),
        ((!a) >> k) & 1 == 1 <==> !((a >> k) & 1 == 1),
        (a >> k) & 1 == 1 ==> a != 0,
        (0u128 >> k) & 1 == 0,
{
}

/// A single bit and a right shift, at one bit.
proof fn lemma_shift_ops_at(a: u128, s: u128, k: u128)
    by (bit_vector)
    requires
        k < 128,
        s < 128,
    ensures
        ((1u128 << s) >> k) & 1 == 1 <==> k == s,
        ((a >> s) >> k) & 1 == 1 <==> (k + s < 128 && (a >> ((k + s) as u128)) & 1 == 1),
{
}

/// Halving a value that is not zero and even.
proof fn lemma_halving(x: u128)
    by (bit_vector)
    ensures
        x != 0 && x & 1 != 1 ==> (x >> 1) != 0 && (x >> 1) < x,
        ((x >> 1) >> 127) & 1 == 0,
        x & 1 == (x >> 0) & 1,
{
}

/// Whether bit `i` of the 16-bit `x` is set.
pub open spec fn bit16(x: u16, i: int) -> bool {
    0 <= i < 16 && (x >> (i as u16)) & 1 == 1
}

/// Setting a bit of a 16-bit value, at one bit.
proof fn lemma_bit16_ops_at(x: u16, t: u16, k: u16)
    by (bit_vector)
    requires
        k < 16,
        t < 16,
    ensures
        ((x | (1u16 << t)) >> k) & 1 == 1 <==> ((x >> k) & 1 == 1 || k == t),
        (0u16 >> k) & 1 == 0,
{
}

/// Bits of a 16-bit value after one more bit was set; zero has none.
pub proof fn lemma_bit16_set(x: u16, s: int)
    requires
        0 <= s < 16,
    ensures
        forall|i: int| #[trigger] bit16(x | (1u16 << (s as u16)), i) == (bit16(x, i) || i == s),
        forall|i: int| !#[trigger] bit16(0, i),
{
    assert forall|i: int| #[trigger]
        bit16(x | (1u16 << (s as u16)), i) == (bit16(x, i) || i == s) by {
        if 0 <= i < 16 {
            lemma_bit16_ops_at(x, s as u16, i as u16);
        }
    }
    assert forall|i: int| !#[trigger] bit16(0, i) by {
        if 0 <= i < 16 {
            lemma_bit16_ops_at(x, s as u16, i as u16);
        }
    }
}

/// A 16-bit value with a bit set is not zero.
pub proof fn lemma_bit16_nonzero(x: u16, i: int)
    requires
        bit16(x, i),
    ensures
        x != 0,
{
    let k = i as u16;
    assert((x >> k) & 1 == 1 ==> x != 0) by (bit_vector);
}

/// Testing a bit by masking it.
pub proof fn lemma_bit_test(x: u128, s: int)
    requires
        0 <= s < 128,
    ensures
        (x & (1u128 << (s as u128)) != 0) == bit(x, s),
{
    let k = s as u128;
    assert((x & (1u128 << k) != 0) <==> (x >> k) & 1 == 1) by (bit_vector)
        requires
            k < 128,
    ;
}

/// Bits of a bitwise AND.
pub proof fn lemma_bit_and(a: u128, b: u128)
    ensures
        forall|i: int| #[trigger] bit(a & b, i) == (bit(a, i) && bit(b, i)),
{
    assert forall|i: int| #[trigger] bit(a & b, i) == (bit(a, i) && bit(b, i)) by {
        if 0 <= i < 128 {
            lemma_bit_ops_at(a, b, i as u128);
        }
    }
}

/// Bits of a bitwise OR.
pub proof fn lemma_bit_or(a: u128, b: u128)
    ensures
        forall|i: int| #[trigger] bit(a | b, i) == (bit(a, i) || bit(b, i)),
{
    assert forall|i: int| #[trigger] bit(a | b, i) == (bit(a, i) || bit(b, i)) by {
        if 0 <= i < 128 {
            lemma_bit_ops_at(a, b, i as u128);
        }
    }
}

/// Bits of a bitwise XOR.
pub proof fn lemma_bit_xor(a: u128, b: u128)
    ensures
        forall|i: int| #[trigger] bit(a ^ b, i) == (bit(a, i) != bit(b, i)),
{
    assert forall|i: int| #[trigger] bit(a ^ b, i) == (bit(a, i) != bit(b, i)) by {
        if 0 <= i < 128 {
            lemma_bit_ops_at(a, b, i as u128);
        }
    }
}

/// Bits of a bitwise complement.
pub proof fn lemma_bit_not(a: u128)
    ensures
        forall|i: int| #[trigger] bit(!a, i) == (0 <= i < 128 && !bit(a, i)),
{
    assert forall|i: int| #[trigger] bit(!a, i) == (0 <= i < 128 && !bit(a, i)) by {
        if 0 <= i < 128 {
            lemma_bit_ops_at(a, a, i as u128);
        }
    }
}

/// Zero has no bit set.
pub proof fn lemma_bit_zero()
    ensures
        forall|i: int| !#[trigger] bit(0, i),
{
    assert forall|i: int| !#[trigger] bit(0, i) by {
        if 0 <= i < 128 {
            lemma_bit_ops_at(0, 0, i as u128);
        }
    }
}

/// `1 << s` has bit `s` set and no other.
pub proof fn lemma_bit_single(s: int)
    requires
        0 <= s < 128,
    ensures
        forall|i: int| #[trigger] bit(1u128 << (s as u128), i) == (i == s),
{
    assert forall|i: int| #[trigger] bit(1u128 << (s as u128), i) == (i == s) by {
        if 0 <= i < 128 {
            lemma_shift_ops_at(0, s as u128, i as u128);
        }
    }
}

/// Bits of a right shift.
pub proof fn lemma_bit_shr(a: u128, s: int)
    requires
        0 <= s < 128,
    ensures
        forall|i: int| #[trigger] bit(a >> (s as u128), i) == (0 <= i && bit(a, i + s)),
{
    assert forall|i: int| #[trigger] bit(a >> (s as u128), i) == (0 <= i && bit(a, i + s)) by {
        if 0 <= i < 128 {
            lemma_shift_ops_at(a, s as u128, i as u128);
        }
    }
}

/// A value with a bit set is not zero.
pub proof fn lemma_bit_nonzero(x: u128, i: int)
    requires
        bit(x, i),
    ensures
        x != 0,
{
    lemma_bit_ops_at(x, x, i as u128);
}

/// A value that is not zero has a bit set.
pub proof fn lemma_nonzero_bit(x: u128) -> (i: int)
    requires
        x != 0,
    ensures
        bit(x, i),
    decreases x,
{
    lemma_halving(x);
    if x & 1 == 1 {
        0
    } else {
        let j = lemma_nonzero_bit(x >> 1);
        lemma_bit_shr(x, 1);
        j + 1
    }
}

/// Two different values differ in a bit.
pub proof fn lemma_bit_differ(a: u128, b: u128) -> (i: int)
    requires
        a != b,
    ensures
        0 <= i < 128,
        bit(a, i) != bit(b, i),
{
    assert(a ^ b != 0) by (bit_vector)
        requires
            a != b,
    ;
    let i = lemma_nonzero_bit(a ^ b);
    lemma_bit_xor(a, b);
    i
}

/// Two values with the same bits are equal.
pub proof fn lemma_bit_ext(a: u128, b: u128)
    requires
        forall|i: int| 0 <= i < 128 ==> bit(a, i) == bit(b, i),
    ensures
        a == b,
{
    if a != b {
        let i = lemma_bit_differ(a, b);
    }
}

/// Whether bit `i` is the only bit of `x` that is set.
pub open spec fn only_bit(x: u128, i: int) -> bool {
    bit(x, i) && forall|j: int| #[trigger] bit(x, j) ==> j == i
}

/// Whether exactly one bit of `x` is set.
pub open spec fn lone(x: u128) -> bool {
    exists|i: int| only_bit(x, i)
}

/// Two set bits, or one, and the test for a power of two.
proof fn lemma_power_of_two_at(x: u128, i: u128, j: u128)
    by (bit_vector)
    requires
        i < 128,
        j < 128,
    ensures
        (x >> i) & 1 == 1 && (x >> j) & 1 == 1 && i != j ==> x & ((x - 1) as u128) != 0,
        x == 1u128 << i ==> x != 0 && x & ((x - 1) as u128) == 0,
{
}

/// Exactly one bit is set in a value that is not zero and shares no bit
/// with its predecessor, and in no other.
pub proof fn lemma_lone(x: u128)
    ensures
        lone(x) <==> (x != 0 && x & ((x - 1) as u128) == 0),
{
    if x != 0 && x & ((x - 1) as u128) == 0 {
        let i = lemma_nonzero_bit(x);
        assert forall|j: int| #[trigger] bit(x, j) implies j == i by {
            lemma_power_of_two_at(x, i as u128, j as u128);
        }
        assert(only_bit(x, i));
    }
    if lone(x) {
        let i = choose|i: int| only_bit(x, i);
        lemma_bit_single(i);
        lemma_bit_ext(x, 1u128 << (i as u128));
        lemma_power_of_two_at(x, i as u128, 0);
    }
}

/// A value is below 2^81 where none of its bits lies at 81 or above.
pub proof fn lemma_bit_bound(x: u128)
    ensures
        x <= 0x1_fffff_fffff_fffff_fffff <==> (forall|i: int| #[trigger] bit(x, i) ==> i < 81),
{
    if x <= 0x1_fffff_fffff_fffff_fffff {
        assert forall|i: int| #[trigger] bit(x, i) implies i < 81 by {
            let k = i as u128;
            assert(x <= 0x1_fffff_fffff_fffff_fffff && 81 <= k < 128 ==> (x >> k) & 1 == 0)
                by (bit_vector);
        }
    } else {
        let y = x >> 81u128;
        assert(y != 0) by (bit_vector)
            requires
                x > 0x1_fffff_fffff_fffff_fffff,
                y == x >> 81u128,
        ;
        let j = lemma_nonzero_bit(y);
        lemma_bit_shr(x, 81);
        assert(y == x >> (81int as u128));
        assert(bit(x, j + 81));
    }
}

/// The bits of the two 64-bit halves of a value.
proof fn lemma_halves_at(x: u128, lo: u64, hi: u64, k: u64)
    by (bit_vector)
    requires
        lo == x as u64,
        hi == (x >> 64) as u64,
        k < 64,
    ensures
        (lo >> k) & 1 == 1 <==> (x >> (k as u128)) & 1 == 1,
        (hi >> k) & 1 == 1 <==> (x >> ((k + 64) as u128)) & 1 == 1,
        lo == 0 && hi == 0 ==> x == 0,
        lo == 0 ==> (lo >> k) & 1 == 0,
{
}

/// The index of the lowest bit that is set.
pub fn lowest_bit(x: u128) -> (r: u32)
    requires
        x != 0,
    ensures
        bit(x, r as int),
        forall|j: int| #[trigger] bit(x, j) ==> r <= j,
{
    let lo = #[verifier::truncate]
    (x as u64);
    let hi = #[verifier::truncate]
    ((x >> 64) as u64);
    proof {
        axiom_u64_trailing_zeros(lo);
        axiom_u64_trailing_zeros(hi);
        lemma_halves_at(x, lo, hi, 0);
    }
    if lo != 0 {
        let r = lo.trailing_zeros();
        proof {
            lemma_halves_at(x, lo, hi, r as u64);
            assert forall|j: int| #[trigger] bit(x, j) implies r <= j by {
                if j < r {
                    lemma_halves_at(x, lo, hi, j as u64);
                    assert((lo >> (j as u64)) & 1u64 == 0u64);
                }
            }
        }
        r
    } else {
        let t = hi.trailing_zeros();
        proof {
            lemma_halves_at(x, lo, hi, t as u64);
            assert forall|j: int| #[trigger] bit(x, j) implies t + 64 <= j by {
                if j < 64 {
                    lemma_halves_at(x, lo, hi, j as u64);
                } else if j < t + 64 {
                    lemma_halves_at(x, lo, hi, (j - 64) as u64);
                    assert((hi >> ((j - 64) as u64)) & 1u64 == 0u64);
                }
            }
        }
        t + 64
    }
}

/// How many of the bits below `n` are clear.
pub open spec fn zeros_below(x: u128, n: nat) -> nat
    decreases n,
{
    if n == 0 {
        0
    } else {
        zeros_below(x, (n - 1) as nat) + if bit(x, n - 1) {
            0nat
        } else {
            1nat
        }
    }
}

/// A value that holds every bit of another has no more clear bits, and
/// fewer where it holds a bit that the other lacks.
pub proof fn lemma_zeros_below(a: u128, b: u128, n: nat)
    requires
        forall|i: int| #[trigger] bit(a, i) ==> bit(b, i),
    ensures
        zeros_below(b, n) <= zeros_below(a, n),
        (exists|i: int| 0 <= i < n && bit(b, i) && !bit(a, i)) ==> zeros_below(b, n) < zeros_below(
            a,
            n,
        ),
    decreases n,
{
    if n > 0 {
        lemma_zeros_below(a, b, (n - 1) as nat);
        if exists|i: int| 0 <= i < n && bit(b, i) && !bit(a, i) {
            let i = choose|i: int| 0 <= i < n && bit(b, i) && !bit(a, i);
            if i < n - 1 {
                assert(0 <= i < n - 1 && bit(b, i) && !bit(a, i));
            }
        }
    }
}

} // verus!
