//! Word-level helpers for the bitboards: reading single bits, masks made of
//! the lowest bits of a word, and reversing the low `area` bits of a word
//! (the half-turn rotation the board code uses to flip perspective).

use vstd::prelude::*;

verus! {

/// True when bit `i` of `x` is set; indices outside the word hold no bits.
pub open spec fn bit_at(x: u64, i: int) -> bool {
    0 <= i < 64 && (x >> (i as u64)) & 1u64 == 1u64
}

/// The `w` lowest bits set, all others clear.
pub open spec fn low_mask(w: u64) -> u64
    recommends
        w < 64,
{
    ((1u64 << w) - 1) as u64
}

/// `x` with bit `i` set.
pub open spec fn with_bit(x: u64, i: int) -> u64
    recommends
        0 <= i < 64,
{
    x | (1u64 << (i as u64))
}

/// `x` with bit `i` cleared.
pub open spec fn without_bit(x: u64, i: int) -> u64
    recommends
        0 <= i < 64,
{
    x & !(1u64 << (i as u64))
}

pub proof fn lemma_bit_or(x: u64, y: u64, i: int)
    ensures
        bit_at(x | y, i) == (bit_at(x, i) || bit_at(y, i)),
{
    if 0 <= i < 64 {
        let iu = i as u64;
        assert((((x | y) >> iu) & 1u64 == 1u64) == (((x >> iu) & 1u64 == 1u64) || ((y >> iu)
            & 1u64 == 1u64))) by (bit_vector)
            requires
                iu < 64,
        ;
    }
}

pub proof fn lemma_bit_and(x: u64, y: u64, i: int)
    ensures
        bit_at(x & y, i) == (bit_at(x, i) && bit_at(y, i)),
{
    if 0 <= i < 64 {
        let iu = i as u64;
        assert((((x & y) >> iu) & 1u64 == 1u64) == (((x >> iu) & 1u64 == 1u64) && ((y >> iu)
            & 1u64 == 1u64))) by (bit_vector)
            requires
                iu < 64,
        ;
    }
}

pub proof fn lemma_bit_diff(x: u64, y: u64, i: int)
    ensures
        bit_at(x & !y, i) == (bit_at(x, i) && !bit_at(y, i)),
{
    if 0 <= i < 64 {
        let iu = i as u64;
        assert((((x & !y) >> iu) & 1u64 == 1u64) == (((x >> iu) & 1u64 == 1u64) && !((y >> iu)
            & 1u64 == 1u64))) by (bit_vector)
            requires
                iu < 64,
        ;
    }
}

proof fn lemma_bit_xor(x: u64, y: u64, i: int)
    ensures
        bit_at(x ^ y, i) == (bit_at(x, i) != bit_at(y, i)),
{
    if 0 <= i < 64 {
        let iu = i as u64;
        assert((((x ^ y) >> iu) & 1u64 == 1u64) == (((x >> iu) & 1u64 == 1u64) != ((y >> iu)
            & 1u64 == 1u64))) by (bit_vector)
            requires
                iu < 64,
        ;
    }
}

pub proof fn lemma_bit_shr(x: u64, k: u64, i: int)
    requires
        k < 64,
        0 <= i,
    ensures
        bit_at(x >> k, i) == bit_at(x, i + k),
{
    if i < 64 {
        let iu = i as u64;
        if i + k < 64 {
            let ju = (i + k) as u64;
            assert((((x >> k) >> iu) & 1u64 == 1u64) == ((x >> ju) & 1u64 == 1u64))
                by (bit_vector)
                requires
                    iu < 64,
                    k < 64,
                    ju == iu + k,
            ;
        } else {
            assert(((x >> k) >> iu) & 1u64 != 1u64) by (bit_vector)
                requires
                    iu < 64,
                    k < 64,
                    iu + k >= 64,
            ;
        }
    }
}

pub proof fn lemma_bit_shl(x: u64, k: u64, i: int)
    requires
        k < 64,
        0 <= i < 64,
    ensures
        bit_at(x << k, i) == (k <= i && bit_at(x, i - k)),
{
    let iu = i as u64;
    if k <= i {
        let ju = (i - k) as u64;
        assert((((x << k) >> iu) & 1u64 == 1u64) == ((x >> ju) & 1u64 == 1u64)) by (bit_vector)
            requires
                iu < 64,
                k < 64,
                k <= iu,
                ju == iu - k,
        ;
    } else {
        assert(((x << k) >> iu) & 1u64 != 1u64) by (bit_vector)
            requires
                iu < 64,
                k < 64,
                iu < k,
        ;
    }
}

pub proof fn lemma_bit_single(s: u64, i: int)
    requires
        s < 64,
    ensures
        bit_at(1u64 << s, i) == (i == s),
{
    if 0 <= i < 64 {
        let iu = i as u64;
        assert((((1u64 << s) >> iu) & 1u64 == 1u64) == (iu == s)) by (bit_vector)
            requires
                iu < 64,
                s < 64,
        ;
    }
}

pub proof fn lemma_low_mask(w: u64, i: int)
    requires
        w < 64,
    ensures
        bit_at(low_mask(w), i) == (0 <= i < w),
{
    if 0 <= i < 64 {
        let iu = i as u64;
        let m = low_mask(w);
        assert(((m >> iu) & 1u64 == 1u64) == (iu < w)) by (bit_vector)
            requires
                iu < 64,
                w < 64,
                m == ((1u64 << w) - 1) as u64,
        ;
    }
}

proof fn lemma_zero_bits()
    ensures
        forall|i: int| !bit_at(0u64, i),
{
    assert forall|i: int| !bit_at(0u64, i) by {
        if 0 <= i < 64 {
            let iu = i as u64;
            assert((0u64 >> iu) & 1u64 != 1u64) by (bit_vector);
        }
    }
}

pub proof fn lemma_bit_nonzero(x: u64, i: int)
    requires
        bit_at(x, i),
    ensures
        x != 0,
{
    let iu = i as u64;
    assert((x >> iu) & 1u64 == 1u64 ==> x != 0) by (bit_vector);
}

pub proof fn lemma_nonzero_bit(x: u64)
    requires
        x != 0,
    ensures
        exists|i: int| bit_at(x, i),
    decreases x,
{
    if x & 1u64 == 1u64 {
        assert((x >> 0u64) & 1u64 == 1u64) by (bit_vector)
            requires
                x & 1u64 == 1u64,
        ;
        assert(bit_at(x, 0));
    } else {
        let y = x >> 1u64;
        assert(y != 0 && y < x) by (bit_vector)
            requires
                x != 0,
                x & 1u64 != 1u64,
                y == x >> 1u64,
        ;
        lemma_nonzero_bit(y);
        let i = choose|i: int| bit_at(y, i);
        lemma_bit_shr(x, 1u64, i);
        assert(bit_at(x, i + 1));
    }
}

/// Two words with the same bits are the same word.
pub proof fn lemma_bit_ext(x: u64, y: u64)
    requires
        forall|i: int| bit_at(x, i) == bit_at(y, i),
    ensures
        x == y,
{
    if x != y {
        let z = x ^ y;
        assert(z != 0) by (bit_vector)
            requires
                x != y,
                z == x ^ y,
        ;
        lemma_nonzero_bit(z);
        let i = choose|i: int| bit_at(z, i);
        lemma_bit_xor(x, y, i);
    }
}

/// The low `area` bits of `x` reversed, built up from the `n` lowest source
/// bits: source bit `n - 1` lands at target bit `area - n`.
pub open spec fn rev_low_partial(x: u64, area: int, n: int) -> u64
    decreases n,
{
    if n <= 0 {
        0u64
    } else if bit_at(x, n - 1) {
        rev_low_partial(x, area, n - 1) | (1u64 << ((area - n) as u64))
    } else {
        rev_low_partial(x, area, n - 1)
    }
}

/// The low `area` bits of `x` in reverse order: bit `j` of the result is
/// bit `area - 1 - j` of `x`, and nothing sits at or above `area`.
pub open spec fn rev_low(x: u64, area: int) -> u64 {
    rev_low_partial(x, area, area)
}

proof fn lemma_rev_low_partial(x: u64, area: int, n: int)
    requires
        1 <= area <= 64,
        0 <= n <= area,
    ensures
        forall|j: int|
            bit_at(rev_low_partial(x, area, n), j) == (area - n <= j < area && bit_at(
                x,
                area - 1 - j,
            )),
    decreases n,
{
    if n == 0 {
        lemma_zero_bits();
    } else {
        lemma_rev_low_partial(x, area, n - 1);
        let prev = rev_low_partial(x, area, n - 1);
        let cur = rev_low_partial(x, area, n);
        if bit_at(x, n - 1) {
            assert forall|j: int|
                bit_at(cur, j) == (area - n <= j < area && bit_at(x, area - 1 - j)) by {
                lemma_bit_or(prev, 1u64 << ((area - n) as u64), j);
                lemma_bit_single((area - n) as u64, j);
            }
        } else {
            assert forall|j: int|
                bit_at(cur, j) == (area - n <= j < area && bit_at(x, area - 1 - j)) by {
            }
        }
    }
}

pub proof fn lemma_rev_low_bits(x: u64, area: int)
    requires
        1 <= area <= 64,
    ensures
        forall|j: int|
            bit_at(rev_low(x, area), j) == (0 <= j < area && bit_at(x, area - 1 - j)),
{
    lemma_rev_low_partial(x, area, area);
}

/// Reverse the low `area` bits of `x`.
pub fn reverse_low(x: u64, area: u32) -> (r: u64)
    requires
        1 <= area <= 64,
    ensures
        r == rev_low(x, area as int),
{
    let mut r: u64 = 0;
    let mut n: u32 = 0;
    while n < area
        invariant
            1 <= area <= 64,
            n <= area,
            r == rev_low_partial(x, area as int, n as int),
        decreases area - n,
    {
        if (x >> (n as u64)) & 1u64 == 1u64 {
            r = r | (1u64 << ((area - 1 - n) as u64));
        }
        n = n + 1;
    }
    r
}

} // verus!
