//! Mask generation: per lane-word, an inclusion bitmask with one bit per
//! lane, set exactly when the lane's value lies in the range.
//!
//! Two formulations are offered and carry the same contract, so their
//! results are bit-identical (see [`lemma_mask_unique`]):
//! [`compute_filter_bitset`] excludes lanes that are too low or too high,
//! [`is_between`] keeps lanes that are at least `lo` and at most `hi`.

use vstd::prelude::*;

use crate::in_range;

verus! {

/// Bit `b` of mask `m`.
pub open spec fn mask_bit(m: u32, b: u32) -> bool {
    (m >> b) & 1 == 1
}

/// The positions below `upto` whose bit is set in `m`, in ascending order.
pub open spec fn bit_positions(m: u32, upto: u32) -> Seq<u32>
    decreases upto,
{
    if upto == 0 {
        Seq::empty()
    } else if mask_bit(m, (upto - 1) as u32) {
        bit_positions(m, (upto - 1) as u32).push((upto - 1) as u32)
    } else {
        bit_positions(m, (upto - 1) as u32)
    }
}

proof fn lemma_or_bit(x: u32, i: u32, j: u32)
    by (bit_vector)
    requires
        i < 32,
        j < 32,
    ensures
        mask_bit(x | (1u32 << i), j) == (j == i || mask_bit(x, j)),
{
}

/// There are at most `upto` set positions below `upto`, and each lies below
/// `upto`.
pub proof fn lemma_bit_positions_bounds(m: u32, upto: u32)
    ensures
        bit_positions(m, upto).len() <= upto,
        forall|j: int| 0 <= j < bit_positions(m, upto).len() ==> bit_positions(m, upto)[j] < upto,
    decreases upto,
{
    if upto > 0 {
        lemma_bit_positions_bounds(m, (upto - 1) as u32);
    }
}

proof fn lemma_zero_bit(j: u32)
    by (bit_vector)
    ensures
        !mask_bit(0u32, j),
{
}

proof fn lemma_and_bit(x: u32, y: u32, j: u32)
    by (bit_vector)
    requires
        j < 32,
    ensures
        mask_bit(x & y, j) == (mask_bit(x, j) && mask_bit(y, j)),
{
}

proof fn lemma_exclude_bit(x: u32, y: u32, full: u32, j: u32)
    by (bit_vector)
    requires
        j < 32,
    ensures
        mask_bit(!(x | y) & full, j) == (!mask_bit(x, j) && !mask_bit(y, j) && mask_bit(full, j)),
{
}

proof fn lemma_low_mask_bit(w: u32, j: u32)
    by (bit_vector)
    requires
        w < 32,
        j < 32,
    ensures
        mask_bit(((1u32 << w) - 1) as u32, j) == (j < w),
{
}

proof fn lemma_all_ones_bit(j: u32)
    by (bit_vector)
    requires
        j < 32,
    ensures
        mask_bit(0xffff_ffffu32, j),
{
}

proof fn lemma_shift_eq(a: u32, b: u32, j: u32)
    requires
        j < 32,
        forall|k: u32| k < 32 ==> mask_bit(a, k) == mask_bit(b, k),
    ensures
        a >> j == b >> j,
    decreases 32 - j,
{
    if j == 31 {
        assert(mask_bit(a, 31) == mask_bit(b, 31));
        assert(a >> 31u32 == b >> 31u32) by (bit_vector)
            requires
                mask_bit(a, 31u32) == mask_bit(b, 31u32),
        ;
    } else {
        let jp = (j + 1) as u32;
        lemma_shift_eq(a, b, jp);
        assert(mask_bit(a, j) == mask_bit(b, j));
        assert(a >> j == b >> j) by (bit_vector)
            requires
                j < 31,
                jp == j + 1,
                a >> jp == b >> jp,
                mask_bit(a, j) == mask_bit(b, j),
        ;
    }
}

proof fn lemma_bit_ext(a: u32, b: u32)
    requires
        forall|j: u32| j < 32 ==> mask_bit(a, j) == mask_bit(b, j),
    ensures
        a == b,
{
    lemma_shift_eq(a, b, 0);
    assert(a >> 0u32 == a && b >> 0u32 == b) by (bit_vector);
}

/// Any two masks that both carry the per-lane characterization of the same
/// window and range are bit-identical: the two formulations cannot disagree.
pub proof fn lemma_mask_unique(ma: u32, mb: u32, s: Seq<u32>, lo: u32, hi: u32)
    requires
        s.len() <= 32,
        forall|b: u32| b < s.len() ==> (mask_bit(ma, b) <==> in_range(s[b as int], lo, hi)),
        forall|b: u32| s.len() <= b < 32 ==> !mask_bit(ma, b),
        forall|b: u32| b < s.len() ==> (mask_bit(mb, b) <==> in_range(s[b as int], lo, hi)),
        forall|b: u32| s.len() <= b < 32 ==> !mask_bit(mb, b),
    ensures
        ma == mb,
{
    assert forall|j: u32| j < 32 implies mask_bit(ma, j) == mask_bit(mb, j) by {
        if j < s.len() {
            assert(mask_bit(ma, j) <==> in_range(s[j as int], lo, hi));
            assert(mask_bit(mb, j) <==> in_range(s[j as int], lo, hi));
        }
    }
    lemma_bit_ext(ma, mb);
}

/// Inclusion mask, exclusion formulation: a lane is kept unless its value is
/// below `lo` or above `hi`.
pub fn compute_filter_bitset(window: &[u32], lo: u32, hi: u32) -> (mask: u32)
    requires
        window@.len() <= 32,
    ensures
        forall|b: u32| b < window@.len() ==> (mask_bit(mask, b) <==> in_range(
            window@[b as int],
            lo,
            hi,
        )),
        forall|b: u32| window@.len() <= b < 32 ==> !mask_bit(mask, b),
        window@.len() < 32 ==> mask < (1u32 << (window@.len() as u32)),
{
    let w = window.len();
    let mut too_low: u32 = 0;
    let mut too_high: u32 = 0;
    proof {
        assert forall|j: u32| j < 32 implies !mask_bit(0u32, j) by {
            lemma_zero_bit(j);
        }
    }
    let mut b: usize = 0;
    while b < w
        invariant
            b <= w,
            w == window@.len(),
            w <= 32,
            forall|j: u32| j < b ==> (mask_bit(too_low, j) <==> window@[j as int] < lo),
            forall|j: u32| b <= j < 32 ==> !mask_bit(too_low, j),
            forall|j: u32| j < b ==> (mask_bit(too_high, j) <==> window@[j as int] > hi),
            forall|j: u32| b <= j < 32 ==> !mask_bit(too_high, j),
        decreases w - b,
    {
        let ghost old_low = too_low;
        let ghost old_high = too_high;
        if window[b] < lo {
            too_low = too_low | (1u32 << (b as u32));
        }
        if window[b] > hi {
            too_high = too_high | (1u32 << (b as u32));
        }
        proof {
            assert forall|j: u32| j < 32 implies mask_bit(too_low, j) == (if j == b {
                window@[b as int] < lo
            } else {
                mask_bit(old_low, j)
            }) by {
                lemma_or_bit(old_low, b as u32, j);
            }
            assert forall|j: u32| j < 32 implies mask_bit(too_high, j) == (if j == b {
                window@[b as int] > hi
            } else {
                mask_bit(old_high, j)
            }) by {
                lemma_or_bit(old_high, b as u32, j);
            }
        }
        b += 1;
    }
    let full: u32 = if w == 32 {
        0xffff_ffffu32
    } else {
        let sh: u32 = 1u32 << (w as u32);
        proof {
            let wv = w as u32;
            assert(wv < 32 ==> 1u32 << wv >= 1) by (bit_vector);
        }
        sh - 1
    };
    proof {
        assert forall|j: u32| j < 32 implies mask_bit(full, j) == (j < w) by {
            if w == 32 {
                lemma_all_ones_bit(j);
            } else {
                lemma_low_mask_bit(w as u32, j);
            }
        }
    }
    let mask = !(too_low | too_high) & full;
    proof {
        assert forall|j: u32| j < 32 implies mask_bit(mask, j) == (!mask_bit(too_low, j)
            && !mask_bit(too_high, j) && j < w) by {
            lemma_exclude_bit(too_low, too_high, full, j);
        }
        let wv = w as u32;
        if w < 32 {
            assert(mask < (1u32 << wv)) by (bit_vector)
                requires
                    wv < 32,
                    mask == !(too_low | too_high) & (((1u32 << wv) - 1) as u32),
            ;
        }
    }
    mask
}

/// Inclusion mask, conjunction formulation: a lane is kept when its value is
/// at least `lo` and at most `hi`.
pub fn is_between(window: &[u32], lo: u32, hi: u32) -> (mask: u32)
    requires
        window@.len() <= 32,
    ensures
        forall|b: u32| b < window@.len() ==> (mask_bit(mask, b) <==> in_range(
            window@[b as int],
            lo,
            hi,
        )),
        forall|b: u32| window@.len() <= b < 32 ==> !mask_bit(mask, b),
{
    let w = window.len();
    let mut ge_lo: u32 = 0;
    let mut le_hi: u32 = 0;
    proof {
        assert forall|j: u32| j < 32 implies !mask_bit(0u32, j) by {
            lemma_zero_bit(j);
        }
    }
    let mut b: usize = 0;
    while b < w
        invariant
            b <= w,
            w == window@.len(),
            w <= 32,
            forall|j: u32| j < b ==> (mask_bit(ge_lo, j) <==> lo <= window@[j as int]),
            forall|j: u32| b <= j < 32 ==> !mask_bit(ge_lo, j),
            forall|j: u32| j < b ==> (mask_bit(le_hi, j) <==> window@[j as int] <= hi),
            forall|j: u32| b <= j < 32 ==> !mask_bit(le_hi, j),
        decreases w - b,
    {
        let ghost old_ge = ge_lo;
        let ghost old_le = le_hi;
        if lo <= window[b] {
            ge_lo = ge_lo | (1u32 << (b as u32));
        }
        if window[b] <= hi {
            le_hi = le_hi | (1u32 << (b as u32));
        }
        proof {
            assert forall|j: u32| j < 32 implies mask_bit(ge_lo, j) == (if j == b {
                lo <= window@[b as int]
            } else {
                mask_bit(old_ge, j)
            }) && mask_bit(le_hi, j) == (if j == b {
                window@[b as int] <= hi
            } else {
                mask_bit(old_le, j)
            }) by {
                lemma_or_bit(old_ge, b as u32, j);
                lemma_or_bit(old_le, b as u32, j);
            }
        }
        b += 1;
    }
    let mask = ge_lo & le_hi;
    proof {
        assert forall|j: u32| j < 32 implies mask_bit(mask, j) == (mask_bit(ge_lo, j)
            && mask_bit(le_hi, j)) by {
            lemma_and_bit(ge_lo, le_hi, j);
        }
    }
    mask
}

/// Popcount of the low `w` bits of `m`: how many lanes of the window matched.
pub fn popcount(m: u32, w: usize) -> (n: usize)
    requires
        w <= 32,
    ensures
        n == bit_positions(m, w as u32).len(),
{
    let mut n: usize = 0;
    let mut b: usize = 0;
    while b < w
        invariant
            b <= w,
            w <= 32,
            n == bit_positions(m, b as u32).len(),
            n <= b,
        decreases w - b,
    {
        if (m >> (b as u32)) & 1 == 1 {
            n += 1;
        }
        b += 1;
    }
    n
}

} // verus!
