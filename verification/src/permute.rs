//! Table-permutation compaction, lane width 8: the strategy for hardware
//! without a native compress primitive.
//!
//! A precomputed table holds, for each of the 256 possible masks, a
//! permutation that moves the matching lanes into the leading slots of a
//! full-width word. Each window writes the whole permuted word at the
//! cursor, but the cursor advances only by the mask's popcount, so the
//! filler lanes in the trailing slots are overwritten by the next window
//! and never reach the final, truncated output.

use vstd::prelude::*;

use crate::mask::{
    bit_positions,
    compute_filter_bitset,
    lemma_bit_positions_bounds,
    mask_bit,
    popcount,
};
use crate::{
    filtered,
    in_range,
    lemma_filtered_len_le,
    lemma_filtered_take_step,
    load_word,
    valid_range,
};

verus! {

/// The matching positions `ps`, turned into global indices by adding the
/// window's base index to each.
pub open spec fn offset_indices(ps: Seq<u32>, base: int) -> Seq<u32> {
    ps.map_values(|p: u32| (base + p) as u32)
}

/// A permutation-table entry is sound for mask `m`: full lane width, every
/// slot a lane number, and the leading `popcount(m)` slots listing the
/// set-bit positions of `m` in ascending order. The trailing slots are
/// filler; any lane number will do there.
pub open spec fn entry_ok(e: Seq<u32>, m: u32) -> bool {
    &&& e.len() == 8
    &&& forall|j: int| 0 <= j < 8 ==> e[j] < 8
    &&& e.take(bit_positions(m, 8).len() as int) == bit_positions(m, 8)
}

/// The full permutation table: one sound entry per possible 8-bit mask.
pub open spec fn table_ok(t: Seq<Vec<u32>>) -> bool {
    &&& t.len() == 256
    &&& forall|m: int| 0 <= m < 256 ==> entry_ok((#[trigger] t[m])@, m as u32)
}

/// Builds the permutation table by enumerating the set-bit positions of
/// every mask, rather than transcribing a hand-authored literal table.
pub fn make_permutation_table() -> (table: Vec<Vec<u32>>)
    ensures
        table_ok(table@),
{
    let mut table: Vec<Vec<u32>> = Vec::new();
    let mut m: usize = 0;
    while m < 256
        invariant
            m <= 256,
            table@.len() == m,
            forall|k: int| 0 <= k < m ==> entry_ok((#[trigger] table@[k])@, k as u32),
        decreases 256 - m,
    {
        let mu = m as u32;
        let mut e: Vec<u32> = Vec::new();
        let mut b: usize = 0;
        while b < 8
            invariant
                b <= 8,
                mu < 256,
                e@ == bit_positions(mu, b as u32),
                forall|j: int| 0 <= j < e@.len() ==> e@[j] < 8,
            decreases 8 - b,
        {
            if (mu >> (b as u32)) & 1 == 1 {
                e.push(b as u32);
            }
            b += 1;
        }
        proof {
            lemma_bit_positions_bounds(mu, 8);
            assert(e@.take(bit_positions(mu, 8).len() as int) =~= bit_positions(mu, 8));
        }
        while e.len() < 8
            invariant
                e@.len() <= 8,
                bit_positions(mu, 8).len() <= e@.len(),
                e@.take(bit_positions(mu, 8).len() as int) == bit_positions(mu, 8),
                forall|j: int| 0 <= j < e@.len() ==> e@[j] < 8,
            decreases 8 - e@.len(),
        {
            e.push(0u32);
            proof {
                assert(e@.take(bit_positions(mu, 8).len() as int) =~= bit_positions(mu, 8));
            }
        }
        table.push(e);
        m += 1;
        proof {
            assert(entry_ok(e@, mu));
        }
    }
    table
}

/// Applies one permutation entry to a lane-word: slot `j` of the result
/// holds lane `perm[j]` of `ids`.
pub fn compact(ids: &[u32], perm: &[u32]) -> (out: Vec<u32>)
    requires
        ids@.len() == 8,
        perm@.len() == 8,
        forall|j: int| 0 <= j < 8 ==> perm@[j] < 8,
    ensures
        out@.len() == 8,
        forall|j: int| 0 <= j < 8 ==> out@[j] == ids@[perm@[j] as int],
{
    let mut out: Vec<u32> = Vec::new();
    let mut j: usize = 0;
    while j < 8
        invariant
            j <= 8,
            ids@.len() == 8,
            perm@.len() == 8,
            forall|k: int| 0 <= k < 8 ==> perm@[k] < 8,
            out@.len() == j,
            forall|k: int| 0 <= k < j ==> out@[k] == ids@[perm@[k] as int],
        decreases 8 - j,
    {
        let lane = perm[j] as usize;
        out.push(ids[lane]);
        j += 1;
    }
    out
}

/// Processing one lane window appends exactly the window's matching global
/// indices, in ascending lane order, to the selection of the prefix before
/// it.
pub proof fn lemma_filtered_window(s: Seq<u32>, lo: u32, hi: u32, base: int, w: u32, m: u32)
    requires
        0 <= base,
        base + w <= s.len(),
        w <= 32,
        forall|b: u32| b < w ==> (mask_bit(m, b) <==> in_range(s[base + b], lo, hi)),
    ensures
        filtered(s.take(base + w), lo, hi) == filtered(s.take(base), lo, hi) + offset_indices(
            bit_positions(m, w),
            base,
        ),
    decreases w,
{
    let fp = filtered(s.take(base), lo, hi);
    if w == 0 {
        assert(filtered(s.take(base + w), lo, hi) =~= fp + offset_indices(
            bit_positions(m, 0),
            base,
        ));
    } else {
        let wm = (w - 1) as u32;
        lemma_filtered_window(s, lo, hi, base, wm, m);
        lemma_filtered_take_step(s, lo, hi, base + wm);
        assert(filtered(s.take(base + w), lo, hi) =~= fp + offset_indices(
            bit_positions(m, w),
            base,
        ));
    }
}

/// Table-permutation filter: streams 8-lane windows of the input, compacts
/// the matching indices of each window with a table permutation, and leaves
/// in `output` exactly the ascending positions whose value lies in
/// `[lo, hi]`.
#[verifier::loop_isolation(false)]
pub fn filter_vec(input: &[u32], lo: u32, hi: u32, output: &mut Vec<u32>)
    requires
        valid_range(lo, hi),
        input@.len() % 8 == 0,
        input@.len() <= u32::MAX,
    ensures
        final(output)@ == filtered(input@, lo, hi),
{
    let n = input.len();
    output.clear();
    output.resize(n, 0u32);
    let table = make_permutation_table();
    let mut ids: Vec<u32> = Vec::new();
    let mut l: usize = 0;
    while l < 8
        invariant
            l <= 8,
            ids@.len() == l,
            forall|t: int| 0 <= t < l ==> ids@[t] == t,
        decreases 8 - l,
    {
        ids.push(l as u32);
        l += 1;
    }
    let num_words = n / 8;
    proof {
        assert(8 * num_words == n);
        assert(1u32 << 8u32 == 256) by (bit_vector);
    }
    let mut cursor: usize = 0;
    let mut k: usize = 0;
    while k < num_words
        invariant
            k <= num_words,
            output@.len() == n,
            ids@.len() == 8,
            forall|t: int| 0 <= t < 8 ==> ids@[t] == (8 * k + t) as u32,
            cursor == filtered(input@.take(8 * (k as int)), lo, hi).len(),
            output@.take(cursor as int) == filtered(input@.take(8 * (k as int)), lo, hi),
        decreases num_words - k,
    {
        proof {
            lemma_filtered_len_le(input@.take(8 * (k as int)), lo, hi);
        }
        let word = load_word(input, 8 * k, 8);
        let mask = compute_filter_bitset(word.as_slice(), lo, hi);
        let added = popcount(mask, 8);
        let permuted = compact(ids.as_slice(), table[mask as usize].as_slice());
        proof {
            lemma_bit_positions_bounds(mask, 8);
        }
        let ghost pre_out = output@;
        let mut j: usize = 0;
        while j < 8
            invariant
                j <= 8,
                output@.len() == n,
                forall|t: int| 0 <= t < j ==> output@[cursor + t] == permuted@[t],
                forall|t: int| 0 <= t < cursor ==> output@[t] == pre_out[t],
            decreases 8 - j,
        {
            output[cursor + j] = permuted[j];
            j += 1;
        }
        proof {
            assert forall|b: u32| b < 8 implies (mask_bit(mask, b) <==> in_range(
                input@[8 * (k as int) + b],
                lo,
                hi,
            )) by {
                assert(word@[b as int] == input@[8 * (k as int) + b]);
            }
            lemma_filtered_window(input@, lo, hi, 8 * (k as int), 8, mask);
            let bp = bit_positions(mask, 8);
            let entry = table@[mask as int]@;
            assert(entry_ok(entry, mask));
            assert forall|t: int| 0 <= t < added implies #[trigger] bp[t] < 8 && entry[t]
                == bp[t] by {
                assert(entry.take(bp.len() as int)[t] == bp[t]);
            }
            assert forall|t: int| 0 <= t < added implies #[trigger] permuted@[t] == (8 * (
            k as int) + bp[t]) as u32 by {
                assert(bp[t] < 8);
                assert(permuted@[t] == ids@[entry[t] as int]);
                assert(ids@[bp[t] as int] == (8 * k + bp[t]) as u32);
            }
            assert forall|t: int| 0 <= t < added implies #[trigger] offset_indices(
                bp,
                8 * (k as int),
            )[t] == permuted@[t] by {
                assert(permuted@[t] == (8 * (k as int) + bp[t]) as u32);
            }
            assert(output@.take((cursor + added) as int) =~= filtered(
                input@.take(8 * (k as int) + 8),
                lo,
                hi,
            ));
        }
        cursor += added;
        let mut t: usize = 0;
        while t < 8
            invariant
                t <= 8,
                ids@.len() == 8,
                forall|q: int| 0 <= q < t ==> ids@[q] == (8 * k + q + 8) as u32,
                forall|q: int| t <= q < 8 ==> ids@[q] == (8 * k + q) as u32,
            decreases 8 - t,
        {
            let v = ids[t];
            ids[t] = v.wrapping_add(8);
            t += 1;
        }
        k += 1;
    }
    proof {
        assert(input@.take(8 * (num_words as int)) =~= input@);
        lemma_filtered_len_le(input@, lo, hi);
    }
    output.truncate(cursor);
    proof {
        assert(final(output)@ =~= filtered(input@, lo, hi));
    }
}

} // verus!
