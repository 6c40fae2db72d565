//! Masked-compress compaction, lane width 16: the strategy for hardware
//! with a native compress primitive.
//!
//! Each window's compress store writes only the lanes selected by the
//! inclusion mask, contiguous and in ascending lane order, to the cursor;
//! unlike the table-permutation strategy it leaves the trailing slots
//! untouched.

use vstd::prelude::*;

use crate::mask::{is_between, mask_bit};
use crate::{
    filtered,
    in_range,
    lemma_filtered_len_le,
    lemma_filtered_take_step,
    load_word,
    valid_range,
};

verus! {

/// Masked-compress filter: streams 16-lane windows of the input and leaves
/// in `output` exactly the ascending positions whose value lies in
/// `[lo, hi]`.
pub fn filter_vec(input: &[u32], lo: u32, hi: u32, output: &mut Vec<u32>)
    requires
        valid_range(lo, hi),
        input@.len() % 16 == 0,
        input@.len() <= u32::MAX,
    ensures
        final(output)@ == filtered(input@, lo, hi),
{
    let n = input.len();
    output.clear();
    output.resize(n, 0u32);
    let num_words = n / 16;
    proof {
        lemma_filtered_len_le(input@, lo, hi);
    }
    let output_len = filter_vec_aux(input, lo, hi, output, num_words);
    output.truncate(output_len);
    proof {
        assert(final(output)@ =~= filtered(input@, lo, hi));
    }
}

/// The compress hot loop over a buffer already sized to hold every index in
/// the worst case; reports the accumulated cursor offset, which becomes the
/// final output length.
#[verifier::loop_isolation(false)]
pub fn filter_vec_aux(
    input: &[u32],
    lo: u32,
    hi: u32,
    output: &mut Vec<u32>,
    num_words: usize,
) -> (output_len: usize)
    requires
        valid_range(lo, hi),
        16 * num_words == input@.len(),
        input@.len() <= old(output)@.len(),
        input@.len() <= u32::MAX,
    ensures
        final(output)@.len() == old(output)@.len(),
        output_len == filtered(input@, lo, hi).len(),
        final(output)@.take(output_len as int) == filtered(input@, lo, hi),
{
    let mut ids: Vec<u32> = Vec::new();
    let mut l: usize = 0;
    while l < 16
        invariant
            l <= 16,
            ids@.len() == l,
            forall|t: int| 0 <= t < l ==> ids@[t] == t,
        decreases 16 - l,
    {
        ids.push(l as u32);
        l += 1;
    }
    let mut cursor: usize = 0;
    let mut k: usize = 0;
    while k < num_words
        invariant
            k <= num_words,
            output@.len() == old(output)@.len(),
            ids@.len() == 16,
            forall|t: int| 0 <= t < 16 ==> ids@[t] == (16 * k + t) as u32,
            cursor == filtered(input@.take(16 * (k as int)), lo, hi).len(),
            output@.take(cursor as int) == filtered(input@.take(16 * (k as int)), lo, hi),
        decreases num_words - k,
    {
        let word = load_word(input, 16 * k, 16);
        let mask = is_between(word.as_slice(), lo, hi);
        let mut b: usize = 0;
        while b < 16
            invariant
                b <= 16,
                output@.len() == old(output)@.len(),
                cursor == filtered(input@.take(16 * (k as int) + b), lo, hi).len(),
                output@.take(cursor as int) == filtered(input@.take(16 * (k as int) + b), lo, hi),
            decreases 16 - b,
        {
            proof {
                lemma_filtered_len_le(input@.take(16 * (k as int) + b), lo, hi);
                lemma_filtered_take_step(input@, lo, hi, 16 * (k as int) + b);
                assert(word@[b as int] == input@[16 * (k as int) + b]);
                assert(mask_bit(mask, b as u32) <==> in_range(
                    input@[16 * (k as int) + b],
                    lo,
                    hi,
                ));
            }
            if (mask >> (b as u32)) & 1 == 1 {
                output[cursor] = ids[b];
                cursor += 1;
                proof {
                    assert(output@.take(cursor as int) =~= filtered(
                        input@.take(16 * (k as int) + b + 1),
                        lo,
                        hi,
                    ));
                }
            }
            b += 1;
        }
        let mut t: usize = 0;
        while t < 16
            invariant
                t <= 16,
                ids@.len() == 16,
                forall|q: int| 0 <= q < t ==> ids@[q] == (16 * k + q + 16) as u32,
                forall|q: int| t <= q < 16 ==> ids@[q] == (16 * k + q) as u32,
            decreases 16 - t,
        {
            let v = ids[t];
            ids[t] = v.wrapping_add(16);
            t += 1;
        }
        k += 1;
    }
    proof {
        assert(input@.take(16 * (num_words as int)) =~= input@);
    }
    cursor
}

} // verus!
