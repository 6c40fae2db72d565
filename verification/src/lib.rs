//! Range-selection kernel: given a dense array of `u32` values and an
//! inclusive value range, produce the ascending sequence of positions whose
//! value falls inside the range.
//!
//! Every variant — the scalar baselines here, the table-permutation
//! compaction in [`permute`] and the masked-compress compaction in
//! [`compress`] — meets the same contract: the output equals [`filtered`],
//! the specification-level selection of matching indices.

pub mod compress;
pub mod mask;
pub mod permute;

use vstd::prelude::*;

verus! {

/// Does `v` lie in the inclusive range `[lo, hi]`?
pub open spec fn in_range(v: u32, lo: u32, hi: u32) -> bool {
    lo <= v && v <= hi
}

/// Both bounds must stay in the non-negative half of the signed 32-bit
/// domain: the lane comparisons are specified as signed compares, and
/// restricting the bounds makes the signed answer agree with the unsigned one.
pub open spec fn valid_range(lo: u32, hi: u32) -> bool {
    lo <= hi && hi <= 0x7fff_ffffu32
}

/// The ascending sequence of indices of `s` whose value lies in `[lo, hi]`.
pub open spec fn filtered(s: Seq<u32>, lo: u32, hi: u32) -> Seq<u32>
    decreases s.len(),
{
    if s.len() == 0 {
        Seq::empty()
    } else if in_range(s.last(), lo, hi) {
        filtered(s.drop_last(), lo, hi).push((s.len() - 1) as u32)
    } else {
        filtered(s.drop_last(), lo, hi)
    }
}

/// How many values of `s` lie in `[lo, hi]`.
pub open spec fn count_in_range(s: Seq<u32>, lo: u32, hi: u32) -> nat
    decreases s.len(),
{
    if s.len() == 0 {
        0
    } else if in_range(s.last(), lo, hi) {
        count_in_range(s.drop_last(), lo, hi) + 1
    } else {
        count_in_range(s.drop_last(), lo, hi)
    }
}

/// Extending the scanned prefix by one element appends its index exactly
/// when its value is in range.
pub proof fn lemma_filtered_take_step(s: Seq<u32>, lo: u32, hi: u32, j: int)
    requires
        0 <= j < s.len(),
    ensures
        filtered(s.take(j + 1), lo, hi) == (if in_range(s[j], lo, hi) {
            filtered(s.take(j), lo, hi).push(j as u32)
        } else {
            filtered(s.take(j), lo, hi)
        }),
{
    let t = s.take(j + 1);
    assert(t.drop_last() =~= s.take(j));
    assert(t.last() == s[j]);
}

/// The selection never returns more indices than the input has elements.
pub proof fn lemma_filtered_len_le(s: Seq<u32>, lo: u32, hi: u32)
    ensures
        filtered(s, lo, hi).len() <= s.len(),
    decreases s.len(),
{
    if s.len() > 0 {
        lemma_filtered_len_le(s.drop_last(), lo, hi);
    }
}

/// Every index the selection returns is a position of `s` whose value lies
/// in the range, and every position whose value lies in the range is
/// returned: the output holds exactly the matching positions.
pub proof fn lemma_filtered_correct(s: Seq<u32>, lo: u32, hi: u32)
    requires
        s.len() <= u32::MAX,
    ensures
        forall|j: int|
            0 <= j < filtered(s, lo, hi).len() ==> filtered(s, lo, hi)[j] < s.len() && in_range(
                s[filtered(s, lo, hi)[j] as int],
                lo,
                hi,
            ),
        forall|i: int|
            0 <= i < s.len() ==> (in_range(s[i], lo, hi) <==> filtered(s, lo, hi).contains(
                i as u32,
            )),
    decreases s.len(),
{
    if s.len() > 0 {
        let pre = s.drop_last();
        let f = filtered(s, lo, hi);
        let fp = filtered(pre, lo, hi);
        lemma_filtered_correct(pre, lo, hi);
        let last = (s.len() - 1) as int;
        assert(forall|i: int| 0 <= i < last ==> s[i] == pre[i]);
        assert forall|j: int|
            0 <= j < f.len() implies f[j] < s.len() && in_range(s[f[j] as int], lo, hi) by {
            if j < fp.len() {
                assert(f[j] == fp[j]);
            } else {
                assert(in_range(s.last(), lo, hi));
                assert(f[j] == last as u32);
            }
        }
        assert forall|i: int|
            0 <= i < s.len() implies (in_range(s[i], lo, hi) <==> f.contains(i as u32)) by {
            if i < last {
                if in_range(s[i], lo, hi) {
                    let k = choose|k: int| 0 <= k < fp.len() && fp[k] == i as u32;
                    assert(f[k] == i as u32);
                } else {
                    if f.contains(i as u32) {
                        let k = choose|k: int| 0 <= k < f.len() && f[k] == i as u32;
                        if k < fp.len() {
                            assert(fp[k] == i as u32);
                        } else {
                            assert(f[k] == last as u32);
                        }
                    }
                }
            } else {
                if in_range(s[last], lo, hi) {
                    assert(f[fp.len() as int] == last as u32);
                } else {
                    if f.contains(last as u32) {
                        let k = choose|k: int| 0 <= k < f.len() && f[k] == last as u32;
                        assert(fp[k] < pre.len());
                    }
                }
            }
        }
    }
}

/// The output is strictly ascending: no index repeats, and original order
/// is preserved.
pub proof fn lemma_filtered_ascending(s: Seq<u32>, lo: u32, hi: u32)
    requires
        s.len() <= u32::MAX,
    ensures
        forall|j1: int, j2: int|
            0 <= j1 < j2 < filtered(s, lo, hi).len() ==> filtered(s, lo, hi)[j1] < filtered(
                s,
                lo,
                hi,
            )[j2],
    decreases s.len(),
{
    if s.len() > 0 {
        let pre = s.drop_last();
        let f = filtered(s, lo, hi);
        let fp = filtered(pre, lo, hi);
        lemma_filtered_ascending(pre, lo, hi);
        lemma_filtered_correct(pre, lo, hi);
        assert forall|j1: int, j2: int| 0 <= j1 < j2 < f.len() implies f[j1] < f[j2] by {
            if j2 < fp.len() {
                assert(f[j1] == fp[j1] && f[j2] == fp[j2]);
            } else {
                assert(f[j1] == fp[j1]);
                assert(fp[j1] < pre.len());
            }
        }
    }
}

/// Completeness: the output's length equals the count of positions whose
/// value lies in the range.
pub proof fn lemma_filtered_complete(s: Seq<u32>, lo: u32, hi: u32)
    ensures
        filtered(s, lo, hi).len() == count_in_range(s, lo, hi),
    decreases s.len(),
{
    if s.len() > 0 {
        lemma_filtered_complete(s.drop_last(), lo, hi);
    }
}

/// A range disjoint from every value yields an empty output.
pub proof fn lemma_filtered_empty(s: Seq<u32>, lo: u32, hi: u32)
    requires
        forall|i: int| 0 <= i < s.len() ==> !in_range(s[i], lo, hi),
    ensures
        filtered(s, lo, hi) == Seq::<u32>::empty(),
    decreases s.len(),
{
    if s.len() > 0 {
        let pre = s.drop_last();
        assert(forall|i: int| 0 <= i < pre.len() ==> pre[i] == s[i]);
        lemma_filtered_empty(pre, lo, hi);
    }
}

/// A range covering every value yields the full identity index sequence
/// `[0, 1, ..., len - 1]`.
pub proof fn lemma_filtered_full(s: Seq<u32>, lo: u32, hi: u32)
    requires
        s.len() <= u32::MAX,
        forall|i: int| 0 <= i < s.len() ==> in_range(s[i], lo, hi),
    ensures
        filtered(s, lo, hi) == Seq::new(s.len(), |i: int| i as u32),
    decreases s.len(),
{
    if s.len() == 0 {
        assert(filtered(s, lo, hi) =~= Seq::new(s.len(), |i: int| i as u32));
    } else {
        let pre = s.drop_last();
        assert(forall|i: int| 0 <= i < pre.len() ==> pre[i] == s[i]);
        lemma_filtered_full(pre, lo, hi);
        assert(in_range(s.last(), lo, hi));
        assert(filtered(s, lo, hi) =~= Seq::new(s.len(), |i: int| i as u32));
    }
}

/// A singleton range `lo == hi` selects exactly the positions holding that
/// value.
pub proof fn lemma_filtered_singleton(s: Seq<u32>, lo: u32)
    requires
        s.len() <= u32::MAX,
    ensures
        forall|i: int|
            0 <= i < s.len() ==> (filtered(s, lo, lo).contains(i as u32) <==> s[i] == lo),
{
    lemma_filtered_correct(s, lo, lo);
}

/// Any two outputs that meet the shared contract for the same input and
/// range are the identical index sequence: the scalar baselines and both
/// compaction strategies cannot disagree.
pub proof fn lemma_variants_agree(out_a: Seq<u32>, out_b: Seq<u32>, s: Seq<u32>, lo: u32, hi: u32)
    requires
        out_a == filtered(s, lo, hi),
        out_b == filtered(s, lo, hi),
    ensures
        out_a == out_b,
{
}

/// Running the filter twice with the same input and range into a reused
/// output buffer leaves the same final contents: the clear-then-fill
/// contract makes the result independent of what the buffer held before.
pub proof fn lemma_filter_idempotent(
    first_run: Seq<u32>,
    second_run: Seq<u32>,
    s: Seq<u32>,
    lo: u32,
    hi: u32,
)
    requires
        first_run == filtered(s, lo, hi),
        second_run == filtered(s, lo, hi),
    ensures
        first_run == second_run,
{
}

/// Loads one lane-word: the `w` input values starting at `base`.
pub(crate) fn load_word(input: &[u32], base: usize, w: usize) -> (word: Vec<u32>)
    requires
        base + w <= input@.len(),
    ensures
        word@ == input@.subrange(base as int, base as int + w as int),
{
    let n = input.len();
    let mut word: Vec<u32> = Vec::new();
    let mut j: usize = 0;
    while j < w
        invariant
            j <= w,
            n == input@.len(),
            base + w <= n,
            word@ == input@.subrange(base as int, base as int + j as int),
        decreases w - j,
    {
        word.push(input[base + j]);
        j += 1;
        proof {
            assert(word@ =~= input@.subrange(base as int, base as int + j as int));
        }
    }
    word
}

/// Validates the caller's inclusive bound pair before any vector work begins.
pub fn check_range(lo: u32, hi: u32) -> (ok: bool)
    ensures
        ok == valid_range(lo, hi),
{
    lo <= hi && hi <= 0x7fff_ffffu32
}

/// Scalar baseline with a branching for-loop: the reference every vectorized
/// variant is held to.
pub fn filter_vec_scalar(input: &[u32], lo: u32, hi: u32, output: &mut Vec<u32>)
    requires
        valid_range(lo, hi),
        input@.len() <= u32::MAX,
    ensures
        final(output)@ == filtered(input@, lo, hi),
{
    output.clear();
    output.reserve(input.len());
    let n = input.len();
    let mut i: usize = 0;
    while i < n
        invariant
            i <= n,
            n == input@.len(),
            output@ == filtered(input@.take(i as int), lo, hi),
        decreases n - i,
    {
        let el = input[i];
        proof {
            lemma_filtered_take_step(input@, lo, hi, i as int);
        }
        if lo <= el && el <= hi {
            output.push(i as u32);
        }
        i += 1;
    }
    proof {
        assert(input@.take(n as int) =~= input@);
    }
}

/// Branchless scalar baseline: every index is written unconditionally into
/// the next output slot, and the write position advances only when the value
/// matched, so non-matching writes are overwritten by the next candidate.
pub fn filter_vec_nobranch(input: &[u32], lo: u32, hi: u32, output: &mut Vec<u32>)
    requires
        valid_range(lo, hi),
        input@.len() <= u32::MAX,
    ensures
        final(output)@ == filtered(input@, lo, hi),
{
    output.clear();
    output.resize(input.len(), 0u32);
    let n = input.len();
    let mut output_len: usize = 0;
    let mut i: usize = 0;
    while i < n
        invariant
            i <= n,
            n == input@.len(),
            output@.len() == n,
            output_len <= i,
            output_len == filtered(input@.take(i as int), lo, hi).len(),
            output@.take(output_len as int) == filtered(input@.take(i as int), lo, hi),
        decreases n - i,
    {
        let ghost prev = output@;
        let ghost prev_len = output_len;
        proof {
            lemma_filtered_take_step(input@, lo, hi, i as int);
        }
        output[output_len] = i as u32;
        let el = input[i];
        let keep: usize = if lo <= el && el <= hi {
            1
        } else {
            0
        };
        output_len += keep;
        i += 1;
        proof {
            assert(output@.take(prev_len as int) =~= prev.take(prev_len as int));
            if keep == 1 {
                assert(output@.take(output_len as int) =~= prev.take(prev_len as int).push(
                    (i - 1) as u32,
                ));
            }
        }
    }
    output.truncate(output_len);
    proof {
        assert(input@.take(n as int) =~= input@);
        assert(final(output)@ =~= filtered(input@, lo, hi));
    }
}

/// Stream-style scalar baseline: enumerates the input, keeps the positions
/// whose value is in range, and extends the output with them.
pub fn filter_vec_iter(input: &[u32], lo: u32, hi: u32, output: &mut Vec<u32>)
    requires
        valid_range(lo, hi),
        input@.len() <= u32::MAX,
    ensures
        final(output)@ == filtered(input@, lo, hi),
{
    output.clear();
    output.reserve(input.len());
    let n = input.len();
    for i in 0..n
        invariant
            n == input@.len(),
            output@ == filtered(input@.take(i as int), lo, hi),
    {
        proof {
            lemma_filtered_take_step(input@, lo, hi, i as int);
        }
        let el = input[i];
        if lo <= el && el <= hi {
            output.push(i as u32);
        }
    }
    proof {
        assert(input@.take(n as int) =~= input@);
    }
}

} // verus!
