use filter_vec::{check_range, filter_vec_iter, filter_vec_nobranch, filter_vec_scalar};

fn expected_indices(v: &[u32], lo: u32, hi: u32) -> Vec<u32> {
    v.iter()
        .cloned()
        .enumerate()
        .filter(|&(_, el)| (lo..=hi).contains(&el))
        .map(|(ord, _)| ord as u32)
        .collect()
}

#[test]
fn test_filter() {
    let v = &[14, 3, 15, 3, 5, 14, 2, 3, 2, 3, 3, 4, 6, 10, 3, 7];
    let interval = 3..=5;
    let expected: Vec<u32> = v
        .iter()
        .cloned()
        .enumerate()
        .filter(|&(_, el)| interval.contains(&el))
        .map(|(ord, _)| ord as u32)
        .collect();
    {
        let mut output = Vec::new();
        filter_vec::permute::filter_vec(&v[..], 3, 5, &mut output);
        assert_eq!(&output[..], &expected);
    }
    {
        let mut output = Vec::new();
        filter_vec_nobranch(&v[..], 3, 5, &mut output);
        assert_eq!(&output[..], &expected);
    }
    {
        let mut output = Vec::new();
        filter_vec_iter(&v[..], 3, 5, &mut output);
        assert_eq!(&output[..], &expected);
    }
    {
        let mut output = Vec::new();
        filter_vec::compress::filter_vec(&v[..], 3, 5, &mut output);
        assert_eq!(&output[..], &expected);
    }
}

#[test]
fn test_concrete_scenario() {
    let v = &[14, 3, 15, 3, 5, 14, 2, 3, 2, 3, 3, 4, 6, 10, 3, 7];
    let expected: Vec<u32> = vec![1, 3, 4, 7, 9, 10, 11, 14];
    let mut output = Vec::new();
    filter_vec_scalar(&v[..], 3, 5, &mut output);
    assert_eq!(output, expected);
    filter_vec_nobranch(&v[..], 3, 5, &mut output);
    assert_eq!(output, expected);
    filter_vec_iter(&v[..], 3, 5, &mut output);
    assert_eq!(output, expected);
    filter_vec::permute::filter_vec(&v[..], 3, 5, &mut output);
    assert_eq!(output, expected);
    filter_vec::compress::filter_vec(&v[..], 3, 5, &mut output);
    assert_eq!(output, expected);
}

#[test]
fn test_variants_agree() {
    // A fixed pseudo-random input whose length is a multiple of both lane
    // widths, checked over several ranges.
    let mut v: Vec<u32> = Vec::new();
    let mut x: u32 = 12345;
    for _ in 0..64 {
        x = x.wrapping_mul(1103515245).wrapping_add(12347) % 1000;
        v.push(x);
    }
    for &(lo, hi) in &[(0u32, 999u32), (100, 500), (250, 250), (900, 2000), (0, 0)] {
        let expected = expected_indices(&v, lo, hi);
        let mut out_scalar = Vec::new();
        let mut out_nobranch = Vec::new();
        let mut out_iter = Vec::new();
        let mut out_permute = Vec::new();
        let mut out_compress = Vec::new();
        filter_vec_scalar(&v, lo, hi, &mut out_scalar);
        filter_vec_nobranch(&v, lo, hi, &mut out_nobranch);
        filter_vec_iter(&v, lo, hi, &mut out_iter);
        filter_vec::permute::filter_vec(&v, lo, hi, &mut out_permute);
        filter_vec::compress::filter_vec(&v, lo, hi, &mut out_compress);
        assert_eq!(out_scalar, expected);
        assert_eq!(out_nobranch, expected);
        assert_eq!(out_iter, expected);
        assert_eq!(out_permute, expected);
        assert_eq!(out_compress, expected);
    }
}

#[test]
fn test_correctness_and_order() {
    let v: Vec<u32> = (0..48).map(|i| (i * 7 + 3) % 23).collect();
    let (lo, hi) = (5u32, 15u32);
    let mut output = Vec::new();
    filter_vec::permute::filter_vec(&v, lo, hi, &mut output);
    // Every returned index satisfies the predicate.
    for &i in &output {
        assert!(lo <= v[i as usize] && v[i as usize] <= hi);
    }
    // Every index not returned fails it.
    for i in 0..v.len() as u32 {
        if !output.contains(&i) {
            assert!(v[i as usize] < lo || v[i as usize] > hi);
        }
    }
    // Completeness: the length equals the count of matching positions.
    let count = v.iter().filter(|&&el| lo <= el && el <= hi).count();
    assert_eq!(output.len(), count);
    // Strictly ascending, no duplicates.
    for w in output.windows(2) {
        assert!(w[0] < w[1]);
    }
}

#[test]
fn test_idempotence_reused_buffer() {
    let v = &[14, 3, 15, 3, 5, 14, 2, 3, 2, 3, 3, 4, 6, 10, 3, 7];
    let mut output: Vec<u32> = vec![99, 99, 99, 99, 99, 99, 99, 99, 99, 99];
    filter_vec::compress::filter_vec(&v[..], 3, 5, &mut output);
    let first = output.clone();
    filter_vec::compress::filter_vec(&v[..], 3, 5, &mut output);
    assert_eq!(output, first);
    filter_vec::permute::filter_vec(&v[..], 3, 5, &mut output);
    assert_eq!(output, first);
    filter_vec_nobranch(&v[..], 3, 5, &mut output);
    assert_eq!(output, first);
}

#[test]
fn test_empty_match() {
    let v = &[14, 3, 15, 3, 5, 14, 2, 3, 2, 3, 3, 4, 6, 10, 3, 7];
    let mut output: Vec<u32> = vec![7; 4];
    filter_vec::permute::filter_vec(&v[..], 100, 200, &mut output);
    assert!(output.is_empty());
    filter_vec::compress::filter_vec(&v[..], 100, 200, &mut output);
    assert!(output.is_empty());
    filter_vec_scalar(&v[..], 100, 200, &mut output);
    assert!(output.is_empty());
}

#[test]
fn test_full_match() {
    let v = &[14, 3, 15, 3, 5, 14, 2, 3, 2, 3, 3, 4, 6, 10, 3, 7];
    let identity: Vec<u32> = (0..v.len() as u32).collect();
    let mut output = Vec::new();
    filter_vec::permute::filter_vec(&v[..], 0, 0x7fff_ffff, &mut output);
    assert_eq!(output, identity);
    filter_vec::compress::filter_vec(&v[..], 0, 0x7fff_ffff, &mut output);
    assert_eq!(output, identity);
    filter_vec_iter(&v[..], 0, 0x7fff_ffff, &mut output);
    assert_eq!(output, identity);
}

#[test]
fn test_singleton_range() {
    let v = &[14, 3, 15, 3, 5, 14, 2, 3, 2, 3, 3, 4, 6, 10, 3, 7];
    let expected: Vec<u32> = vec![1, 3, 7, 9, 10, 14];
    let mut output = Vec::new();
    filter_vec::permute::filter_vec(&v[..], 3, 3, &mut output);
    assert_eq!(output, expected);
    filter_vec::compress::filter_vec(&v[..], 3, 3, &mut output);
    assert_eq!(output, expected);
    filter_vec_scalar(&v[..], 3, 3, &mut output);
    assert_eq!(output, expected);
}

#[test]
fn test_empty_input() {
    let v: Vec<u32> = Vec::new();
    let mut output: Vec<u32> = vec![5, 5, 5];
    filter_vec::permute::filter_vec(&v, 3, 5, &mut output);
    assert!(output.is_empty());
    filter_vec::compress::filter_vec(&v, 3, 5, &mut output);
    assert!(output.is_empty());
    filter_vec_scalar(&v, 3, 5, &mut output);
    assert!(output.is_empty());
}

#[test]
fn test_mask_formulations_agree() {
    let windows: &[&[u32]] = &[
        &[14, 3, 15, 3, 5, 14, 2, 3],
        &[0, 0x7fff_ffff, 3, 5, 4, 4, 3, 5],
        &[2, 3, 2, 3, 3, 4, 6, 10, 3, 7, 1, 0, 5, 5, 5, 5],
        &[],
    ];
    for w in windows {
        for &(lo, hi) in &[(3u32, 5u32), (0, 0x7fff_ffff), (4, 4), (7, 2)] {
            let a = filter_vec::mask::compute_filter_bitset(w, lo, hi);
            let b = filter_vec::mask::is_between(w, lo, hi);
            assert_eq!(a, b);
        }
    }
}

#[test]
fn test_mask_values() {
    // Lane i sets bit i exactly when the lane's value is in range.
    let w: &[u32] = &[14, 3, 15, 3, 5, 14, 2, 3];
    let mask = filter_vec::mask::compute_filter_bitset(w, 3, 5);
    assert_eq!(mask, 0b1001_1010);
    let full = filter_vec::mask::is_between(w, 0, 0x7fff_ffff);
    assert_eq!(full, 0b1111_1111);
    let none = filter_vec::mask::is_between(w, 100, 200);
    assert_eq!(none, 0);
}

#[test]
fn test_popcount() {
    assert_eq!(filter_vec::mask::popcount(0, 8), 0);
    assert_eq!(filter_vec::mask::popcount(0b1001_1010, 8), 4);
    assert_eq!(filter_vec::mask::popcount(0xffff, 16), 16);
    assert_eq!(filter_vec::mask::popcount(0xffff_ffff, 32), 32);
    // Bits at or above the lane width do not count.
    assert_eq!(filter_vec::mask::popcount(0xff00, 8), 0);
}

#[test]
fn test_permutation_table() {
    let table = filter_vec::permute::make_permutation_table();
    assert_eq!(table.len(), 256);
    for (m, entry) in table.iter().enumerate() {
        assert_eq!(entry.len(), 8);
        // The leading popcount slots list the set-bit positions ascending.
        let set_bits: Vec<u32> = (0..8u32).filter(|b| (m >> b) & 1 == 1).collect();
        assert_eq!(&entry[..set_bits.len()], &set_bits[..]);
        for &lane in entry.iter() {
            assert!(lane < 8);
        }
    }
}

#[test]
fn test_compact() {
    let ids: Vec<u32> = vec![80, 81, 82, 83, 84, 85, 86, 87];
    let perm: Vec<u32> = vec![1, 4, 7, 0, 0, 0, 0, 0];
    let out = filter_vec::permute::compact(&ids, &perm);
    assert_eq!(out, vec![81, 84, 87, 80, 80, 80, 80, 80]);
}

#[test]
fn test_compress_aux() {
    let v = &[14, 3, 15, 3, 5, 14, 2, 3, 2, 3, 3, 4, 6, 10, 3, 7];
    let mut buffer: Vec<u32> = vec![0; v.len()];
    let n = filter_vec::compress::filter_vec_aux(&v[..], 3, 5, &mut buffer, 1);
    assert_eq!(n, 8);
    assert_eq!(&buffer[..n], &[1, 3, 4, 7, 9, 10, 11, 14]);
}

#[test]
fn test_check_range() {
    assert!(check_range(3, 5));
    assert!(check_range(0, 0x7fff_ffff));
    assert!(check_range(7, 7));
    assert!(!check_range(5, 3));
    assert!(!check_range(0, 0x8000_0000));
    assert!(!check_range(0xffff_ffff, 0xffff_ffff));
}
