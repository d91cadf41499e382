use rand::{thread_rng, Rng};
use std::ops::Range;
use suffix_array::construct::llhsais::llhsais;
use suffix_array::construct::sais_bytes::sais_bytes;
use suffix_array::construct::sais_ints_mut::sais_ints_mut;

/// Computes the order of suffixes using qsort.
fn naive_sort_ints(s: &[u32], sa: &mut [u32]) {
    for (i, x) in (0..=s.len()).rev().enumerate() {
        sa[i] = x as u32;
    }

    (&mut sa[1..]).sort_by(|&i, &j| Ord::cmp(&s[i as usize..], &s[j as usize..]));
}

/// Computes the order of suffixes using qsort.
fn naive_sort_bytes(s: &[u8], sa: &mut [u32]) {
    for (i, x) in (0..=s.len()).rev().enumerate() {
        sa[i] = x as u32;
    }

    (&mut sa[1..]).sort_by(|&i, &j| Ord::cmp(&s[i as usize..], &s[j as usize..]));
}

/// Generate sample data.
fn generate_ints(kr: Range<usize>, nr: Range<usize>) -> (usize, Vec<u32>) {
    let k = thread_rng().gen_range(kr.start, kr.end);
    let n = thread_rng().gen_range(nr.start, nr.end);
    let mut sample = Vec::with_capacity(n);
    for _ in 0..n {
        sample.push(thread_rng().gen_range(0, k) as u32);
    }
    (k, sample)
}

/// Generate sample data.
fn generate_bytes(vr: Option<Range<u8>>, nr: Range<usize>) -> Vec<u8> {
    let n = thread_rng().gen_range(nr.start, nr.end);
    let mut sample = Vec::with_capacity(n);
    if let Some(vr) = vr {
        for _ in 0..n {
            sample.push(thread_rng().gen_range(vr.start, vr.end) as u8);
        }
    } else {
        for _ in 0..n {
            sample.push(thread_rng().gen::<u8>());
        }
    }

    sample
}

fn check_ints(s: &[u32]) {
    let mut s0 = s.to_vec();
    let mut sa0 = vec![0; s0.len() + 1];
    let k = s0.iter().max().unwrap_or(&0) + 1;
    sais_ints_mut(&mut s0[..], k as usize, &mut sa0[..]);

    let mut sa1 = vec![0; s.len() + 1];
    naive_sort_ints(s, &mut sa1[..]);

    assert_eq!(sa0, sa1);
}

fn check_bytes(s: &[u8]) {
    let mut sa0 = vec![0; s.len() + 1];
    sais_bytes(s, &mut sa0[..]);

    let mut sa1 = vec![0; s.len() + 1];
    naive_sort_bytes(s, &mut sa1[..]);

    assert_eq!(sa0, sa1);
}

const LONG: [u8; 72] = [
    1, 2, 2, 1, 1, 0, 0, 1, 1, 2, 2, 0, 0, 2, 2, 0, 1, 0, 2, 0, 1, 1, 1, 1, 2, 2, 0, 0, 2, 1, 2, 1,
    1, 0, 2, 1, 2, 2, 0, 2, 1, 1, 2, 2, 2, 1, 2, 0, 0, 1, 2, 0, 0, 0, 1, 2, 2, 2, 1, 1, 1, 1, 2, 0,
    2, 1, 1, 1, 2, 1, 0, 1,
];

#[test]
fn sais_ints_mut_basic() {
    check_ints(&[]);
    check_ints(&[0]);
    check_ints(&[0, 0, 0, 0, 0, 0]);
    check_ints(&[2, 1, 4, 1, 1, 4, 1, 3, 1]);
    check_ints(&[2, 1, 1, 3, 3, 1, 1, 3, 3, 1, 2, 1]);
    check_ints(&[2, 2, 1, 4, 4, 1, 4, 4, 1, 3, 3, 1, 1]);
    let long: Vec<u32> = LONG.iter().map(|&c| c as u32).collect();
    check_ints(&long[..]);
}

#[test]
fn sais_ints_mut_small_random_samples() {
    const N: usize = 10000;
    const SCALE_RANGE: Range<usize> = 1..16;
    const LENGTH_RANGE: Range<usize> = 16..256;

    for _ in 0..N {
        let (k, mut sample) = generate_ints(SCALE_RANGE, LENGTH_RANGE);
        let mut sa = vec![0; sample.len() + 1];
        let mut sa_naive = vec![0; sample.len() + 1];

        naive_sort_ints(&sample[..], &mut sa_naive[..]);
        sais_ints_mut(&mut sample[..], k, &mut sa[..]);

        assert_eq!(sa, sa_naive);
    }
}

#[test]
fn sais_ints_mut_big_random_samples() {
    const N: usize = 1000;
    const SCALE_RANGE: Range<usize> = 32..128;
    const LENGTH_RANGE: Range<usize> = 1024..2048;

    for _ in 0..N {
        let (k, mut sample) = generate_ints(SCALE_RANGE, LENGTH_RANGE);
        let mut sa = vec![0; sample.len() + 1];
        let mut sa_naive = vec![0; sample.len() + 1];

        naive_sort_ints(&sample[..], &mut sa_naive[..]);
        sais_ints_mut(&mut sample[..], k, &mut sa[..]);

        assert_eq!(sa, sa_naive);
    }
}

#[test]
fn sais_bytes_basic() {
    check_bytes(&[]);
    check_bytes(&[0]);
    check_bytes(&[0, 0, 0, 0, 0, 0]);
    check_bytes(&[2, 1, 4, 1, 1, 4, 1, 3, 1]);
    check_bytes(&[2, 1, 1, 3, 3, 1, 1, 3, 3, 1, 2, 1]);
    check_bytes(&[2, 2, 1, 4, 4, 1, 4, 4, 1, 3, 3, 1, 1]);
    check_bytes(&LONG[..]);
}

#[test]
fn sais_bytes_small_random_samples() {
    const N: usize = 10000;
    const VALUE_RANGE: Range<u8> = 1..16;
    const LENGTH_RANGE: Range<usize> = 16..256;

    for _ in 0..N {
        let sample = generate_bytes(Some(VALUE_RANGE), LENGTH_RANGE);
        let mut sa = vec![0; sample.len() + 1];
        let mut sa_naive = vec![0; sample.len() + 1];

        sais_bytes(&sample[..], &mut sa[..]);
        naive_sort_bytes(&sample[..], &mut sa_naive[..]);

        assert_eq!(sa, sa_naive);
    }
}

#[test]
fn sais_bytes_big_random_samples() {
    const N: usize = 3000;
    const LENGTH_RANGE: Range<usize> = 1024..2048;

    for _ in 0..N {
        let sample = generate_bytes(None, LENGTH_RANGE);
        let mut sa = vec![0; sample.len() + 1];
        let mut sa_naive = vec![0; sample.len() + 1];

        sais_bytes(&sample[..], &mut sa[..]);
        naive_sort_bytes(&sample[..], &mut sa_naive[..]);

        assert_eq!(sa, sa_naive);
    }
}

#[test]
fn llhsais_banana() {
    // b a n a n a -> 1 0 2 0 2 0
    let mut s = vec![1u32, 0, 2, 0, 2, 0];
    let mut sa = vec![0u32; 7];
    llhsais(&mut s[..], 3, &mut sa[..]);
    assert_eq!(sa, vec![6, 5, 3, 1, 0, 4, 2]);
}

#[test]
fn llhsais_mississippi() {
    // i = 0, m = 1, p = 2, s = 3
    let mut s = vec![1u32, 0, 3, 3, 0, 3, 3, 0, 2, 2, 0];
    let mut sa = vec![0u32; 12];
    llhsais(&mut s[..], 4, &mut sa[..]);
    assert_eq!(sa, vec![11, 10, 7, 4, 1, 0, 9, 8, 6, 3, 5, 2]);
}

#[test]
fn llhsais_runs_and_repeats() {
    // long runs and repeated blocks make equal lms substrings, so that the
    // names must be sorted in turn
    let mut text: Vec<u32> = Vec::new();
    for round in 0..40 {
        text.extend_from_slice(&[3, 1, 2, 1, 2, 1, 3, 3, 1, 1, 2, 0, 0, 4]);
        if round % 3 == 0 {
            text.extend_from_slice(&[5, 5, 5, 0, 5]);
        }
    }
    let mut expected = vec![0u32; text.len() + 1];
    naive_sort_ints(&text[..], &mut expected[..]);
    let mut s = text.clone();
    let mut sa = vec![0u32; text.len() + 1];
    llhsais(&mut s[..], 6, &mut sa[..]);
    assert_eq!(sa, expected);
}

#[test]
fn llhsais_single_and_empty() {
    let mut s: Vec<u32> = Vec::new();
    let mut sa = vec![7u32; 1];
    llhsais(&mut s[..], 0, &mut sa[..]);
    assert_eq!(sa, vec![0]);

    let mut s = vec![0u32];
    let mut sa = vec![7u32; 2];
    llhsais(&mut s[..], 1, &mut sa[..]);
    assert_eq!(sa, vec![1, 0]);
}
