use rand::random;
use suffix_array::construct::sacak0::sacak0;
use suffix_array::sais::{construct, naive_sort, sais, BitmapSorter, NaiveSorter};

fn assert_sais_equals_naive(s: &[u8]) {
    let mut sa0 = vec![0; s.len() + 1];
    let mut sa1 = vec![0; s.len() + 1];
    sais(s, 256, &mut sa0[..]);
    naive_sort(s, &mut sa1[..]);
    assert_eq!(sa0, sa1);
}

#[test]
fn sais_basic_correctness() {
    assert_sais_equals_naive(b"");
    assert_sais_equals_naive(b"\0");
    assert_sais_equals_naive(b"\xff");
    assert_sais_equals_naive(b"xxxxxxxx");
    assert_sais_equals_naive(b"xxxxoooo");
    assert_sais_equals_naive(b"baaccaaccaba");
    assert_sais_equals_naive(b"mmississiippii");
}

#[test]
fn sais_random_samples() {
    const MIN_LEN: usize = 500;
    const MAX_LEN: usize = 1000;
    const SAMPLES: usize = 2000;

    let mut array = vec![0; MAX_LEN];
    for _ in 0..SAMPLES {
        let mut scale = 2;
        if random::<bool>() {
            // small alphabet
            scale += random::<u8>() % 4;
        } else {
            // large alphabet
            scale += 128 + random::<u8>() % 32;
        }

        // generate random data of random length
        let n = random::<usize>() % (MAX_LEN - MIN_LEN) + MIN_LEN;
        for i in 0..n {
            array[i] = random::<u8>() % scale;
        }

        assert_sais_equals_naive(&array[..n]);
    }
}

#[test]
fn sais_banana() {
    let mut sa = vec![0; 7];
    sais(b"banana", 256, &mut sa[..]);
    assert_eq!(sa, vec![6, 5, 3, 1, 0, 4, 2]);
}

#[test]
fn sais_on_integers_recurses() {
    // long enough to pass the threshold below which suffixes are sorted naively,
    // with few symbols so that LMS substrings repeat
    let s: Vec<u32> = (0..1000u32).map(|i| (i * i + i / 3) % 3).collect();
    let mut sa0 = vec![0; s.len() + 1];
    let mut sa1 = vec![0; s.len() + 1];
    sais(&s[..], 3, &mut sa0[..]);
    naive_sort(&s[..], &mut sa1[..]);
    assert_eq!(sa0, sa1);
    for i in 1..sa0.len() {
        assert!(s[sa0[i - 1] as usize..] < s[sa0[i] as usize..]);
    }
}

#[test]
fn construct_small_and_large() {
    let mut sa = vec![0; 1];
    construct(b"", &mut sa[..]);
    assert_eq!(sa, vec![0]);

    let s: Vec<u8> = (0..5000u32).map(|i| (i * 7919 % 251 % 5) as u8).collect();
    let mut sa = vec![0; s.len() + 1];
    construct(&s[..], &mut sa[..]);
    assert_eq!(sa[0] as usize, s.len());
    for i in 1..sa.len() {
        assert!(s[sa[i - 1] as usize..] < s[sa[i] as usize..]);
    }
}

#[test]
fn naive_sort_mississippi() {
    let s = b"mmississiippii";
    let mut sa = vec![0; s.len() + 1];
    naive_sort(&s[..], &mut sa[..]);
    assert_eq!(sa, vec![14, 13, 12, 8, 9, 5, 2, 1, 0, 11, 10, 7, 4, 6, 3]);
}

fn assert_sacak0_equals_naive(s: &[u8]) {
    let mut sa0 = vec![0; s.len() + 1];
    let mut sa1 = vec![0; s.len() + 1];
    let mut sa2 = vec![0; s.len() + 1];
    sacak0::<NaiveSorter>(s, &mut sa0[..]);
    sacak0::<BitmapSorter>(s, &mut sa1[..]);
    naive_sort(s, &mut sa2[..]);
    assert_eq!(sa0, sa2);
    assert_eq!(sa1, sa2);
}

#[test]
fn sacak0_basic() {
    assert_sacak0_equals_naive(&[]);
    assert_sacak0_equals_naive(&[0]);
    assert_sacak0_equals_naive(&[0, 0, 0, 0, 0, 0]);
    assert_sacak0_equals_naive(&[2, 1, 4, 1, 1, 4, 1, 3, 1]);
    assert_sacak0_equals_naive(&[2, 1, 1, 3, 3, 1, 1, 3, 3, 1, 2, 1]);
    assert_sacak0_equals_naive(&[2, 2, 1, 4, 4, 1, 4, 4, 1, 3, 3, 1, 1]);
    assert_sacak0_equals_naive(&[
        1, 2, 2, 1, 1, 0, 0, 1, 1, 2, 2, 0, 0, 2, 2, 0, 1, 0, 2, 0, 1, 1, 1, 1, 2, 2, 0, 0, 2, 1,
        2, 1, 1, 0, 2, 1, 2, 2, 0, 2, 1, 1, 2, 2, 2, 1, 2, 0, 0, 1, 2, 0, 0, 0, 1, 2, 2, 2, 1, 1,
        1, 1, 2, 0, 2, 1, 1, 1, 2, 1, 0, 1,
    ]);
    assert_sacak0_equals_naive(b"mmississiippii");
    assert_sacak0_equals_naive(b"banana");
}

#[test]
fn sacak0_random_samples() {
    for _ in 0..300 {
        let scale = 1 + random::<u8>() % 6;
        let n = random::<usize>() % 600;
        let sample: Vec<u8> = (0..n).map(|_| random::<u8>() % scale).collect();
        assert_sacak0_equals_naive(&sample[..]);
    }
    for _ in 0..100 {
        let n = 1024 + random::<usize>() % 1024;
        let sample: Vec<u8> = (0..n).map(|_| random::<u8>()).collect();
        assert_sacak0_equals_naive(&sample[..]);
    }
}
