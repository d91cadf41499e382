use rand::{thread_rng, Rng};
use suffix_array::construct::sacak::sacak;
use suffix_array::construct::sacak::sacak_u32s::sacak_u32s;
use suffix_array::construct::saca;

/// Computes the order of suffixes using qsort.
fn naive_order(s: &[u32]) -> Vec<u32> {
    let mut sa: Vec<u32> = (0..=s.len() as u32).rev().collect();
    (&mut sa[1..]).sort_by(|&i, &j| Ord::cmp(&s[i as usize..], &s[j as usize..]));
    sa
}

fn check_sacak(s: &[u32]) {
    let k = s.iter().max().map_or(0, |&c| c as usize + 1);
    let mut text = s.to_vec();
    let mut sa = vec![0u32; s.len() + 1];
    sacak_u32s(&mut text[..], k, &mut sa[..]);
    assert_eq!(sa, naive_order(s));
}

#[test]
fn sacak_u32s_basic() {
    check_sacak(&[]);
    check_sacak(&[0]);
    check_sacak(&[0, 0, 0, 0, 0, 0]);
    check_sacak(&[2, 1, 4, 1, 1, 4, 1, 3, 1]);
    check_sacak(&[2, 1, 1, 3, 3, 1, 1, 3, 3, 1, 2, 1]);
    check_sacak(&[2, 2, 1, 4, 4, 1, 4, 4, 1, 3, 3, 1, 1]);
    check_sacak(&[
        1, 2, 2, 1, 1, 0, 0, 1, 1, 2, 2, 0, 0, 2, 2, 0, 1, 0, 2, 0, 1, 1, 1, 1, 2, 2, 0, 0, 2, 1,
        2, 1, 1, 0, 2, 1, 2, 2, 0, 2, 1, 1, 2, 2, 2, 1, 2, 0, 0, 1, 2, 0, 0, 0, 1, 2, 2, 2, 1, 1,
        1, 1, 2, 0, 2, 1, 1, 1, 2, 1, 0, 1,
    ]);
}

#[test]
fn sacak_u32s_banana() {
    // b a n a n a -> 1 0 2 0 2 0
    let mut s = vec![1u32, 0, 2, 0, 2, 0];
    let mut sa = vec![0u32; 7];
    sacak_u32s(&mut s[..], 3, &mut sa[..]);
    assert_eq!(sa, vec![6, 5, 3, 1, 0, 4, 2]);
}

#[test]
fn sacak_u32s_correctness() {
    // the scale of the alphabet is the length of the string; the string is
    // left as pointers, which stand in the order of the symbols
    for _ in 0..300 {
        let k = thread_rng().gen_range(1, 2048);
        let given: Vec<u32> = (0..k).map(|_| thread_rng().gen_range(0, k as u32)).collect();
        let mut s = given.clone();
        let mut sa = vec![0u32; s.len() + 1];
        sacak_u32s(&mut s[..], k, &mut sa[..]);
        for i in 1..sa.len() {
            let x = &s[sa[i - 1] as usize..];
            let y = &s[sa[i] as usize..];
            assert!(x < y);
        }
        assert_eq!(sa, naive_order(&given[..]));
    }
}

#[test]
fn sacak_u32s_small_alphabets() {
    for _ in 0..3000 {
        let k = thread_rng().gen_range(1, 6);
        let n = thread_rng().gen_range(k, 200);
        let given: Vec<u32> = (0..n).map(|_| thread_rng().gen_range(0, k as u32)).collect();
        let mut s = given.clone();
        let mut sa = vec![0u32; s.len() + 1];
        sacak_u32s(&mut s[..], k, &mut sa[..]);
        assert_eq!(sa, naive_order(&given[..]));
    }
}

#[test]
fn sacak_u32s_runs_and_repeats() {
    let mut text: Vec<u32> = Vec::new();
    for round in 0..60 {
        text.extend_from_slice(&[3, 1, 2, 1, 2, 1, 3, 3, 1, 1, 2, 0, 0, 4]);
        if round % 3 == 0 {
            text.extend_from_slice(&[5, 5, 5, 0, 5]);
        }
        if round % 7 == 0 {
            text.extend_from_slice(&[0, 0, 0, 0, 1, 1, 1, 1]);
        }
    }
    check_sacak(&text[..]);
}

fn check_bytes(s: &[u8]) -> bool {
    let mut sa = vec![0; s.len() + 1];
    sacak(s, &mut sa[..]);
    for i in 1..sa.len() {
        let x = &s[sa[i - 1] as usize..];
        let y = &s[sa[i] as usize..];
        if x >= y {
            return false;
        }
    }
    true
}

#[test]
fn sacak_correctness() {
    assert!(check_bytes(b""));
    assert!(check_bytes(b"\0"));
    assert!(check_bytes(b"mmississiippii"));
    for _ in 0..200 {
        let n = thread_rng().gen_range(0, 8192);
        let s: Vec<u8> = (0..n).map(|_| thread_rng().gen::<u8>()).collect();
        assert!(check_bytes(&s[..]));
    }
    for _ in 0..200 {
        let n = thread_rng().gen_range(0, 4096);
        let s: Vec<u8> = (0..n).map(|_| thread_rng().gen_range(0, 4) as u8).collect();
        assert!(check_bytes(&s[..]));
    }
}

#[test]
fn saca_agrees_with_sacak() {
    for _ in 0..100 {
        let n = thread_rng().gen_range(0, 2048);
        let s: Vec<u8> = (0..n).map(|_| thread_rng().gen_range(0, 7) as u8).collect();
        let mut sa0 = vec![0; s.len() + 1];
        let mut sa1 = vec![0; s.len() + 1];
        saca(&s[..], &mut sa0[..]);
        sacak(&s[..], &mut sa1[..]);
        assert_eq!(sa0, sa1);
    }
}
