use suffix_array::SuffixArray;

fn naive_contains(s: &[u8], pat: &[u8]) -> bool {
    for i in 0..=s.len().saturating_sub(pat.len()) {
        if pat == &s[i..Ord::min(s.len(), i + pat.len())] {
            return true;
        }
    }
    false
}

fn naive_search_all(s: &[u8], pat: &[u8]) -> Vec<u32> {
    let mut result = Vec::new();
    for i in 0..=s.len().saturating_sub(pat.len()) {
        if pat == &s[i..Ord::min(s.len(), i + pat.len())] {
            result.push(i as u32);
        }
    }
    result
}

fn naive_search_lcp<'s>(s: &[u8], pat: &'s [u8]) -> &'s [u8] {
    let mut matched = &pat[..0];
    for i in 0..=s.len() {
        let n = suffix_array::utils::lcp(pat, &s[i..]);
        if n > matched.len() {
            matched = &pat[..n];
        }
    }
    matched
}

fn sample(n: usize, symbols: u32, seed: u32) -> Vec<u8> {
    let mut x = seed;
    (0..n)
        .map(|_| {
            x = x.wrapping_mul(1664525).wrapping_add(1013904223);
            ((x >> 16) % symbols) as u8
        })
        .collect()
}

fn patterns(s: &[u8]) -> Vec<Vec<u8>> {
    let mut pats: Vec<Vec<u8>> = vec![vec![], vec![0], vec![200], vec![1, 1], vec![9, 9, 9]];
    for start in [0usize, 1, 5, 17] {
        for len in [1usize, 2, 3, 8] {
            if start + len <= s.len() {
                let mut p = s[start..start + len].to_vec();
                pats.push(p.clone());
                p.push(250);
                pats.push(p.clone());
                let last = p.len() - 1;
                p[last] = 0;
                pats.push(p);
            }
        }
    }
    pats
}

#[test]
fn searches_agree_with_and_without_buckets() {
    for (n, symbols, seed) in [(0, 2, 1), (1, 2, 2), (2, 2, 3), (50, 2, 4), (300, 3, 5), (300, 200, 6)] {
        let s = sample(n, symbols, seed);
        let mut sa = SuffixArray::new(&s[..]);
        for pat in patterns(&s[..]) {
            let contains = sa.contains(&pat[..]);
            let mut all = Vec::from(sa.search_all(&pat[..]));
            all.sort();
            let lcp = sa.search_lcp(&pat[..]);
            assert_eq!(contains, naive_contains(&s[..], &pat[..]));
            let mut naive_all = naive_search_all(&s[..], &pat[..]);
            naive_all.sort();
            if pat.is_empty() {
                // every position holds the empty pattern, the end of the string too
                assert_eq!(all.len(), s.len() + 1);
            } else {
                assert_eq!(all, naive_all);
            }
            assert_eq!(&s[lcp], naive_search_lcp(&s[..], &pat[..]));
        }
        sa.enable_buckets();
        for pat in patterns(&s[..]) {
            assert_eq!(sa.contains(&pat[..]), naive_contains(&s[..], &pat[..]));
            let mut all = Vec::from(sa.search_all(&pat[..]));
            all.sort();
            if !pat.is_empty() {
                let mut naive_all = naive_search_all(&s[..], &pat[..]);
                naive_all.sort();
                assert_eq!(all, naive_all);
            }
            let lcp = sa.search_lcp(&pat[..]);
            assert_eq!(&s[lcp], naive_search_lcp(&s[..], &pat[..]));
        }
    }
}

#[test]
fn search_lcp_with_buckets_and_no_common_symbol() {
    let mut sa = SuffixArray::new(b"aaaa");
    sa.enable_buckets();
    assert_eq!(sa.search_lcp(b"zz"), 4..4);
    assert_eq!(sa.search_lcp(b"az").len(), 1);
}

#[test]
fn from_parts_is_the_integrity_gate() {
    let s = b"banana";
    assert!(SuffixArray::from_parts(s, vec![6, 5, 3, 1, 0, 4, 2]).is_some());
    // not sorted
    assert!(SuffixArray::from_parts(s, vec![6, 5, 3, 1, 0, 2, 4]).is_none());
    // too short
    assert!(SuffixArray::from_parts(s, vec![6, 5, 3, 1, 0, 4]).is_none());
    // an entry that is no position
    assert!(SuffixArray::from_parts(s, vec![6, 5, 3, 1, 0, 4, 9]).is_none());
    // an entry twice
    assert!(SuffixArray::from_parts(s, vec![6, 5, 3, 1, 0, 4, 4]).is_none());
    assert!(SuffixArray::from_parts(b"", vec![0]).is_some());
    assert!(SuffixArray::from_parts(b"", vec![]).is_none());
}

#[test]
fn set_and_fit_keep_the_array_right() {
    let mut sa = SuffixArray::new(b"banana");
    sa.set(b"abracadabra");
    sa.fit();
    assert_eq!(sa.len(), 11);
    assert!(!sa.is_empty());
    assert!(sa.contains(b"cad"));
    assert!(!sa.contains(b"nan"));
    let (s, array) = sa.into_parts();
    assert!(SuffixArray::from_parts(s, array).is_some());
}

#[test]
fn lcp_and_trunc() {
    assert_eq!(suffix_array::utils::lcp(b"splash", b"splendid"), 3);
    assert_eq!(suffix_array::utils::lcp(b"", b"splendid"), 0);
    assert_eq!(suffix_array::utils::lcp(b"abc", b"abc"), 3);
    assert_eq!(suffix_array::utils::trunc(b"splendid", 3), b"spl");
    assert_eq!(suffix_array::utils::trunc(b"spl", 8), b"spl");
}

#[test]
fn as_ref_gives_the_string() {
    let s = b"splendid splendor";
    let sa = SuffixArray::new(s);
    let r: &[u8] = sa.as_ref();
    assert_eq!(r, &s[..]);

    let empty = SuffixArray::new(b"");
    let r: &[u8] = empty.as_ref();
    assert!(r.is_empty());
}
