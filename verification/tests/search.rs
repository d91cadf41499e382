use suffix_array::SuffixArray;

#[test]
fn empty_string_has_only_the_empty_suffix() {
    let (_, sa) = SuffixArray::new(b"").into_parts();
    assert_eq!(sa, vec![0]);
}

#[test]
fn single_byte() {
    let (_, sa) = SuffixArray::new(b"a").into_parts();
    assert_eq!(sa, vec![1, 0]);
}

#[test]
fn banana() {
    let (_, sa) = SuffixArray::new(b"banana").into_parts();
    assert_eq!(sa, vec![6, 5, 3, 1, 0, 4, 2]);
}

#[test]
fn contains_issi() {
    let sa = SuffixArray::new(b"mmississiippii");
    assert!(sa.contains(b"issi"));
    assert!(!sa.contains(b"issip"));
    assert!(sa.contains(b""));
}

#[test]
fn search_all_single_byte() {
    let sa = SuffixArray::new(b"mmississiippii");
    let mut found = Vec::from(sa.search_all(b"i"));
    found.sort();
    assert_eq!(found, vec![2, 5, 8, 9, 12, 13]);
}

#[test]
fn search_all_splend() {
    let sa = SuffixArray::new(b"splendid splendor");
    let mut found = Vec::from(sa.search_all(b"splend"));
    found.sort();
    assert_eq!(found, vec![0, 9]);
}

#[test]
fn search_lcp_splash() {
    let s = b"splendid splendor";
    let sa = SuffixArray::new(s);
    let lcp = sa.search_lcp(b"splash");
    assert_eq!(&s[lcp], b"spl");
}
