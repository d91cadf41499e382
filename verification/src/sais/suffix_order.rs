//! Comparing two suffixes of one string.
use vstd::prelude::*;
use crate::construct::utils::{text_of, SaisChar};
use crate::order::{lcp_from, lemma_lcp, suf_lt};

verus! {

/// Whether the suffix of `s` at `i` comes strictly before the one at `j`.
pub open spec fn suffix_before<T: SaisChar>(s: Seq<T>, i: usize, j: usize) -> bool {
    suf_lt(text_of(s), i as int, j as int)
}

/// Whether the suffix that the entry `a` of a suffix array stands for comes
/// strictly before the one that `b` stands for.
pub open spec fn entry_before<T: SaisChar>(s: Seq<T>, a: u32, b: u32) -> bool {
    suf_lt(text_of(s), a as int, b as int)
}

/// How the suffix of `s` at `i` stands to the one at `j`: -1 if it comes
/// before it, 1 if it comes after it, 0 if they are the same.
pub fn suffix_sign<T: SaisChar>(s: &[T], i: usize, j: usize) -> (r: i8)
    requires
        i <= s.len(),
        j <= s.len(),
    ensures
        -1 <= r <= 1,
        (r == -1) == suffix_before(s@, i, j),
        (r == 1) == suffix_before(s@, j, i),
{
    let ghost t = text_of(s@);
    let n = s.len();
    let mut k: usize = 0;
    while i + k < n && j + k < n && s[i + k].to_u32() == s[j + k].to_u32()
        invariant
            n == s.len(),
            t == text_of(s@),
            i + k <= n,
            j + k <= n,
            lcp_from(t, i as int, t, j as int) == k + lcp_from(t, i + k, t, j + k),
        decreases n - i - k,
    {
        assert(t[i + k] == t[j + k]);
        k += 1;
    }
    proof {
        if i + k < n && j + k < n {
            assert(t[i + k] != t[j + k]);
        }
        lemma_lcp(t, i as int, t, j as int);
        lemma_lcp(t, j as int, t, i as int);
    }
    if j + k < n && (i + k == n || s[i + k].to_u32() < s[j + k].to_u32()) {
        -1
    } else if i + k < n && (j + k == n || s[j + k].to_u32() < s[i + k].to_u32()) {
        1
    } else {
        0
    }
}

} // verus!
