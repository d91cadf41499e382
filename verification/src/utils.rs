//! Small helpers on byte strings.
use vstd::prelude::*;
use crate::construct::utils::text_of;
use crate::order::lcp_from;

verus! {

/// Length of the longest common prefix of `xs[i..]` and `ys[j..]`.
pub fn lcp_at(xs: &[u8], i: usize, ys: &[u8], j: usize) -> (n: usize)
    requires
        i <= xs.len(),
        j <= ys.len(),
    ensures
        n == lcp_from(text_of(xs@), i as int, text_of(ys@), j as int),
        i + n <= xs.len(),
        j + n <= ys.len(),
{
    let mut n: usize = 0;
    while i + n < xs.len() && j + n < ys.len() && xs[i + n] == ys[j + n]
        invariant
            i + n <= xs.len(),
            j + n <= ys.len(),
            lcp_from(text_of(xs@), i as int, text_of(ys@), j as int) == n + lcp_from(
                text_of(xs@),
                i + n,
                text_of(ys@),
                j + n,
            ),
        decreases xs.len() - i - n,
    {
        n += 1;
    }
    n
}

/// Calculate the longest common prefix length of two strings.
pub fn lcp(xs: &[u8], ys: &[u8]) -> (n: usize)
    ensures
        n == lcp_from(text_of(xs@), 0, text_of(ys@), 0),
        n <= xs.len(),
        n <= ys.len(),
{
    lcp_at(xs, 0, ys, 0)
}

/// Truncate a string to at most `max` bytes.
pub fn trunc(s: &[u8], max: usize) -> (r: &[u8])
    ensures
        r@ == s@.take(if max <= s.len() { max as int } else { s.len() as int }),
{
    let n = s.len();
    let end: usize = if n <= max { n } else { max };
    let r = vstd::slice::slice_subrange(s, 0, end);
    r
}

} // verus!
