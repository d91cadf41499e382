//! What induced sorting is about: types of positions, and buckets.
use vstd::prelude::*;
use crate::order::{lemma_lex_asymmetric, suf_lt};

verus! {

/// The symbol at position `i`; past the end stands the sentinel, which is
/// smaller than every symbol.
pub open spec fn sym(t: Seq<int>, i: int) -> int {
    if 0 <= i < t.len() {
        t[i]
    } else {
        -1
    }
}

/// Whether position `i` is S-type: its suffix is smaller than the next one.
/// The end of the string is S-type.
pub open spec fn is_s(t: Seq<int>, i: int) -> bool
    decreases t.len() - i,
{
    if i >= t.len() {
        true
    } else if i < 0 {
        false
    } else {
        sym(t, i) < sym(t, i + 1) || (sym(t, i) == sym(t, i + 1) && is_s(t, i + 1))
    }
}

/// Whether position `i` is a left-most S-type position: S-type after an
/// L-type one.  The end of the string is one.
pub open spec fn is_lms(t: Seq<int>, i: int) -> bool {
    i == t.len() || (0 < i < t.len() && is_s(t, i) && !is_s(t, i - 1))
}

/// Number of positions below `k` whose symbol is below `c`.
pub open spec fn count_below(t: Seq<int>, c: int, k: int) -> int
    decreases k,
{
    if k <= 0 {
        0
    } else {
        count_below(t, c, k - 1) + if t[k - 1] < c {
            1int
        } else {
            0int
        }
    }
}

/// Where the bucket of the symbol `c` begins in the suffix array: after the
/// empty suffix and the suffixes that begin with a smaller symbol.
pub open spec fn bucket_head(t: Seq<int>, c: int) -> int {
    1 + count_below(t, c, t.len() as int)
}

pub proof fn lemma_count_below_bounds(t: Seq<int>, c: int, k: int)
    requires
        0 <= k <= t.len(),
    ensures
        0 <= count_below(t, c, k) <= count_below(t, c + 1, k) <= k,
    decreases k,
{
    if k > 0 {
        lemma_count_below_bounds(t, c, k - 1);
    }
}

pub proof fn lemma_count_below_none(t: Seq<int>, k: int)
    requires
        0 <= k <= t.len(),
        forall|i: int| 0 <= i < t.len() ==> 0 <= #[trigger] t[i],
    ensures
        count_below(t, 0, k) == 0,
    decreases k,
{
    if k > 0 {
        lemma_count_below_none(t, k - 1);
    }
}

/// The last position is L-type: the sentinel after it is smaller.
pub proof fn lemma_last_is_l(t: Seq<int>)
    requires
        t.len() >= 1,
        forall|i: int| 0 <= i < t.len() ==> 0 <= #[trigger] t[i],
    ensures
        !is_s(t, t.len() - 1),
        is_lms(t, t.len() as int),
{
    assert(t[t.len() - 1] >= 0);
    reveal_with_fuel(is_s, 2);
}

/// Behind the last bucket the array ends.
pub proof fn lemma_bucket_head_end(t: Seq<int>, scale: int, k: int)
    requires
        0 <= k <= t.len(),
        forall|i: int| 0 <= i < t.len() ==> #[trigger] t[i] < scale,
    ensures
        count_below(t, scale, k) == k,
    decreases k,
{
    if k > 0 {
        lemma_bucket_head_end(t, scale, k - 1);
    }
}

pub proof fn lemma_bucket_head_mono(t: Seq<int>, c: int, d: int)
    requires
        c <= d,
    ensures
        1 <= bucket_head(t, c) <= bucket_head(t, d) <= t.len() + 1,
    decreases d - c,
{
    lemma_count_below_bounds(t, c, t.len() as int);
    lemma_count_below_bounds(t, d, t.len() as int);
    if c < d {
        lemma_bucket_head_mono(t, c + 1, d);
    }
}

/// A position with the symbol `c` lies in the bucket of `c`, which is
/// therefore not empty.
pub proof fn lemma_bucket_not_empty(t: Seq<int>, v: int, k: int)
    requires
        0 <= v < k <= t.len(),
    ensures
        count_below(t, t[v], k) < count_below(t, t[v] + 1, k),
    decreases k,
{
    lemma_count_below_bounds(t, t[v], k - 1);
    if v < k - 1 {
        lemma_bucket_not_empty(t, v, k - 1);
    }
}

/// The symbol and the type of a position as one number: symbols first, and
/// of two positions with one symbol the L-type one first.  It orders two
/// suffixes that differ in it.
pub open spec fn tkey(t: Seq<int>, i: int) -> int {
    2 * sym(t, i) + if is_s(t, i) {
        1int
    } else {
        0int
    }
}

/// Whether the LMS substring at `u` is at most the one at `v`: they are compared
/// symbol by symbol in their `tkey`, up to the first LMS position after the
/// start.  With `first` unset, an LMS position at the very start ends the
/// comparison too, so that an LMS suffix counts by its first symbol alone.
pub open spec fn kle(t: Seq<int>, u: int, v: int, first: bool) -> bool
    decreases t.len() - u,
{
    if u >= t.len() || v >= t.len() || u < 0 || v < 0 {
        u >= v
    } else if tkey(t, u) != tkey(t, v) {
        tkey(t, u) < tkey(t, v)
    } else if !first && (is_lms(t, u) || is_lms(t, v)) {
        true
    } else {
        kle(t, u + 1, v + 1, false)
    }
}

/// The order that an induced sort keeps.  Sorting suffixes (`by_suffix`), it
/// is the order of the suffixes.  Sorting LMS substrings, it is `kle`, where
/// the pass that places the L-type positions (`s_phase` unset) takes the LMS
/// positions by their first symbol.
pub open spec fn le(t: Seq<int>, by_suffix: bool, s_phase: bool, u: int, v: int) -> bool {
    if by_suffix {
        !suf_lt(t, v, u)
    } else {
        kle(t, u, v, s_phase)
    }
}

/// Of two suffixes with the same first symbol, an L-type one is the smaller.
pub proof fn lemma_l_before_s(t: Seq<int>, u: int, w: int)
    requires
        0 <= u < t.len(),
        0 <= w < t.len(),
        forall|i: int| 0 <= i < t.len() ==> 0 <= #[trigger] t[i],
        t[u] == t[w],
        !is_s(t, u),
        is_s(t, w),
    ensures
        suf_lt(t, u, w),
    decreases t.len() - u,
{
    reveal_with_fuel(crate::order::lex_lt, 2);
    if u + 1 < t.len() && w + 1 < t.len() && t[u + 1] == t[w + 1] {
        lemma_l_before_s(t, u + 1, w + 1);
    }
}

pub proof fn lemma_le_sentinel(t: Seq<int>, by_suffix: bool, s_phase: bool, w: int)
    requires
        0 <= w <= t.len(),
    ensures
        le(t, by_suffix, s_phase, t.len() as int, w),
{
}

pub proof fn lemma_le_by_symbol(t: Seq<int>, by_suffix: bool, s_phase: bool, u: int, w: int)
    requires
        0 <= u < t.len(),
        0 <= w < t.len(),
        t[u] < t[w],
    ensures
        le(t, by_suffix, s_phase, u, w),
{
}

pub proof fn lemma_le_step(t: Seq<int>, by_suffix: bool, s_phase: bool, u: int, w: int)
    requires
        0 <= u < t.len(),
        0 <= w < t.len(),
        forall|i: int| 0 <= i < t.len() ==> 0 <= #[trigger] t[i],
        t[u] == t[w],
        is_s(t, u) == s_phase,
        is_s(t, w) == s_phase,
        le(t, by_suffix, s_phase, u + 1, w + 1),
    ensures
        le(t, by_suffix, s_phase, u, w),
{
    if !by_suffix && s_phase {
        lemma_kle_inner(t, u + 1, w + 1);
    }
}

/// Away from LMS positions, it does not matter whether the comparison has
/// just begun.
pub proof fn lemma_kle_inner(t: Seq<int>, u: int, v: int)
    requires
        !is_lms(t, u) || u >= t.len(),
        !is_lms(t, v) || v >= t.len(),
    ensures
        kle(t, u, v, true) == kle(t, u, v, false),
{
}

pub proof fn lemma_le_l_before_s(t: Seq<int>, by_suffix: bool, s_phase: bool, u: int, w: int)
    requires
        0 <= u < t.len(),
        0 <= w < t.len(),
        forall|i: int| 0 <= i < t.len() ==> 0 <= #[trigger] t[i],
        t[u] == t[w],
        !is_s(t, u),
        is_s(t, w),
    ensures
        le(t, by_suffix, s_phase, u, w),
{
    if by_suffix {
        lemma_l_before_s(t, u, w);
        lemma_lex_asymmetric(t, u, t, w);
    }
}

} // verus!
