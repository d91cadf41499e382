//! Why sorting the names of the LMS substrings sorts the LMS suffixes.
use vstd::prelude::*;
use crate::order::suf_lt;
use crate::sais::model::{is_lms, kle, lemma_l_before_s, lemma_last_is_l, tkey};

verus! {

/// Number of LMS positions below `k`.
pub open spec fn lms_below(t: Seq<int>, k: int) -> int
    decreases k,
{
    if k <= 0 {
        0
    } else {
        lms_below(t, k - 1) + if is_lms(t, k - 1) {
            1int
        } else {
            0int
        }
    }
}

/// Number of LMS positions of `t`, its end included.
pub open spec fn lms_count(t: Seq<int>) -> int {
    lms_below(t, t.len() as int + 1)
}

/// The first LMS position after `u`.
pub open spec fn next_lms(t: Seq<int>, u: int) -> int
    decreases t.len() - u,
{
    if u + 1 >= t.len() {
        t.len() as int
    } else if is_lms(t, u + 1) {
        u + 1
    } else {
        next_lms(t, u + 1)
    }
}

/// Whether the LMS substrings at `u` and `v` are the same, symbols and types.
pub open spec fn keq(t: Seq<int>, u: int, v: int, first: bool) -> bool {
    kle(t, u, v, first) && kle(t, v, u, first)
}

/// Whether the LMS substring at `u` is strictly smaller than the one at `v`.
pub open spec fn klt(t: Seq<int>, u: int, v: int) -> bool {
    kle(t, u, v, true) && !kle(t, v, u, true)
}

pub proof fn lemma_lms_below_mono(t: Seq<int>, a: int, b: int)
    requires
        a <= b,
    ensures
        0 <= lms_below(t, a) <= lms_below(t, b),
        lms_below(t, b) <= lms_below(t, a) + (b - a) || a < 0,
    decreases b - a,
{
    if a < b {
        lemma_lms_below_mono(t, a, b - 1);
    } else {
        lemma_lms_below_nonneg(t, a);
    }
}

pub proof fn lemma_lms_below_nonneg(t: Seq<int>, a: int)
    ensures
        0 <= lms_below(t, a),
    decreases a,
{
    if a > 0 {
        lemma_lms_below_nonneg(t, a - 1);
    }
}

/// Where no LMS position lies, the count of them stands still.
pub proof fn lemma_lms_below_gap(t: Seq<int>, a: int, b: int)
    requires
        a <= b,
        forall|v: int| a <= v < b ==> !#[trigger] is_lms(t, v),
    ensures
        lms_below(t, a) == lms_below(t, b),
    decreases b - a,
{
    if a < b {
        lemma_lms_below_gap(t, a, b - 1);
        assert(!is_lms(t, b - 1));
    }
}

/// No two neighbours are LMS positions, so at most every other position is one.
pub proof fn lemma_lms_density(t: Seq<int>, k: int)
    requires
        t.len() >= 1,
        forall|i: int| 0 <= i < t.len() ==> 0 <= #[trigger] t[i],
        0 <= k <= t.len() + 1,
    ensures
        2 * lms_below(t, k) <= k,
        k >= 1 && !is_lms(t, k - 1) ==> 2 * lms_below(t, k) <= k - 1,
    decreases k,
{
    if k > 0 {
        lemma_lms_density(t, k - 1);
        lemma_last_is_l(t);
    }
}

pub proof fn lemma_next_lms(t: Seq<int>, u: int)
    requires
        0 <= u < t.len(),
    ensures
        u < next_lms(t, u) <= t.len(),
        is_lms(t, next_lms(t, u)),
        forall|v: int| u < v < next_lms(t, u) ==> !is_lms(t, v),
        lms_below(t, next_lms(t, u)) == lms_below(t, u + 1),
    decreases t.len() - u,
{
    if u + 1 < t.len() && !is_lms(t, u + 1) {
        lemma_next_lms(t, u + 1);
    }
}

pub proof fn lemma_kle_refl(t: Seq<int>, u: int, first: bool)
    ensures
        kle(t, u, u, first),
    decreases t.len() - u,
{
    if 0 <= u < t.len() {
        lemma_kle_refl(t, u + 1, false);
    }
}

/// `kle` is transitive.  In the middle of a comparison it is so between
/// positions that agree on being LMS, as positions do whose predecessors
/// had the same type.
pub proof fn lemma_kle_trans(t: Seq<int>, u: int, v: int, w: int, first: bool)
    requires
        kle(t, u, v, first),
        kle(t, v, w, first),
        !first && u < t.len() && v < t.len() && w < t.len() ==> is_lms(t, u) == is_lms(t, v)
            && is_lms(t, v) == is_lms(t, w),
    ensures
        kle(t, u, w, first),
    decreases t.len() - u,
{
    let n = t.len();
    if 0 <= u < n && 0 <= v < n && 0 <= w < n && tkey(t, u) == tkey(t, v) && tkey(t, v) == tkey(
        t,
        w,
    ) {
        if !first && (is_lms(t, u) || is_lms(t, w)) {
        } else {
            let (a, b, c) = (u + 1, v + 1, w + 1);
            if a < n && b < n && c < n && tkey(t, a) == tkey(t, b) && tkey(t, b) == tkey(t, c) {
                lemma_kle_trans(t, a, b, c, false);
            } else {
                reveal_with_fuel(kle, 2);
            }
        }
    }
}

/// A strictly smaller LMS substring begins a strictly smaller suffix.
pub proof fn lemma_klt_suffix(t: Seq<int>, u: int, v: int, first: bool)
    requires
        forall|i: int| 0 <= i < t.len() ==> 0 <= #[trigger] t[i],
        0 <= u <= t.len(),
        0 <= v <= t.len(),
        kle(t, u, v, first),
        !kle(t, v, u, first),
    ensures
        suf_lt(t, u, v),
    decreases t.len() - u,
{
    let n = t.len();
    if u < n && v < n {
        if tkey(t, u) != tkey(t, v) {
            if t[u] == t[v] {
                lemma_l_before_s(t, u, v);
            }
        } else {
            lemma_klt_suffix(t, u + 1, v + 1, false);
        }
    }
}

/// Where a comparison that starts at `u` ends.
pub open spec fn kend(t: Seq<int>, u: int, first: bool) -> int {
    if !first && is_lms(t, u) {
        u
    } else {
        next_lms(t, u)
    }
}

/// Behind equal LMS substrings, the suffixes are ordered as the suffixes at
/// the ends of the two substrings are.
pub proof fn lemma_keq_suffix(t: Seq<int>, u: int, v: int, first: bool)
    requires
        forall|i: int| 0 <= i < t.len() ==> 0 <= #[trigger] t[i],
        0 <= u < t.len(),
        0 <= v < t.len(),
        keq(t, u, v, first),
        !first ==> is_lms(t, u) == is_lms(t, v),
    ensures
        suf_lt(t, u, v) <==> suf_lt(t, kend(t, u, first), kend(t, v, first)),
    decreases t.len() - u,
{
    let n = t.len();
    if !first && is_lms(t, u) {
    } else {
        assert(tkey(t, u) == tkey(t, v));
        assert(keq(t, u + 1, v + 1, false));
        if u + 1 < n && v + 1 < n {
            assert(tkey(t, u + 1) == tkey(t, v + 1));
            lemma_keq_suffix(t, u + 1, v + 1, false);
        } else {
            assert(u == v);
        }
    }
}

/// Whether the names tell the LMS substrings apart as `kle` orders them.
pub open spec fn names_fit(t: Seq<int>, name_of: Seq<int>) -> bool {
    &&& name_of.len() == t.len() + 1
    &&& forall|x: int, y: int|
        0 < x < t.len() && 0 < y < t.len() && is_lms(t, x) && is_lms(t, y) ==> {
            &&& #[trigger] name_of[x] < #[trigger] name_of[y] ==> klt(t, x, y)
            &&& name_of[x] == name_of[y] ==> keq(t, x, y, true)
        }
}

/// Whether `s1` is the string of the names of the LMS substrings, in the
/// order in which they stand in `t`.
pub open spec fn is_reduced(t: Seq<int>, name_of: Seq<int>, s1: Seq<int>) -> bool {
    &&& s1.len() == lms_count(t) - 1
    &&& forall|x: int|
        0 < x < t.len() && is_lms(t, x) ==> #[trigger] s1[lms_below(t, x)] == name_of[x]
}

/// The suffixes of the string of names are ordered as the LMS suffixes that
/// they stand for.
pub proof fn lemma_reduced_order(t: Seq<int>, name_of: Seq<int>, s1: Seq<int>, u: int, v: int)
    requires
        t.len() >= 1,
        forall|i: int| 0 <= i < t.len() ==> 0 <= #[trigger] t[i],
        names_fit(t, name_of),
        is_reduced(t, name_of, s1),
        0 < u <= t.len(),
        0 < v <= t.len(),
        is_lms(t, u),
        is_lms(t, v),
        suf_lt(s1, lms_below(t, u), lms_below(t, v)),
    ensures
        suf_lt(t, u, v),
    decreases t.len() - u,
{
    let n = t.len() as int;
    let ru = lms_below(t, u);
    let rv = lms_below(t, v);
    lemma_lms_below_mono(t, u, n);
    lemma_lms_below_mono(t, v, n);
    lemma_lms_below_mono(t, 0, u);
    lemma_lms_below_mono(t, 0, v);
    if v < n {
        lemma_lms_below_mono(t, v + 1, n);
    }
    if u < n {
        lemma_lms_below_mono(t, u + 1, n);
        assert(v < n);
        assert(s1[ru] == name_of[u]);
        assert(s1[rv] == name_of[v]);
        if name_of[u] != name_of[v] {
            lemma_klt_suffix(t, u, v, true);
        } else {
            lemma_next_lms(t, u);
            lemma_next_lms(t, v);
            lemma_keq_suffix(t, u, v, true);
            lemma_reduced_order(t, name_of, s1, next_lms(t, u), next_lms(t, v));
        }
    }
}

/// Whether `names` counts, along the sorted LMS substrings `xs`, how often
/// a substring differed from the one before it.
pub open spec fn names_count(t: Seq<int>, xs: Seq<int>, names: Seq<int>) -> bool {
    &&& names.len() == xs.len()
    &&& xs.len() >= 1
    &&& names[0] == -1
    &&& forall|k: int|
        1 <= k < xs.len() ==> #[trigger] names[k] == names[k - 1] + if keq(
            t,
            xs[k - 1],
            xs[k],
            true,
        ) {
            0int
        } else {
            1int
        }
    &&& forall|a: int, b: int| 0 <= a < b < xs.len() ==> kle(t, #[trigger] xs[a], #[trigger] xs[b], true)
}

pub proof fn lemma_names_mono(t: Seq<int>, xs: Seq<int>, names: Seq<int>, a: int, b: int)
    requires
        names_count(t, xs, names),
        0 <= a <= b < xs.len(),
    ensures
        names[a] <= names[b] <= names[a] + (b - a),
    decreases b - a,
{
    if a < b {
        lemma_names_mono(t, xs, names, a, b - 1);
        assert(names[b] >= names[b - 1]);
    }
}

/// Substrings with the same name are the same.
pub proof fn lemma_names_eq(t: Seq<int>, xs: Seq<int>, names: Seq<int>, a: int, b: int)
    requires
        names_count(t, xs, names),
        0 <= a <= b < xs.len(),
        names[a] == names[b],
    ensures
        keq(t, xs[a], xs[b], true),
    decreases b - a,
{
    if a < b {
        lemma_names_mono(t, xs, names, a, b - 1);
        assert(names[b] >= names[b - 1]);
        lemma_names_eq(t, xs, names, a, b - 1);
        lemma_kle_trans(t, xs[a], xs[b - 1], xs[b], true);
        lemma_kle_trans(t, xs[b], xs[b - 1], xs[a], true);
    } else {
        lemma_kle_refl(t, xs[a], true);
    }
}

/// Substrings that are the same have the same name.
pub proof fn lemma_names_same(t: Seq<int>, xs: Seq<int>, names: Seq<int>, a: int, b: int, k: int)
    requires
        names_count(t, xs, names),
        0 <= a <= k <= b < xs.len(),
        kle(t, xs[b], xs[a], true),
    ensures
        names[k] == names[a],
    decreases k - a,
{
    if a < k {
        lemma_names_same(t, xs, names, a, b, k - 1);
        // xs[k] <= xs[b] <= xs[a] <= xs[k - 1]
        if k < b {
            assert(kle(t, xs[k], xs[b], true));
        } else {
            lemma_kle_refl(t, xs[k], true);
        }
        lemma_kle_trans(t, xs[k], xs[b], xs[a], true);
        if a < k - 1 {
            assert(kle(t, xs[a], xs[k - 1], true));
        } else {
            lemma_kle_refl(t, xs[a], true);
        }
        lemma_kle_trans(t, xs[k], xs[a], xs[k - 1], true);
        assert(kle(t, xs[k - 1], xs[k], true));
        assert(names[k] == names[k - 1]);
    }
}

/// A smaller name names a strictly smaller substring.
pub proof fn lemma_names_lt(t: Seq<int>, xs: Seq<int>, names: Seq<int>, a: int, b: int)
    requires
        names_count(t, xs, names),
        0 <= a < xs.len(),
        0 <= b < xs.len(),
        names[a] < names[b],
    ensures
        a < b,
        klt(t, xs[a], xs[b]),
{
    if b <= a {
        lemma_names_mono(t, xs, names, b, a);
    }
    if kle(t, xs[b], xs[a], true) {
        lemma_names_same(t, xs, names, a, b, b);
    }
}

} // verus!
