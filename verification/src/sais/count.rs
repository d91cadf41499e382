//! Counting positions, and the pigeonhole principle in the form that the
//! buckets need.
use vstd::prelude::*;
use crate::sais::model::count_below;

verus! {

/// Number of `i` in `0..k` of which `p` holds.
pub open spec fn count(p: spec_fn(int) -> bool, k: int) -> int
    decreases k,
{
    if k <= 0 {
        0
    } else {
        count(p, k - 1) + if p(k - 1) {
            1int
        } else {
            0int
        }
    }
}

pub proof fn lemma_count_bounds(p: spec_fn(int) -> bool, k: int)
    requires
        0 <= k,
    ensures
        0 <= count(p, k) <= k,
    decreases k,
{
    if k > 0 {
        lemma_count_bounds(p, k - 1);
    }
}

/// Leaving one counted number out makes the count one less.
pub proof fn lemma_count_remove(q: spec_fn(int) -> bool, q2: spec_fn(int) -> bool, n: int, v: int)
    requires
        0 <= v < n,
        q(v),
        forall|u: int| 0 <= u < n ==> #[trigger] q2(u) == (q(u) && u != v),
    ensures
        count(q2, n) == count(q, n) - 1,
    decreases n,
{
    if v == n - 1 {
        lemma_count_same(q, q2, n - 1);
    } else {
        lemma_count_remove(q, q2, n - 1, v);
    }
}

/// Predicates that agree below `k` count the same below `k`.
pub proof fn lemma_count_same(q: spec_fn(int) -> bool, q2: spec_fn(int) -> bool, k: int)
    requires
        forall|u: int| 0 <= u < k ==> #[trigger] q2(u) == q(u),
    ensures
        count(q2, k) == count(q, k),
    decreases k,
{
    if k > 0 {
        lemma_count_same(q, q2, k - 1);
    }
}

/// Pigeonhole: where `f` sends the places that satisfy `p` to different
/// numbers below `n` that satisfy `q`, there are no more such places than
/// such numbers.
pub proof fn lemma_injection_count(
    f: Seq<int>,
    p: spec_fn(int) -> bool,
    q: spec_fn(int) -> bool,
    n: int,
)
    requires
        0 <= n,
        forall|i: int| 0 <= i < f.len() && #[trigger] p(i) ==> 0 <= f[i] < n && q(f[i]),
        forall|i: int, j: int|
            0 <= i < j < f.len() && #[trigger] p(i) && #[trigger] p(j) ==> f[i] != f[j],
    ensures
        count(p, f.len() as int) <= count(q, n),
    decreases f.len(),
{
    let m = f.len() as int;
    if m == 0 {
        lemma_count_bounds(q, n);
    } else {
        let g = f.drop_last();
        if p(m - 1) {
            let v = f[m - 1];
            let q2 = |u: int| q(u) && u != v;
            assert forall|i: int| 0 <= i < g.len() && #[trigger] p(i) implies 0 <= g[i] < n && q2(
                g[i],
            ) by {
                assert(f[i] != f[m - 1]);
            }
            lemma_injection_count(g, p, q2, n);
            lemma_count_remove(q, q2, n, v);
        } else {
            lemma_injection_count(g, p, q, n);
        }
    }
}

/// Two ranges that do not overlap hold as many numbers as they are long.
pub proof fn lemma_count_ranges(p: spec_fn(int) -> bool, a: int, b: int, c: int, d: int, m: int)
    requires
        0 <= a <= b <= c <= d <= m,
        forall|x: int| 0 <= x < m ==> #[trigger] p(x) == (a <= x < b || c <= x < d),
    ensures
        count(p, m) == (b - a) + (d - c),
    decreases m,
{
    if m > 0 {
        if d == m {
            if c == d {
                if b == m {
                    if a == b {
                        lemma_count_ranges(p, 0, 0, 0, 0, m - 1);
                    } else {
                        lemma_count_ranges(p, a, b - 1, b - 1, b - 1, m - 1);
                    }
                } else {
                    lemma_count_ranges(p, a, b, m - 1, m - 1, m - 1);
                }
            } else {
                if c == m - 1 && b > c {
                    lemma_count_ranges(p, a, b, c, d - 1, m - 1);
                } else {
                    lemma_count_ranges(p, a, b, c, d - 1, m - 1);
                }
            }
        } else {
            lemma_count_ranges(p, a, b, c, d, m - 1);
        }
    }
}

/// The positions that hold the symbol `c` are those that hold a symbol below
/// `c + 1` but not below `c`.
pub proof fn lemma_count_symbol(t: Seq<int>, q: spec_fn(int) -> bool, c: int, k: int)
    requires
        0 <= k <= t.len(),
        forall|v: int| 0 <= v < k ==> #[trigger] q(v) == (t[v] == c),
    ensures
        count(q, k) == count_below(t, c + 1, k) - count_below(t, c, k),
    decreases k,
{
    if k > 0 {
        lemma_count_symbol(t, q, c, k - 1);
    }
}

/// The positions that hold a symbol below `c`.
pub proof fn lemma_count_symbols_below(t: Seq<int>, q: spec_fn(int) -> bool, c: int, k: int)
    requires
        0 <= k <= t.len(),
        forall|v: int| 0 <= v < k ==> #[trigger] q(v) == (t[v] < c),
    ensures
        count(q, k) == count_below(t, c, k),
    decreases k,
{
    if k > 0 {
        lemma_count_symbols_below(t, q, c, k - 1);
    }
}

} // verus!
