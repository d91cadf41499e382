//! Lexicographic order on strings of symbol codes, and what it means for an
//! array to be the suffix array of a string.
use vstd::prelude::*;

verus! {

/// Whether `a[i..]` comes strictly before `b[j..]` in lexicographic order.
/// A proper prefix comes before the longer string, so the empty suffix is
/// the smallest of all.
pub open spec fn lex_lt(a: Seq<int>, i: int, b: Seq<int>, j: int) -> bool
    recommends
        0 <= i,
        0 <= j,
    decreases a.len() - i,
{
    if j >= b.len() {
        false
    } else if i >= a.len() {
        true
    } else if a[i] != b[j] {
        a[i] < b[j]
    } else {
        lex_lt(a, i + 1, b, j + 1)
    }
}

/// Length of the longest common prefix of `a[i..]` and `b[j..]`.
pub open spec fn lcp_from(a: Seq<int>, i: int, b: Seq<int>, j: int) -> nat
    recommends
        0 <= i,
        0 <= j,
    decreases a.len() - i,
{
    if 0 <= i < a.len() && 0 <= j < b.len() && a[i] == b[j] {
        1 + lcp_from(a, i + 1, b, j + 1)
    } else {
        0
    }
}

/// Whether the suffix of `t` at `i` comes strictly before the one at `j`.
pub open spec fn suf_lt(t: Seq<int>, i: int, j: int) -> bool {
    lex_lt(t, i, t, j)
}

/// Whether `sa` lists the positions of `t` in ascending order of their
/// suffixes: one entry per suffix, the empty one included.
pub open spec fn is_suffix_array(t: Seq<int>, sa: Seq<u32>) -> bool {
    &&& sa.len() == t.len() + 1
    &&& forall|i: int| 0 <= i < sa.len() ==> #[trigger] sa[i] <= t.len()
    &&& forall|i: int, j: int|
        0 <= i < j < sa.len() ==> suf_lt(t, #[trigger] sa[i] as int, #[trigger] sa[j] as int)
}

/// Whether the position `v` occurs in `sa`.
pub open spec fn occurs_in(sa: Seq<u32>, v: int) -> bool {
    exists|i: int| 0 <= i < sa.len() && #[trigger] sa[i] == v
}

/// Whether `sa` holds each position `0..=n` of a string of length `n`
/// exactly once.
pub open spec fn is_permutation(n: int, sa: Seq<u32>) -> bool {
    &&& sa.len() == n + 1
    &&& forall|i: int| 0 <= i < sa.len() ==> #[trigger] sa[i] <= n
    &&& forall|v: int| 0 <= v <= n ==> #[trigger] occurs_in(sa, v)
    &&& forall|i: int, j: int| 0 <= i < j < sa.len() ==> #[trigger] sa[i] != #[trigger] sa[j]
}

/// Whether neighbouring entries of `sa` are in strictly ascending suffix order.
pub open spec fn is_sorted(t: Seq<int>, sa: Seq<u32>) -> bool {
    &&& forall|i: int| 0 <= i < sa.len() ==> #[trigger] sa[i] <= t.len()
    &&& forall|i: int|
        1 <= i < sa.len() ==> suf_lt(t, sa[i - 1] as int, #[trigger] sa[i] as int)
}

pub proof fn lemma_lex_irreflexive(a: Seq<int>, i: int)
    requires
        0 <= i,
    ensures
        !lex_lt(a, i, a, i),
    decreases a.len() - i,
{
    if i < a.len() {
        lemma_lex_irreflexive(a, i + 1);
    }
}

pub proof fn lemma_lex_asymmetric(a: Seq<int>, i: int, b: Seq<int>, j: int)
    requires
        0 <= i,
        0 <= j,
        lex_lt(a, i, b, j),
    ensures
        !lex_lt(b, j, a, i),
    decreases a.len() - i,
{
    if i < a.len() && j < b.len() && a[i] == b[j] {
        lemma_lex_asymmetric(a, i + 1, b, j + 1);
    }
}

pub proof fn lemma_lex_transitive(a: Seq<int>, i: int, b: Seq<int>, j: int, c: Seq<int>, k: int)
    requires
        0 <= i,
        0 <= j,
        0 <= k,
        lex_lt(a, i, b, j),
        lex_lt(b, j, c, k),
    ensures
        lex_lt(a, i, c, k),
    decreases a.len() - i,
{
    if i < a.len() && j < b.len() && k < c.len() && a[i] == b[j] && b[j] == c[k] {
        lemma_lex_transitive(a, i + 1, b, j + 1, c, k + 1);
    }
}

/// `a[i..] <= b[j..] < c[k..]` gives `a[i..] < c[k..]`.
pub proof fn lemma_lex_le_lt(a: Seq<int>, i: int, b: Seq<int>, j: int, c: Seq<int>, k: int)
    requires
        0 <= i,
        0 <= j,
        0 <= k,
        !lex_lt(b, j, a, i),
        lex_lt(b, j, c, k),
    ensures
        lex_lt(a, i, c, k),
    decreases a.len() - i,
{
    if i < a.len() && j < b.len() && k < c.len() && a[i] == b[j] && b[j] == c[k] {
        lemma_lex_le_lt(a, i + 1, b, j + 1, c, k + 1);
    }
}

/// Two different suffixes of one string are never equal.
pub proof fn lemma_suf_total(t: Seq<int>, i: int, j: int)
    requires
        0 <= i <= t.len(),
        0 <= j <= t.len(),
        i != j,
    ensures
        suf_lt(t, i, j) || suf_lt(t, j, i),
    decreases t.len() - i,
{
    if i < t.len() && j < t.len() && t[i] == t[j] {
        lemma_suf_total(t, i + 1, j + 1);
    }
}

/// What `lcp_from` returns: the strings agree on that many symbols and then
/// differ or end; and the order of the two is decided there.
pub proof fn lemma_lcp(a: Seq<int>, i: int, b: Seq<int>, j: int)
    requires
        0 <= i <= a.len(),
        0 <= j <= b.len(),
    ensures
        i + lcp_from(a, i, b, j) <= a.len(),
        j + lcp_from(a, i, b, j) <= b.len(),
        forall|k: int| i <= k < i + lcp_from(a, i, b, j) ==> #[trigger] a[k] == b[k - i + j],
        i + lcp_from(a, i, b, j) < a.len() && j + lcp_from(a, i, b, j) < b.len() ==> a[i
            + lcp_from(a, i, b, j)] != b[j + lcp_from(a, i, b, j)],
        lex_lt(a, i, b, j) <==> (j + lcp_from(a, i, b, j) < b.len() && (i + lcp_from(a, i, b, j)
            == a.len() || a[i + lcp_from(a, i, b, j)] < b[j + lcp_from(a, i, b, j)])),
        lcp_from(a, i, b, j) == lcp_from(b, j, a, i),
    decreases a.len() - i,
{
    if i < a.len() && j < b.len() && a[i] == b[j] {
        lemma_lcp(a, i + 1, b, j + 1);
    }
}

/// A length `l` on which the strings agree and after which they differ or
/// end is their `lcp_from`.
pub proof fn lemma_lcp_is(a: Seq<int>, i: int, b: Seq<int>, j: int, l: int)
    requires
        0 <= i,
        0 <= j,
        0 <= l,
        i + l <= a.len(),
        j + l <= b.len(),
        forall|k: int| i <= k < i + l ==> #[trigger] a[k] == b[k - i + j],
        i + l == a.len() || j + l == b.len() || a[i + l] != b[j + l],
    ensures
        lcp_from(a, i, b, j) == l,
    decreases l,
{
    if l > 0 {
        assert(a[i] == b[i - i + j]);
        lemma_lcp_is(a, i + 1, b, j + 1, l - 1);
    }
}

/// Below `c[k..]`, the closer string shares the longer prefix with it.
pub proof fn lemma_lcp_below(a: Seq<int>, i: int, b: Seq<int>, j: int, c: Seq<int>, k: int)
    requires
        0 <= i <= a.len(),
        0 <= j <= b.len(),
        0 <= k <= c.len(),
        !lex_lt(b, j, a, i),
        !lex_lt(c, k, b, j),
    ensures
        lcp_from(a, i, c, k) <= lcp_from(b, j, c, k),
    decreases a.len() - i,
{
    if i < a.len() && k < c.len() && a[i] == c[k] {
        if j < b.len() && b[j] == a[i] {
            lemma_lcp_below(a, i + 1, b, j + 1, c, k + 1);
        }
    }
}

/// Above `c[k..]`, the closer string shares the longer prefix with it.
pub proof fn lemma_lcp_above(a: Seq<int>, i: int, b: Seq<int>, j: int, c: Seq<int>, k: int)
    requires
        0 <= i <= a.len(),
        0 <= j <= b.len(),
        0 <= k <= c.len(),
        !lex_lt(a, i, b, j),
        !lex_lt(b, j, c, k),
    ensures
        lcp_from(a, i, c, k) <= lcp_from(b, j, c, k),
    decreases a.len() - i,
{
    if i < a.len() && k < c.len() && a[i] == c[k] {
        if j < b.len() && b[j] == a[i] {
            lemma_lcp_above(a, i + 1, b, j + 1, c, k + 1);
        }
    }
}

/// Whether the `n` entries of `f` are pairwise different numbers below `n`.
pub open spec fn is_injection(f: Seq<int>) -> bool {
    &&& forall|i: int| 0 <= i < f.len() ==> 0 <= #[trigger] f[i] < f.len()
    &&& forall|i: int, j: int| 0 <= i < j < f.len() ==> #[trigger] f[i] != #[trigger] f[j]
}

/// Pigeonhole: `n` different numbers below `n` are all the numbers below `n`.
pub proof fn lemma_injection_onto(f: Seq<int>, v: int)
    requires
        is_injection(f),
        0 <= v < f.len(),
    ensures
        exists|i: int| 0 <= i < f.len() && #[trigger] f[i] == v,
    decreases f.len(),
{
    let n = f.len() as int;
    let top = n - 1;
    if exists|p: int| 0 <= p < n && #[trigger] f[p] == top {
        let p = choose|p: int| 0 <= p < n && #[trigger] f[p] == top;
        if v != top {
            // move the last entry into the place of `top`, and drop the last
            let g = f.update(p, f[n - 1]).drop_last();
            assert forall|i: int| 0 <= i < g.len() implies 0 <= #[trigger] g[i] < g.len() by {
                if i == p {
                    assert(f[n - 1] != f[p]);
                } else {
                    assert(f[i] != f[p]);
                }
            }
            assert(is_injection(g));
            lemma_injection_onto(g, v);
            let i = choose|i: int| 0 <= i < g.len() && #[trigger] g[i] == v;
            if i == p {
                assert(f[n - 1] == v);
            } else {
                assert(f[i] == v);
            }
        }
    } else {
        // then the first n - 1 entries are already all the numbers below n - 1
        let g = f.drop_last();
        assert forall|i: int| 0 <= i < g.len() implies 0 <= #[trigger] g[i] < g.len() by {
            assert(f[i] != top);
        }
        assert(is_injection(g));
        if n >= 2 {
            lemma_injection_onto(g, f[n - 1]);
            let i = choose|i: int| 0 <= i < g.len() && #[trigger] g[i] == f[n - 1];
            assert(f[i] == f[n - 1]);
            assert(false);
        } else {
            assert(f[0] == 0);
        }
    }
}

/// The entries of a suffix array, as mathematical integers.
pub open spec fn positions(sa: Seq<u32>) -> Seq<int> {
    Seq::new(sa.len(), |i: int| sa[i] as int)
}

/// A suffix array holds every position of its string exactly once, and
/// the empty suffix first.
pub proof fn lemma_suffix_array_is_permutation(t: Seq<int>, sa: Seq<u32>)
    requires
        is_suffix_array(t, sa),
    ensures
        is_permutation(t.len() as int, sa),
        sa[0] == t.len(),
{
    let f = positions(sa);
    assert forall|i: int, j: int| 0 <= i < j < f.len() implies #[trigger] f[i] != #[trigger] f[j] by {
        assert(suf_lt(t, sa[i] as int, sa[j] as int));
        lemma_lex_irreflexive(t, sa[i] as int);
    }
    assert forall|i: int| 0 <= i < f.len() implies 0 <= #[trigger] f[i] < f.len() by {
        assert(sa[i] <= t.len());
    }
    assert(is_injection(f));
    assert forall|v: int| 0 <= v <= t.len() implies #[trigger] occurs_in(sa, v) by {
        lemma_injection_onto(f, v);
        let i = choose|i: int| 0 <= i < f.len() && #[trigger] f[i] == v;
        assert(sa[i] == v);
    }
    assert forall|i: int, j: int| 0 <= i < j < sa.len() implies #[trigger] sa[i] != #[trigger] sa[j] by {
        assert(f[i] != f[j]);
    }
    assert(occurs_in(sa, t.len() as int));
    let i = choose|i: int| 0 <= i < sa.len() && #[trigger] sa[i] == t.len();
    if i != 0 {
        assert(suf_lt(t, sa[0] as int, sa[i] as int));
    }
}

/// Strictly ascending neighbours make the whole array ascend.
pub proof fn lemma_sorted_pairwise(t: Seq<int>, sa: Seq<u32>, i: int, j: int)
    requires
        is_sorted(t, sa),
        0 <= i < j < sa.len(),
    ensures
        suf_lt(t, sa[i] as int, sa[j] as int),
    decreases j - i,
{
    if i + 1 < j {
        lemma_sorted_pairwise(t, sa, i, j - 1);
        assert(suf_lt(t, sa[j - 1] as int, sa[j] as int));
        lemma_lex_transitive(t, sa[i] as int, t, sa[j - 1] as int, t, sa[j] as int);
    }
}

/// An array of the right length is a suffix array exactly if it is sorted:
/// sorted arrays of that length are permutations for free.
pub proof fn lemma_sorted_is_suffix_array(t: Seq<int>, sa: Seq<u32>)
    ensures
        is_suffix_array(t, sa) <==> (sa.len() == t.len() + 1 && is_sorted(t, sa)),
        is_suffix_array(t, sa) <==> (is_sorted(t, sa) && is_permutation(t.len() as int, sa)),
{
    if sa.len() == t.len() + 1 && is_sorted(t, sa) {
        assert forall|i: int, j: int| 0 <= i < j < sa.len() implies suf_lt(
            t,
            #[trigger] sa[i] as int,
            #[trigger] sa[j] as int,
        ) by {
            lemma_sorted_pairwise(t, sa, i, j);
        }
    }
    if is_suffix_array(t, sa) {
        lemma_suffix_array_is_permutation(t, sa);
    }
}

/// Up to `i`, two suffix arrays of one string agree.
proof fn lemma_suffix_arrays_agree(t: Seq<int>, a: Seq<u32>, b: Seq<u32>, i: int)
    requires
        is_suffix_array(t, a),
        is_suffix_array(t, b),
        0 <= i < a.len(),
    ensures
        forall|k: int| 0 <= k <= i ==> a[k] == b[k],
    decreases i,
{
    if i > 0 {
        lemma_suffix_arrays_agree(t, a, b, i - 1);
    }
    if a[i] != b[i] {
        lemma_suffix_array_is_permutation(t, a);
        lemma_suffix_array_is_permutation(t, b);
        assert(occurs_in(b, a[i] as int));
        assert(occurs_in(a, b[i] as int));
        let j = choose|j: int| 0 <= j < b.len() && #[trigger] b[j] == a[i] as int;
        let k = choose|k: int| 0 <= k < a.len() && #[trigger] a[k] == b[i] as int;
        if j < i {
            assert(a[j] == b[j]);
        }
        if k < i {
            assert(a[k] == b[k]);
        }
        assert(suf_lt(t, b[i] as int, b[j] as int));
        assert(suf_lt(t, a[i] as int, a[k] as int));
        lemma_lex_asymmetric(t, a[i] as int, t, b[i] as int);
    }
}

/// A string has one suffix array: whatever builds it, builds the same.
pub proof fn lemma_suffix_array_unique(t: Seq<int>, a: Seq<u32>, b: Seq<u32>)
    requires
        is_suffix_array(t, a),
        is_suffix_array(t, b),
    ensures
        a == b,
{
    lemma_suffix_arrays_agree(t, a, b, a.len() - 1);
    assert(a =~= b);
}

} // verus!
