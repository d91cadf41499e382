//! The table that narrows a search to the suffixes that begin with the
//! first two symbols of the pattern.
use vstd::prelude::*;
use crate::order::{
    is_suffix_array, lemma_suffix_array_is_permutation, occurs_in, positions, suf_lt,
};
use crate::sais::count::{count, lemma_count_bounds, lemma_injection_count};

verus! {

/// The number by which the bucket table tells suffixes apart: their first
/// two symbols, the end of the string counting as the smallest symbol.
pub open spec fn bucket_key(t: Seq<int>, v: int) -> int {
    if v >= t.len() {
        0
    } else if v == t.len() - 1 {
        t[v] * 257 + 1
    } else {
        t[v] * 257 + t[v + 1] + 2
    }
}

/// Number of entries of the bucket table.
pub const BUCKET_TABLE_LEN: usize = 65793;

/// Whether entry `k` of the table `b` is the number of suffixes whose key
/// is at most `k`, that is, where in `sa` the suffixes with larger keys begin.
pub open spec fn bucket_table_ok(t: Seq<int>, sa: Seq<u32>, b: Seq<u32>) -> bool {
    &&& b.len() == BUCKET_TABLE_LEN
    &&& forall|k: int| 0 <= k < b.len() ==> #[trigger] b[k] <= sa.len()
    &&& forall|k: int, j: int|
        0 <= k < b.len() && 0 <= j < sa.len() ==> (j < #[trigger] b[k] <==> bucket_key(
            t,
            #[trigger] sa[j] as int,
        ) <= k)
}

/// Number of suffixes before `upto` whose key is `k`.
pub open spec fn key_count(t: Seq<int>, k: int, upto: int) -> int
    decreases upto,
{
    if upto <= 0 {
        0
    } else {
        key_count(t, k, upto - 1) + if bucket_key(t, upto - 1) == k {
            1int
        } else {
            0int
        }
    }
}

/// Number of suffixes before `upto` whose key is at most `k`.
pub open spec fn key_below(t: Seq<int>, k: int, upto: int) -> int
    decreases upto,
{
    if upto <= 0 {
        0
    } else {
        key_below(t, k, upto - 1) + if bucket_key(t, upto - 1) <= k {
            1int
        } else {
            0int
        }
    }
}

pub proof fn lemma_key_count_bounds(t: Seq<int>, k: int, upto: int)
    requires
        0 <= upto,
    ensures
        0 <= key_count(t, k, upto) <= key_below(t, k, upto) <= upto,
        key_below(t, k, upto) == key_below(t, k - 1, upto) + key_count(t, k, upto),
    decreases upto,
{
    if upto > 0 {
        lemma_key_count_bounds(t, k, upto - 1);
    }
}

pub proof fn lemma_key_below_none(t: Seq<int>, upto: int)
    requires
        forall|i: int| 0 <= i < t.len() ==> 0 <= #[trigger] t[i],
        0 <= upto <= t.len() + 1,
    ensures
        key_below(t, -1, upto) == 0,
    decreases upto,
{
    if upto > 0 {
        lemma_key_below_none(t, upto - 1);
        let v = upto - 1;
        if v < t.len() {
            assert(t[v] >= 0);
        }
        if v + 1 < t.len() {
            assert(t[v + 1] >= 0);
        }
    }
}

/// A smaller suffix has no greater key.
pub proof fn lemma_key_monotone(t: Seq<int>, u: int, v: int)
    requires
        forall|i: int| 0 <= i < t.len() ==> 0 <= #[trigger] t[i] < 256,
        0 <= u <= t.len(),
        0 <= v <= t.len(),
        suf_lt(t, u, v),
    ensures
        bucket_key(t, u) <= bucket_key(t, v),
{
    reveal_with_fuel(crate::order::lex_lt, 3);
    if u < t.len() {
        assert(0 <= t[u] < 256);
    }
    if v < t.len() {
        assert(0 <= t[v] < 256);
    }
    if u + 1 < t.len() {
        assert(0 <= t[u + 1] < 256);
    }
    if v + 1 < t.len() {
        assert(0 <= t[v + 1] < 256);
    }
}

/// Where what holds of a place holds of every earlier place, it holds of
/// the first places, as many as it holds of.
pub proof fn lemma_count_prefix(p: spec_fn(int) -> bool, m: int, j: int)
    requires
        0 <= j < m,
        forall|a: int, b: int| 0 <= a < b < m && #[trigger] p(b) ==> #[trigger] p(a),
    ensures
        p(j) <==> j < count(p, m),
    decreases m,
{
    lemma_count_bounds(p, m - 1);
    if m - 1 > 0 {
        if j < m - 1 {
            lemma_count_prefix(p, m - 1, j);
        }
        lemma_count_prefix(p, m - 1, m - 2);
        if p(m - 1) {
            assert(p(m - 2));
        }
    }
}

proof fn lemma_key_below_is_count(t: Seq<int>, k: int, q: spec_fn(int) -> bool, upto: int)
    requires
        forall|v: int| 0 <= v < upto ==> #[trigger] q(v) == (bucket_key(t, v) <= k),
    ensures
        count(q, upto) == key_below(t, k, upto),
    decreases upto,
{
    if upto > 0 {
        lemma_key_below_is_count(t, k, q, upto - 1);
    }
}

/// The counts of the suffixes by their keys say where in the suffix array
/// the keys change.
pub proof fn lemma_table_entry(t: Seq<int>, sa: Seq<u32>, k: int, j: int)
    requires
        forall|i: int| 0 <= i < t.len() ==> 0 <= #[trigger] t[i] < 256,
        is_suffix_array(t, sa),
        0 <= j < sa.len(),
    ensures
        j < key_below(t, k, t.len() as int + 1) <==> bucket_key(t, sa[j] as int) <= k,
        0 <= key_below(t, k, t.len() as int + 1) <= sa.len(),
{
    let n = t.len() as int;
    lemma_suffix_array_is_permutation(t, sa);
    lemma_key_count_bounds(t, k, n + 1);
    let f = positions(sa);
    let inv = Seq::new(
        (n + 1) as nat,
        |v: int| choose|p: int| 0 <= p < sa.len() && #[trigger] sa[p] == v,
    );
    let over_places = |p: int| bucket_key(t, sa[p] as int) <= k;
    let over_values = |v: int| bucket_key(t, v) <= k;
    assert forall|v: int| 0 <= v <= n implies 0 <= #[trigger] inv[v] <= n && sa[inv[v]] == v by {
        assert(occurs_in(sa, v));
    }
    lemma_injection_count(f, over_places, over_values, n + 1);
    lemma_injection_count(inv, over_values, over_places, n + 1);
    lemma_key_below_is_count(t, k, over_values, n + 1);
    assert forall|a: int, b: int| 0 <= a < b < n + 1 && #[trigger] over_places(b) implies #[trigger] over_places(
        a,
    ) by {
        assert(suf_lt(t, sa[a] as int, sa[b] as int));
        lemma_key_monotone(t, sa[a] as int, sa[b] as int);
    }
    lemma_count_prefix(over_places, n + 1, j);
}

} // verus!
