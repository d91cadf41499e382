//! The string with each symbol replaced by a pointer into its bucket.
use vstd::prelude::*;
use crate::order::{is_suffix_array, suf_lt};
use crate::sais::model::{
    bucket_head, count_below, is_s, lemma_bucket_head_mono, lemma_bucket_not_empty,
    lemma_count_below_bounds, lemma_l_before_s, tkey,
};

verus! {

/// The pointer that stands for the symbol at `i`: for an L-type position
/// the first place of its bucket, for an S-type position the last.
pub open spec fn ptr_of(t: Seq<int>, i: int) -> int {
    if is_s(t, i) {
        bucket_head(t, t[i] + 1) - 1
    } else {
        bucket_head(t, t[i])
    }
}

/// The string of the pointers.
pub open spec fn pointers(t: Seq<int>) -> Seq<int> {
    Seq::new(t.len(), |i: int| ptr_of(t, i))
}

/// Whether `u` is a string of pointers: each symbol is the first place of
/// its own bucket where it is L-type, the last where it is S-type.
pub open spec fn pointered(u: Seq<int>) -> bool {
    &&& u.len() >= 1
    &&& forall|i: int| 0 <= i < u.len() ==> 1 <= #[trigger] u[i] <= u.len()
    &&& forall|i: int|
        0 <= i < u.len() ==> (if is_s(u, i) {
            bucket_head(u, #[trigger] u[i] + 1) == u[i] + 1
        } else {
            bucket_head(u, u[i]) == u[i]
        })
}

/// Number of positions with the symbol `p`.
pub open spec fn size(u: Seq<int>, p: int) -> int {
    bucket_head(u, p + 1) - bucket_head(u, p)
}

/// Two positions with one symbol make its bucket two places long.
pub proof fn lemma_bucket_two(t: Seq<int>, i: int, j: int, k: int)
    requires
        0 <= i < j < k <= t.len(),
        t[i] == t[j],
    ensures
        count_below(t, t[i] + 1, k) - count_below(t, t[i], k) >= 2,
    decreases k,
{
    lemma_count_below_bounds(t, t[i], k - 1);
    if j < k - 1 {
        lemma_bucket_two(t, i, j, k - 1);
    } else {
        lemma_bucket_not_empty(t, i, k - 1);
    }
}

/// Pointers order the positions as symbol and type do.
pub proof fn lemma_ptr_order(t: Seq<int>, i: int, j: int)
    requires
        forall|i: int| 0 <= i < t.len() ==> 0 <= #[trigger] t[i],
        0 <= i < t.len(),
        0 <= j < t.len(),
    ensures
        ptr_of(t, i) < ptr_of(t, j) <==> tkey(t, i) < tkey(t, j),
        ptr_of(t, i) == ptr_of(t, j) <==> tkey(t, i) == tkey(t, j),
        1 <= ptr_of(t, i) <= t.len(),
{
    let n = t.len() as int;
    let c = t[i];
    let d = t[j];
    lemma_bucket_not_empty(t, i, n);
    lemma_bucket_not_empty(t, j, n);
    lemma_bucket_head_mono(t, c, c + 1);
    lemma_bucket_head_mono(t, d, d + 1);
    if c < d {
        lemma_bucket_head_mono(t, c + 1, d);
    } else if d < c {
        lemma_bucket_head_mono(t, d + 1, c);
    } else if is_s(t, i) != is_s(t, j) {
        if i < j {
            lemma_bucket_two(t, i, j, n);
        } else {
            lemma_bucket_two(t, j, i, n);
        }
    }
}

/// The pointers have the types of the symbols.
pub proof fn lemma_ptr_types(t: Seq<int>, i: int)
    requires
        forall|i: int| 0 <= i < t.len() ==> 0 <= #[trigger] t[i],
        0 <= i <= t.len(),
    ensures
        is_s(pointers(t), i) == is_s(t, i),
    decreases t.len() - i,
{
    let u = pointers(t);
    if i < t.len() {
        lemma_ptr_types(t, i + 1);
        lemma_ptr_order(t, i, i);
        if i + 1 < t.len() {
            lemma_ptr_order(t, i, i + 1);
            assert(u[i] == ptr_of(t, i) && u[i + 1] == ptr_of(t, i + 1));
        } else {
            assert(u[i] == ptr_of(t, i));
        }
    }
}

/// The suffixes of the pointers are ordered as the suffixes of the symbols.
pub proof fn lemma_ptr_suffixes(t: Seq<int>, i: int, j: int)
    requires
        forall|i: int| 0 <= i < t.len() ==> 0 <= #[trigger] t[i],
        0 <= i <= t.len(),
        0 <= j <= t.len(),
    ensures
        suf_lt(pointers(t), i, j) == suf_lt(t, i, j),
    decreases t.len() - i,
{
    let u = pointers(t);
    if i < t.len() && j < t.len() {
        lemma_ptr_order(t, i, j);
        assert(u[i] == ptr_of(t, i) && u[j] == ptr_of(t, j));
        if t[i] == t[j] {
            if is_s(t, i) == is_s(t, j) {
                lemma_ptr_suffixes(t, i + 1, j + 1);
            } else if is_s(t, j) {
                lemma_l_before_s(t, i, j);
            } else {
                lemma_l_before_s(t, j, i);
                crate::order::lemma_lex_asymmetric(t, j, t, i);
            }
        }
    }
}

/// A suffix array of the pointers is one of the symbols.
pub proof fn lemma_ptr_suffix_array(t: Seq<int>, sa: Seq<u32>)
    requires
        forall|i: int| 0 <= i < t.len() ==> 0 <= #[trigger] t[i],
        is_suffix_array(pointers(t), sa),
    ensures
        is_suffix_array(t, sa),
{
    assert forall|i: int, j: int| 0 <= i < j < sa.len() implies suf_lt(
        t,
        #[trigger] sa[i] as int,
        #[trigger] sa[j] as int,
    ) by {
        assert(sa[i] <= t.len() && sa[j] <= t.len());
        lemma_ptr_suffixes(t, sa[i] as int, sa[j] as int);
    }
}

/// As many pointers are below the pointer of `i` as symbols are below the
/// symbol of `i`, or its equals of L-type too where `i` is S-type.
proof fn lemma_ptr_count(t: Seq<int>, i: int, k: int)
    requires
        forall|i: int| 0 <= i < t.len() ==> 0 <= #[trigger] t[i],
        0 <= i < t.len(),
        0 <= k <= t.len(),
    ensures
        !is_s(t, i) ==> count_below(pointers(t), ptr_of(t, i), k) == count_below(t, t[i], k),
        is_s(t, i) ==> count_below(pointers(t), ptr_of(t, i) + 1, k) == count_below(t, t[i] + 1, k),
    decreases k,
{
    let u = pointers(t);
    if k > 0 {
        lemma_ptr_count(t, i, k - 1);
        lemma_ptr_order(t, k - 1, i);
        assert(u[k - 1] == ptr_of(t, k - 1));
    }
}

/// The string of pointers is one.
pub proof fn lemma_pointered(t: Seq<int>)
    requires
        t.len() >= 1,
        forall|i: int| 0 <= i < t.len() ==> 0 <= #[trigger] t[i],
    ensures
        pointered(pointers(t)),
{
    let u = pointers(t);
    let n = t.len() as int;
    assert forall|i: int| 0 <= i < u.len() implies 1 <= #[trigger] u[i] <= u.len() by {
        lemma_ptr_order(t, i, i);
    }
    assert forall|i: int| 0 <= i < u.len() implies (if is_s(u, i) {
        bucket_head(u, #[trigger] u[i] + 1) == u[i] + 1
    } else {
        bucket_head(u, u[i]) == u[i]
    }) by {
        lemma_ptr_types(t, i);
        lemma_ptr_count(t, i, n);
    }
}

/// Positions with one pointer have one type.
pub proof fn lemma_pure(u: Seq<int>, i: int, j: int)
    requires
        pointered(u),
        0 <= i < u.len(),
        0 <= j < u.len(),
        u[i] == u[j],
    ensures
        is_s(u, i) == is_s(u, j),
{
    if is_s(u, i) != is_s(u, j) {
        if i < j {
            lemma_bucket_two(u, i, j, u.len() as int);
        } else {
            lemma_bucket_two(u, j, i, u.len() as int);
        }
    }
}

} // verus!
