//! What the scans of the byte level find in the workspace.
use vstd::prelude::*;
use crate::construct::sacak::EMPTY;
use crate::order::{is_injection, lemma_injection_onto};
use crate::sais::induce::{
    l_inv, lemma_advance_l, lemma_advance_s, lemma_push_s, lemma_s_present, s_inv,
};
use crate::sais::model::{
    bucket_head, is_lms, is_s, lemma_bucket_head_end, lemma_bucket_head_mono,
    lemma_count_below_none,
};
use crate::sais::state::{
    lemma_buckets_apart, occupied, placed, push_back_spans, push_front_spans, spans_wf,
};
use crate::sais::utils::Span;

verus! {

/// Whether `p` lies in the part of the bucket of `c` that is not filled.
pub open spec fn in_gap(b: Seq<Span>, c: int, p: int) -> bool {
    b[c].i <= p < b[c].j
}

/// Whether the places that are not filled hold the empty mark.
pub open spec fn cleared(b: Seq<Span>, sa: Seq<u32>) -> bool {
    forall|c: int, p: int| 0 <= c < b.len() && #[trigger] in_gap(b, c, p) ==> sa[p] == EMPTY
}

/// The bucket in which the place `p` lies, looked for from `c` down.
pub open spec fn find_bucket(t: Seq<int>, p: int, c: int) -> int
    decreases c,
{
    if c <= 0 {
        0
    } else if bucket_head(t, c) <= p {
        c
    } else {
        find_bucket(t, p, c - 1)
    }
}

/// Every place behind the first lies in a bucket.
pub proof fn lemma_find_bucket(t: Seq<int>, p: int, c: int)
    requires
        forall|i: int| 0 <= i < t.len() ==> 0 <= #[trigger] t[i],
        0 <= c,
        1 <= p < bucket_head(t, c + 1),
    ensures
        0 <= find_bucket(t, p, c) <= c,
        bucket_head(t, find_bucket(t, p, c)) <= p < bucket_head(t, find_bucket(t, p, c) + 1),
    decreases c,
{
    lemma_count_below_none(t, t.len() as int);
    if c > 0 && bucket_head(t, c) > p {
        lemma_find_bucket(t, p, c - 1);
    }
}

/// A place that does not hold the empty mark is filled.
pub proof fn lemma_filled(t: Seq<int>, b: Seq<Span>, sa: Seq<u32>, pos: Seq<int>, p: int)
    requires
        placed(t, b, sa, pos),
        cleared(b, sa),
        1 <= p <= t.len(),
        sa[p] != EMPTY,
    ensures
        0 <= find_bucket(t, p, b.len() - 1) < b.len(),
        occupied(b, find_bucket(t, p, b.len() - 1), p),
        sa[p] < t.len(),
        pos[sa[p] as int] == p,
{
    let n = t.len() as int;
    assert(b.len() >= 1) by {
        if n > 0 {
            assert(0 <= t[0] < b.len());
        } else {
            assert(false);
        }
    }
    lemma_bucket_head_end(t, b.len() as int, n);
    lemma_find_bucket(t, p, b.len() - 1);
    let c = find_bucket(t, p, b.len() - 1);
    assert(b[c].head == bucket_head(t, c));
    if !occupied(b, c, p) {
        assert(in_gap(b, c, p));
    }
}

/// A place that holds the empty mark is where no suffix stands.
pub proof fn lemma_unfilled(t: Seq<int>, b: Seq<Span>, sa: Seq<u32>, pos: Seq<int>, p: int)
    requires
        placed(t, b, sa, pos),
        t.len() + 1 < u32::MAX,
        1 <= p <= t.len(),
        sa[p] == EMPTY,
    ensures
        forall|v: int| 0 <= v <= t.len() ==> #[trigger] pos[v] != p,
{
    assert forall|v: int| 0 <= v <= t.len() implies #[trigger] pos[v] != p by {
        if v < t.len() && pos[v] == p {
            assert(sa[pos[v]] == v);
        }
    }
}

/// Filling a place at the front of a bucket leaves the rest empty.
pub proof fn lemma_cleared_front(t: Seq<int>, b: Seq<Span>, sa: Seq<u32>, c: int, w: u32)
    requires
        spans_wf(t, b),
        cleared(b, sa),
        sa.len() == t.len() + 1,
        0 <= c < b.len(),
        b[c].i < b[c].j,
    ensures
        cleared(push_front_spans(b, c), sa.update(b[c].i as int, w)),
{
    let b2 = push_front_spans(b, c);
    let q = b[c].i as int;
    assert forall|d: int, p: int| 0 <= d < b2.len() && #[trigger] in_gap(b2, d, p) implies sa.update(
        q,
        w,
    )[p] == EMPTY by {
        assert(in_gap(b, d, p));
        assert(b[d].head == bucket_head(t, d));
        assert(b[c].head == bucket_head(t, c));
        lemma_bucket_head_mono(t, d, d + 1);
        lemma_bucket_head_mono(t, c, c + 1);
        if d != c {
            lemma_buckets_apart(t, c, d, q, p);
        }
    }
}

/// Filling a place at the back of a bucket leaves the rest empty.
pub proof fn lemma_cleared_back(t: Seq<int>, b: Seq<Span>, sa: Seq<u32>, c: int, w: u32)
    requires
        spans_wf(t, b),
        cleared(b, sa),
        sa.len() == t.len() + 1,
        0 <= c < b.len(),
        b[c].i < b[c].j,
    ensures
        cleared(push_back_spans(b, c), sa.update(b[c].j - 1, w)),
{
    let b2 = push_back_spans(b, c);
    let q = b[c].j - 1;
    assert forall|d: int, p: int| 0 <= d < b2.len() && #[trigger] in_gap(b2, d, p) implies sa.update(
        q,
        w,
    )[p] == EMPTY by {
        assert(in_gap(b, d, p));
        assert(b[d].head == bucket_head(t, d));
        assert(b[c].head == bucket_head(t, c));
        lemma_bucket_head_mono(t, d, d + 1);
        lemma_bucket_head_mono(t, c, c + 1);
        if d != c {
            lemma_buckets_apart(t, c, d, q, p);
        }
    }
}

/// What the first pass finds at the place `x`: nothing, or a suffix whose
/// predecessor is L-type exactly if its symbol is not smaller.
pub proof fn lemma_scan_l(
    t: Seq<int>,
    by_suffix: bool,
    b: Seq<Span>,
    sa: Seq<u32>,
    pos: Seq<int>,
    x: int,
)
    requires
        l_inv(t, by_suffix, b, sa, pos, x),
        cleared(b, sa),
        0 <= x <= t.len(),
    ensures
        sa[x] == EMPTY ==> l_inv(t, by_suffix, b, sa, pos, x + 1),
        sa[x] != EMPTY ==> {
            let v = sa[x] as int;
            &&& 0 <= v <= t.len()
            &&& pos[v] == x
            &&& (v == t.len() <==> x == 0)
            &&& 0 < v < t.len() ==> ((t[v - 1] >= t[v]) <==> !is_s(t, v - 1))
            &&& v == t.len() ==> !is_s(t, v - 1)
            &&& v == 0 || is_s(t, v - 1) ==> l_inv(t, by_suffix, b, sa, pos, x + 1)
        },
{
    let n = t.len() as int;
    crate::sais::model::lemma_last_is_l(t);
    if x == 0 {
        assert(sa[0] == n);
    } else if sa[x] == EMPTY {
        lemma_unfilled(t, b, sa, pos, x);
        lemma_advance_l(t, by_suffix, b, sa, pos, x, x + 1);
    } else {
        lemma_filled(t, b, sa, pos, x);
        let v = sa[x] as int;
        if v > 0 {
            assert(pos[v] >= 0);
            if is_s(t, v) {
                assert(is_lms(t, v));
            }
        }
        if v == 0 || is_s(t, v - 1) {
            assert forall|u: int| 1 <= u <= n && x <= #[trigger] pos[u] < x + 1 implies is_s(
                t,
                u - 1,
            ) || pos[u - 1] >= 0 by {
                if u < n {
                    assert(sa[pos[u]] == u);
                }
            }
            lemma_advance_l(t, by_suffix, b, sa, pos, x, x + 1);
        }
    }
}

/// What the second pass finds at the place `x - 1`: nothing, or a suffix
/// whose predecessor is S-type exactly if its symbol is smaller, or the
/// same while the suffix stands in the back part of its bucket.
pub proof fn lemma_scan_s(
    t: Seq<int>,
    by_suffix: bool,
    b: Seq<Span>,
    sa: Seq<u32>,
    pos: Seq<int>,
    x: int,
)
    requires
        s_inv(t, by_suffix, b, sa, pos, x),
        cleared(b, sa),
        2 <= x <= t.len() + 1,
    ensures
        sa[x - 1] == EMPTY ==> s_inv(t, by_suffix, b, sa, pos, x - 1),
        sa[x - 1] != EMPTY ==> {
            let v = sa[x - 1] as int;
            &&& 0 <= v < t.len()
            &&& pos[v] == x - 1
            &&& 0 < v ==> ((t[v - 1] < t[v] || (t[v - 1] == t[v] && b[t[v]].i < x - 1)) <==> is_s(
                t,
                v - 1,
            ))
            &&& v == 0 || !is_s(t, v - 1) ==> s_inv(t, by_suffix, b, sa, pos, x - 1)
        },
{
    let n = t.len() as int;
    if sa[x - 1] == EMPTY {
        lemma_unfilled(t, b, sa, pos, x - 1);
        lemma_advance_s(t, by_suffix, b, sa, pos, x, x - 1);
    } else {
        lemma_filled(t, b, sa, pos, x - 1);
        let v = sa[x - 1] as int;
        let c = t[v];
        assert(pos[v] >= 0);
        assert(b[c].head == bucket_head(t, c));
        if v > 0 {
            if is_s(t, v - 1) {
                lemma_push_s(t, by_suffix, b, sa, pos, x, v - 1);
                if t[v - 1] == t[v] {
                    assert(is_s(t, v));
                }
            } else {
                if t[v - 1] == t[v] {
                    assert(!is_s(t, v));
                }
            }
        }
        if v == 0 || !is_s(t, v - 1) {
            assert forall|u: int| 1 <= u < n && x - 1 <= #[trigger] pos[u] < x implies !is_s(
                t,
                u - 1,
            ) || pos[u - 1] >= 0 by {
                assert(sa[pos[u]] == u);
            }
            lemma_advance_s(t, by_suffix, b, sa, pos, x, x - 1);
        }
    }
}

/// What is filled stays as it is when places that are not filled change.
pub proof fn lemma_s_frame(
    t: Seq<int>,
    by_suffix: bool,
    b: Seq<Span>,
    sa: Seq<u32>,
    sa2: Seq<u32>,
    pos: Seq<int>,
    x: int,
)
    requires
        s_inv(t, by_suffix, b, sa, pos, x),
        sa2.len() == sa.len(),
        sa2[0] == sa[0],
        forall|c: int, p: int| 0 <= c < b.len() && #[trigger] occupied(b, c, p) ==> sa2[p] == sa[p],
    ensures
        s_inv(t, by_suffix, b, sa2, pos, x),
{
    let n = t.len() as int;
    assert forall|v: int| 0 <= v < n && #[trigger] pos[v] >= 0 implies sa2[pos[v]] == v by {
        assert(occupied(b, t[v], pos[v]));
    }
}

/// After both passes no bucket has a place left that is not filled.
pub proof fn lemma_full(t: Seq<int>, by_suffix: bool, b: Seq<Span>, sa: Seq<u32>, pos: Seq<int>, c: int)
    requires
        s_inv(t, by_suffix, b, sa, pos, 1),
        0 <= c < b.len(),
    ensures
        b[c].i == b[c].j,
{
    let n = t.len() as int;
    if b[c].i < b[c].j {
        let p = b[c].i as int;
        assert(b[c].head == bucket_head(t, c));
        lemma_bucket_head_mono(t, c, c + 1);
        assert forall|v: int| 0 <= v <= n implies 0 <= #[trigger] pos[v] <= n by {
            lemma_s_present(t, by_suffix, b, sa, pos, v);
        }
        assert forall|u: int, v: int| 0 <= u < v <= n implies #[trigger] pos[u] != #[trigger] pos[v] by {
            lemma_s_present(t, by_suffix, b, sa, pos, u);
            lemma_s_present(t, by_suffix, b, sa, pos, v);
        }
        assert(is_injection(pos));
        lemma_injection_onto(pos, p);
        let v = choose|v: int| 0 <= v < pos.len() && #[trigger] pos[v] == p;
        assert(v < n);
        let d = t[v];
        assert(b[d].head == bucket_head(t, d));
        if d != c {
            lemma_buckets_apart(t, c, d, p, p);
        }
    }
}

} // verus!
