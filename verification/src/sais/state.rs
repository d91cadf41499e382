//! The state of an induced sort: which suffixes stand where in the buckets.
use vstd::prelude::*;
use crate::order::positions;
use crate::sais::count::{
    lemma_count_ranges, lemma_count_remove, lemma_count_symbol, lemma_injection_count,
};
use crate::sais::model::{bucket_head, is_s, lemma_bucket_head_mono};
use crate::sais::utils::Span;

verus! {

/// Whether `p` lies in the part of the bucket of `c` that was filled from
/// its head.
pub open spec fn in_front(b: Seq<Span>, c: int, p: int) -> bool {
    b[c].head <= p < b[c].i
}

/// Whether `p` lies in the part of the bucket of `c` that was filled from
/// its tail.
pub open spec fn in_back(b: Seq<Span>, c: int, p: int) -> bool {
    b[c].j <= p < b[c].tail
}

/// Whether `p` lies in a filled part of the bucket of `c`.
pub open spec fn occupied(b: Seq<Span>, c: int, p: int) -> bool {
    in_front(b, c, p) || in_back(b, c, p)
}

/// Whether the spans are the buckets of `t`, each with its two pointers in
/// order between its ends.
pub open spec fn spans_wf(t: Seq<int>, b: Seq<Span>) -> bool {
    &&& t.len() + 1 < u32::MAX
    &&& forall|i: int| 0 <= i < t.len() ==> 0 <= #[trigger] t[i] < b.len()
    &&& forall|c: int|
        0 <= c < b.len() ==> {
            &&& (#[trigger] b[c]).head == bucket_head(t, c)
            &&& b[c].tail == bucket_head(t, c + 1)
            &&& b[c].head <= b[c].i <= b[c].j <= b[c].tail
        }
}

/// Whether `pos` says where each suffix stands in `sa`, or -1 for a suffix
/// that stands nowhere yet: the empty suffix in front, an L-type suffix in
/// the front part of its bucket, an S-type one in the back part, and nothing
/// else in those parts.
pub open spec fn placed(t: Seq<int>, b: Seq<Span>, sa: Seq<u32>, pos: Seq<int>) -> bool {
    let n = t.len() as int;
    &&& spans_wf(t, b)
    &&& sa.len() == n + 1
    &&& pos.len() == n + 1
    &&& pos[n] == 0
    &&& sa[0] == n
    &&& forall|v: int| 0 <= v < n ==> #[trigger] pos[v] >= -1
    &&& forall|v: int|
        0 <= v < n && #[trigger] pos[v] >= 0 ==> {
            &&& pos[v] <= n
            &&& sa[pos[v]] == v
            &&& if is_s(t, v) {
                in_back(b, t[v], pos[v])
            } else {
                in_front(b, t[v], pos[v])
            }
        }
    &&& forall|c: int, p: int|
        0 <= c < b.len() && #[trigger] occupied(b, c, p) ==> {
            &&& sa[p] < n
            &&& t[sa[p] as int] == c
            &&& pos[sa[p] as int] == p
        }
}

/// The spans after one more entry at the front of the bucket of `c`.
pub open spec fn push_front_spans(b: Seq<Span>, c: int) -> Seq<Span> {
    b.update(c, Span { i: (b[c].i + 1) as u32, ..b[c] })
}

/// The spans after one more entry at the back of the bucket of `c`.
pub open spec fn push_back_spans(b: Seq<Span>, c: int) -> Seq<Span> {
    b.update(c, Span { j: (b[c].j - 1) as u32, ..b[c] })
}

/// Buckets of different symbols do not overlap.
pub proof fn lemma_buckets_apart(t: Seq<int>, c: int, d: int, p: int, q: int)
    requires
        c != d,
        bucket_head(t, c) <= p < bucket_head(t, c + 1),
        bucket_head(t, d) <= q < bucket_head(t, d + 1),
    ensures
        p != q,
        c < d ==> p < q,
        d < c ==> q < p,
{
    if c < d {
        lemma_bucket_head_mono(t, c + 1, d);
    } else {
        lemma_bucket_head_mono(t, d + 1, c);
    }
}

/// A bucket has room for each suffix that begins with its symbol: while one
/// of them stands nowhere, the two filled parts do not meet.
pub proof fn lemma_room(t: Seq<int>, b: Seq<Span>, sa: Seq<u32>, pos: Seq<int>, w: int)
    requires
        placed(t, b, sa, pos),
        0 <= w < t.len(),
        pos[w] < 0,
    ensures
        b[t[w]].i < b[t[w]].j,
        1 <= b[t[w]].head,
        b[t[w]].tail <= t.len() + 1,
{
    let n = t.len() as int;
    let c = t[w];
    let f = positions(sa);
    let p = |x: int| occupied(b, c, x);
    let q0 = |v: int| t[v] == c;
    let q = |v: int| t[v] == c && v != w;
    lemma_bucket_head_mono(t, c, c + 1);
    assert forall|i: int| 0 <= i < f.len() && #[trigger] p(i) implies 0 <= f[i] < n && q(f[i]) by {
        assert(occupied(b, c, i));
    }
    assert forall|i: int, j: int| 0 <= i < j < f.len() && #[trigger] p(i) && #[trigger] p(
        j,
    ) implies f[i] != f[j] by {
        assert(occupied(b, c, i));
        assert(occupied(b, c, j));
    }
    lemma_injection_count(f, p, q, n);
    lemma_count_ranges(p, b[c].head as int, b[c].i as int, b[c].j as int, b[c].tail as int, n + 1);
    lemma_count_remove(q0, q, n, w);
    lemma_count_symbol(t, q0, c, n);
}

/// Placing an L-type suffix that stands nowhere at the front of its bucket.
pub proof fn lemma_place_front(t: Seq<int>, b: Seq<Span>, sa: Seq<u32>, pos: Seq<int>, w: int)
    requires
        placed(t, b, sa, pos),
        0 <= w < t.len(),
        !is_s(t, w),
        pos[w] < 0,
    ensures
        b[t[w]].i < b[t[w]].j,
        1 <= b[t[w]].i <= t.len(),
        placed(
            t,
            push_front_spans(b, t[w]),
            sa.update(b[t[w]].i as int, w as u32),
            pos.update(w, b[t[w]].i as int),
        ),
{
    let n = t.len() as int;
    let c = t[w];
    let q = b[c].i as int;
    let b2 = push_front_spans(b, c);
    let sa2 = sa.update(q, w as u32);
    let pos2 = pos.update(w, q);
    lemma_room(t, b, sa, pos, w);
    assert(spans_wf(t, b2)) by {
        assert forall|d: int| 0 <= d < b2.len() implies {
            &&& (#[trigger] b2[d]).head == bucket_head(t, d)
            &&& b2[d].tail == bucket_head(t, d + 1)
            &&& b2[d].head <= b2[d].i <= b2[d].j <= b2[d].tail
        } by {
            assert(b[d].head == bucket_head(t, d));
        }
    }
    assert forall|v: int| 0 <= v < n && #[trigger] pos2[v] >= 0 implies {
        &&& pos2[v] <= n
        &&& sa2[pos2[v]] == v
        &&& if is_s(t, v) {
            in_back(b2, t[v], pos2[v])
        } else {
            in_front(b2, t[v], pos2[v])
        }
    } by {
        if v != w {
            assert(pos[v] >= 0);
            let d = t[v];
            assert(b[d].head == bucket_head(t, d));
            if d != c {
                lemma_buckets_apart(t, c, d, q, pos[v]);
            }
        }
    }
    assert forall|d: int, p: int| 0 <= d < b2.len() && #[trigger] occupied(b2, d, p) implies {
        &&& sa2[p] < n
        &&& t[sa2[p] as int] == d
        &&& pos2[sa2[p] as int] == p
    } by {
        assert(b[d].head == bucket_head(t, d));
        if d == c && p == q {
        } else {
            assert(occupied(b, d, p));
            if d != c {
                lemma_buckets_apart(t, c, d, q, p);
            }
        }
    }
}

/// Placing an S-type suffix that stands nowhere at the back of its bucket.
pub proof fn lemma_place_back(t: Seq<int>, b: Seq<Span>, sa: Seq<u32>, pos: Seq<int>, w: int)
    requires
        placed(t, b, sa, pos),
        0 <= w < t.len(),
        is_s(t, w),
        pos[w] < 0,
    ensures
        b[t[w]].i < b[t[w]].j,
        1 <= b[t[w]].j - 1 <= t.len(),
        placed(
            t,
            push_back_spans(b, t[w]),
            sa.update(b[t[w]].j - 1, w as u32),
            pos.update(w, b[t[w]].j - 1),
        ),
{
    let n = t.len() as int;
    let c = t[w];
    let q = b[c].j - 1;
    let b2 = push_back_spans(b, c);
    let sa2 = sa.update(q, w as u32);
    let pos2 = pos.update(w, q);
    lemma_room(t, b, sa, pos, w);
    assert(spans_wf(t, b2)) by {
        assert forall|d: int| 0 <= d < b2.len() implies {
            &&& (#[trigger] b2[d]).head == bucket_head(t, d)
            &&& b2[d].tail == bucket_head(t, d + 1)
            &&& b2[d].head <= b2[d].i <= b2[d].j <= b2[d].tail
        } by {
            assert(b[d].head == bucket_head(t, d));
        }
    }
    assert forall|v: int| 0 <= v < n && #[trigger] pos2[v] >= 0 implies {
        &&& pos2[v] <= n
        &&& sa2[pos2[v]] == v
        &&& if is_s(t, v) {
            in_back(b2, t[v], pos2[v])
        } else {
            in_front(b2, t[v], pos2[v])
        }
    } by {
        if v != w {
            assert(pos[v] >= 0);
            let d = t[v];
            assert(b[d].head == bucket_head(t, d));
            if d != c {
                lemma_buckets_apart(t, c, d, q, pos[v]);
            }
        }
    }
    assert forall|d: int, p: int| 0 <= d < b2.len() && #[trigger] occupied(b2, d, p) implies {
        &&& sa2[p] < n
        &&& t[sa2[p] as int] == d
        &&& pos2[sa2[p] as int] == p
    } by {
        assert(b[d].head == bucket_head(t, d));
        if d == c && p == q {
        } else {
            assert(occupied(b, d, p));
            if d != c {
                lemma_buckets_apart(t, c, d, q, p);
            }
        }
    }
}

} // verus!
