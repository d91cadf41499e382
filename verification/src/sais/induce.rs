//! Why induced sorting sorts: what holds while the two passes run.
use vstd::prelude::*;
use crate::order::{is_injection, is_permutation, lemma_injection_onto, occurs_in};
use crate::sais::model::{
    bucket_head, is_lms, is_s, le, lemma_bucket_head_mono, lemma_kle_inner, lemma_le_by_symbol,
    lemma_le_l_before_s, lemma_le_sentinel, lemma_le_step,
};
use crate::sais::state::{
    in_back, in_front, lemma_buckets_apart, lemma_place_back, lemma_place_front, occupied, placed,
    push_back_spans, push_front_spans, spans_wf,
};
use crate::sais::utils::Span;

verus! {

/// An L-type suffix that stands in its bucket was put there when the scan
/// met the suffix after it, before the place `x` that the scan has reached.
pub open spec fn l_prov(t: Seq<int>, pos: Seq<int>, x: int, v: int) -> bool {
    pos[v] >= 0 && !is_s(t, v) ==> 0 <= pos[v + 1] < x
}

/// What the scan has met has had its L-type predecessor put in its bucket.
pub open spec fn l_compl(t: Seq<int>, pos: Seq<int>, x: int, v: int) -> bool {
    0 <= pos[v] < x && !is_s(t, v - 1) ==> pos[v - 1] >= 0
}

/// The suffixes that stand somewhere stand in order.
pub open spec fn ordered(
    t: Seq<int>,
    by_suffix: bool,
    s_phase: bool,
    pos: Seq<int>,
    u: int,
    v: int,
) -> bool {
    0 <= pos[u] < pos[v] ==> le(t, by_suffix, s_phase, u, v)
}

/// What holds while the first pass, which places the L-type suffixes, has
/// scanned the places before `x`.
pub open spec fn l_inv(
    t: Seq<int>,
    by_suffix: bool,
    b: Seq<Span>,
    sa: Seq<u32>,
    pos: Seq<int>,
    x: int,
) -> bool {
    let n = t.len() as int;
    &&& placed(t, b, sa, pos)
    &&& n >= 1
    &&& forall|v: int| 0 < v < n && #[trigger] is_lms(t, v) ==> pos[v] >= 0
    &&& forall|v: int| 0 <= v < n && #[trigger] pos[v] >= 0 && is_s(t, v) ==> is_lms(t, v)
    &&& forall|v: int| 0 <= v < n ==> #[trigger] l_prov(t, pos, x, v)
    &&& forall|v: int| 1 <= v <= n ==> #[trigger] l_compl(t, pos, x, v)
    &&& forall|u: int, v: int|
        0 <= u <= n && 0 <= v <= n ==> #[trigger] ordered(t, by_suffix, false, pos, u, v)
}

/// With the LMS suffixes in the backs of their buckets, in order, and
/// nothing else in the buckets, the first pass can begin.
pub proof fn lemma_seeded(t: Seq<int>, by_suffix: bool, b: Seq<Span>, sa: Seq<u32>, pos: Seq<int>)
    requires
        placed(t, b, sa, pos),
        t.len() >= 1,
        forall|v: int| 0 < v < t.len() && #[trigger] is_lms(t, v) ==> pos[v] >= 0,
        forall|v: int| 0 <= v < t.len() && #[trigger] pos[v] >= 0 ==> is_lms(t, v),
        forall|u: int, v: int|
            0 <= u <= t.len() && 0 <= v <= t.len() ==> #[trigger] ordered(
                t,
                by_suffix,
                false,
                pos,
                u,
                v,
            ),
    ensures
        l_inv(t, by_suffix, b, sa, pos, 0),
{
    let n = t.len() as int;
    assert forall|v: int| 0 <= v < n implies #[trigger] l_prov(t, pos, 0, v) by {
        if pos[v] >= 0 {
            assert(is_lms(t, v));
        }
    }
}

/// LMS suffixes that stand in the backs of their buckets stand in the order
/// of their first symbols, which is all that the first pass asks of them
/// when it sorts LMS substrings.
pub proof fn lemma_seeds_ordered(t: Seq<int>, b: Seq<Span>, sa: Seq<u32>, pos: Seq<int>, u: int, v: int)
    requires
        placed(t, b, sa, pos),
        forall|v: int| 0 <= v < t.len() && #[trigger] pos[v] >= 0 ==> is_lms(t, v),
        0 <= u <= t.len(),
        0 <= v <= t.len(),
    ensures
        ordered(t, false, false, pos, u, v),
{
    let n = t.len() as int;
    if 0 <= pos[u] < pos[v] {
        if u == n {
            lemma_le_sentinel(t, false, false, v);
        } else {
            assert(v < n);
            let c = t[u];
            let d = t[v];
            assert(b[c].head == bucket_head(t, c));
            assert(b[d].head == bucket_head(t, d));
            assert(is_lms(t, u) && is_lms(t, v));
            if c < d {
                lemma_le_by_symbol(t, false, false, u, v);
            } else if c > d {
                lemma_buckets_apart(t, c, d, pos[u], pos[v]);
            }
        }
    }
}

/// The scan of the first pass meets the suffix after `w` at place `x`, and
/// `w` is L-type: `w` goes to the front of its bucket, behind the scan.
pub proof fn lemma_push_l(
    t: Seq<int>,
    by_suffix: bool,
    b: Seq<Span>,
    sa: Seq<u32>,
    pos: Seq<int>,
    x: int,
    w: int,
)
    requires
        l_inv(t, by_suffix, b, sa, pos, x),
        0 <= w < t.len(),
        !is_s(t, w),
        pos[w + 1] == x,
        0 <= x,
    ensures
        pos[w] < 0,
        x < b[t[w]].i < b[t[w]].j,
        b[t[w]].i <= t.len(),
        l_inv(
            t,
            by_suffix,
            push_front_spans(b, t[w]),
            sa.update(b[t[w]].i as int, w as u32),
            pos.update(w, b[t[w]].i as int),
            x + 1,
        ),
{
    let n = t.len() as int;
    let c = t[w];
    let q = b[c].i as int;
    let b2 = push_front_spans(b, c);
    let sa2 = sa.update(q, w as u32);
    let pos2 = pos.update(w, q);
    assert(l_prov(t, pos, x, w));
    lemma_place_front(t, b, sa, pos, w);
    assert(b[c].head == bucket_head(t, c));
    // the new place lies behind the scan
    assert(x < q) by {
        if w + 1 < n {
            let d = t[w + 1];
            assert(b[d].head == bucket_head(t, d));
            if d != c {
                lemma_buckets_apart(t, c, d, q, x);
            }
        }
    }
    assert forall|v: int| 0 <= v < n implies #[trigger] l_prov(t, pos2, x + 1, v) by {
        assert(l_prov(t, pos, x, v));
    }
    assert forall|v: int| 1 <= v <= n implies #[trigger] l_compl(t, pos2, x + 1, v) by {
        assert(l_compl(t, pos, x, v));
        if v != w && pos[v] == x && v < n && w + 1 < n {
            assert(sa[pos[v]] == v && sa[pos[w + 1]] == w + 1);
        }
        if v != w && pos[v] == x && v == n && w + 1 < n {
            let d = t[w + 1];
            assert(b[d].head == bucket_head(t, d));
            lemma_bucket_head_mono(t, d, d);
        }
        if v != w && pos[v] == x && v < n && w + 1 == n {
            let d = t[v];
            assert(b[d].head == bucket_head(t, d));
            lemma_bucket_head_mono(t, d, d);
        }
    }
    assert forall|u: int, v: int| 0 <= u <= n && 0 <= v <= n implies #[trigger] ordered(
        t,
        by_suffix,
        false,
        pos2,
        u,
        v,
    ) by {
        if 0 <= pos2[u] < pos2[v] {
            if u != w && v != w {
                assert(ordered(t, by_suffix, false, pos, u, v));
            } else if v == w {
                if u == n {
                    lemma_le_sentinel(t, by_suffix, false, w);
                } else {
                    let d = t[u];
                    assert(b[d].head == bucket_head(t, d));
                    if d < c {
                        lemma_le_by_symbol(t, by_suffix, false, u, w);
                    } else if d > c {
                        lemma_buckets_apart(t, c, d, q, pos[u]);
                    } else if !is_s(t, u) {
                        assert(l_prov(t, pos, x, u));
                        assert(ordered(t, by_suffix, false, pos, u + 1, w + 1));
                        lemma_le_step(t, by_suffix, false, u, w);
                    }
                }
            } else {
                let d = t[v];
                assert(b[d].head == bucket_head(t, d));
                lemma_bucket_head_mono(t, c, c);
                if d > c {
                    lemma_le_by_symbol(t, by_suffix, false, w, v);
                } else if d < c {
                    lemma_buckets_apart(t, c, d, q, pos[v]);
                } else if is_s(t, v) {
                    lemma_le_l_before_s(t, by_suffix, false, w, v);
                }
            }
        }
    }
}

/// The scan of the first pass moves on from `x` to `y`, where the suffixes
/// between them have no L-type predecessor left to place.
pub proof fn lemma_advance_l(
    t: Seq<int>,
    by_suffix: bool,
    b: Seq<Span>,
    sa: Seq<u32>,
    pos: Seq<int>,
    x: int,
    y: int,
)
    requires
        l_inv(t, by_suffix, b, sa, pos, x),
        x <= y,
        forall|v: int|
            1 <= v <= t.len() && x <= #[trigger] pos[v] < y ==> is_s(t, v - 1) || pos[v - 1] >= 0,
    ensures
        l_inv(t, by_suffix, b, sa, pos, y),
{
    let n = t.len() as int;
    assert forall|v: int| 0 <= v < n implies #[trigger] l_prov(t, pos, y, v) by {
        assert(l_prov(t, pos, x, v));
    }
    assert forall|v: int| 1 <= v <= n implies #[trigger] l_compl(t, pos, y, v) by {
        assert(l_compl(t, pos, x, v));
    }
}

/// The scan of the first pass passes the place `x`, whose suffix has no
/// L-type predecessor left to place.
pub proof fn lemma_step_l(
    t: Seq<int>,
    by_suffix: bool,
    b: Seq<Span>,
    sa: Seq<u32>,
    pos: Seq<int>,
    x: int,
    c: int,
)
    requires
        l_inv(t, by_suffix, b, sa, pos, x),
        0 <= c < b.len(),
        occupied(b, c, x),
        sa[x] == 0 || is_s(t, sa[x] - 1) || pos[sa[x] - 1] >= 0,
    ensures
        l_inv(t, by_suffix, b, sa, pos, x + 1),
{
    let n = t.len() as int;
    assert(b[c].head == bucket_head(t, c));
    lemma_bucket_head_mono(t, c, c);
    lemma_advance_l(t, by_suffix, b, sa, pos, x, x + 1);
}

/// The scan of the first pass skips the empty middle of the bucket of `c`.
pub proof fn lemma_skip_l(
    t: Seq<int>,
    by_suffix: bool,
    b: Seq<Span>,
    sa: Seq<u32>,
    pos: Seq<int>,
    c: int,
)
    requires
        0 <= c < b.len(),
        l_inv(t, by_suffix, b, sa, pos, b[c].i as int),
    ensures
        l_inv(t, by_suffix, b, sa, pos, b[c].j as int),
{
    let n = t.len() as int;
    assert(b[c].head == bucket_head(t, c));
    lemma_bucket_head_mono(t, c, c);
    assert forall|v: int| 1 <= v <= n && b[c].i <= #[trigger] pos[v] < b[c].j implies is_s(
        t,
        v - 1,
    ) || pos[v - 1] >= 0 by {
        if v < n {
            let d = t[v];
            assert(b[d].head == bucket_head(t, d));
            if d != c {
                lemma_buckets_apart(t, c, d, pos[v], pos[v]);
            }
        }
    }
    lemma_advance_l(t, by_suffix, b, sa, pos, b[c].i as int, b[c].j as int);
}

/// When the first pass has scanned everything, every L-type suffix stands
/// in its bucket.
pub proof fn lemma_l_present(
    t: Seq<int>,
    by_suffix: bool,
    b: Seq<Span>,
    sa: Seq<u32>,
    pos: Seq<int>,
    v: int,
)
    requires
        l_inv(t, by_suffix, b, sa, pos, t.len() as int + 1),
        0 <= v < t.len(),
        !is_s(t, v),
    ensures
        pos[v] >= 0,
    decreases t.len() - v,
{
    let n = t.len() as int;
    if v + 1 < n {
        if is_s(t, v + 1) {
            assert(is_lms(t, v + 1));
        } else {
            lemma_l_present(t, by_suffix, b, sa, pos, v + 1);
        }
    }
    assert(l_compl(t, pos, n + 1, v + 1));
}

/// An S-type suffix that stands in its bucket was put there when the scan
/// met the suffix after it, at a place from `x` on.
pub open spec fn s_prov(t: Seq<int>, pos: Seq<int>, x: int, v: int) -> bool {
    pos[v] >= 0 && is_s(t, v) ==> pos[v + 1] >= x
}

/// What the scan has met has had its S-type predecessor put in its bucket.
pub open spec fn s_compl(t: Seq<int>, pos: Seq<int>, x: int, v: int) -> bool {
    pos[v] >= x && is_s(t, v - 1) ==> pos[v - 1] >= 0
}

/// What holds while the second pass, which places the S-type suffixes, has
/// scanned the places from `x` on.
pub open spec fn s_inv(
    t: Seq<int>,
    by_suffix: bool,
    b: Seq<Span>,
    sa: Seq<u32>,
    pos: Seq<int>,
    x: int,
) -> bool {
    let n = t.len() as int;
    &&& placed(t, b, sa, pos)
    &&& n >= 1
    &&& x >= 1
    &&& forall|v: int| 0 <= v < n && !is_s(t, v) ==> #[trigger] pos[v] >= 0
    &&& forall|v: int| 0 <= v < n ==> #[trigger] s_prov(t, pos, x, v)
    &&& forall|v: int| 1 <= v < n ==> #[trigger] s_compl(t, pos, x, v)
    &&& forall|u: int, v: int|
        0 <= u <= n && 0 <= v <= n ==> #[trigger] ordered(t, by_suffix, true, pos, u, v)
}

/// Where the suffixes stand once the S-type ones are taken out again.
pub open spec fn drop_s(t: Seq<int>, pos: Seq<int>) -> Seq<int> {
    Seq::new(
        pos.len(),
        |v: int|
            if v < t.len() && is_s(t, v) {
                -1
            } else {
                pos[v]
            },
    )
}

/// The spans with the back part of each bucket emptied.
pub open spec fn reset_back_spans(b: Seq<Span>) -> Seq<Span> {
    Seq::new(b.len(), |c: int| Span { j: b[c].tail, ..b[c] })
}

/// Between the passes the LMS suffixes leave the buckets, and the second
/// pass can begin.
pub proof fn lemma_l_to_s(t: Seq<int>, by_suffix: bool, b: Seq<Span>, sa: Seq<u32>, pos: Seq<int>)
    requires
        l_inv(t, by_suffix, b, sa, pos, t.len() as int + 1),
    ensures
        s_inv(t, by_suffix, reset_back_spans(b), sa, drop_s(t, pos), t.len() as int + 1),
{
    let n = t.len() as int;
    let b2 = reset_back_spans(b);
    let pos2 = drop_s(t, pos);
    assert(spans_wf(t, b2)) by {
        assert forall|d: int| 0 <= d < b2.len() implies {
            &&& (#[trigger] b2[d]).head == bucket_head(t, d)
            &&& b2[d].tail == bucket_head(t, d + 1)
            &&& b2[d].head <= b2[d].i <= b2[d].j <= b2[d].tail
        } by {
            assert(b[d].head == bucket_head(t, d));
        }
    }
    assert forall|v: int| 0 <= v < n && #[trigger] pos2[v] >= 0 implies {
        &&& pos2[v] <= n
        &&& sa[pos2[v]] == v
        &&& if is_s(t, v) {
            in_back(b2, t[v], pos2[v])
        } else {
            in_front(b2, t[v], pos2[v])
        }
    } by {
        assert(pos[v] >= 0);
    }
    assert forall|d: int, p: int| 0 <= d < b2.len() && #[trigger] occupied(b2, d, p) implies {
        &&& sa[p] < n
        &&& t[sa[p] as int] == d
        &&& pos2[sa[p] as int] == p
    } by {
        assert(occupied(b, d, p));
        let v = sa[p] as int;
        assert(pos[v] == p);
    }
    assert forall|v: int| 0 <= v < n && !is_s(t, v) implies #[trigger] pos2[v] >= 0 by {
        lemma_l_present(t, by_suffix, b, sa, pos, v);
    }
    assert forall|u: int, v: int| 0 <= u <= n && 0 <= v <= n implies #[trigger] ordered(
        t,
        by_suffix,
        true,
        pos2,
        u,
        v,
    ) by {
        if 0 <= pos2[u] < pos2[v] {
            assert(ordered(t, by_suffix, false, pos, u, v));
            lemma_kle_inner(t, u, v);
        }
    }
    assert forall|v: int| 1 <= v < n implies #[trigger] s_compl(t, pos2, n + 1, v) by {
        if v < n && pos2[v] >= 0 {
            assert(pos[v] >= 0);
        }
    }
}

/// The scan of the second pass meets the suffix after `w` at place `x - 1`,
/// and `w` is S-type: `w` goes to the back of its bucket, ahead of the scan.
pub proof fn lemma_push_s(
    t: Seq<int>,
    by_suffix: bool,
    b: Seq<Span>,
    sa: Seq<u32>,
    pos: Seq<int>,
    x: int,
    w: int,
)
    requires
        s_inv(t, by_suffix, b, sa, pos, x),
        0 <= w < t.len(),
        is_s(t, w),
        pos[w + 1] == x - 1,
        x >= 2,
    ensures
        pos[w] < 0,
        b[t[w]].i < b[t[w]].j,
        1 <= b[t[w]].j - 1 < x - 1,
        s_inv(
            t,
            by_suffix,
            push_back_spans(b, t[w]),
            sa.update(b[t[w]].j - 1, w as u32),
            pos.update(w, b[t[w]].j - 1),
            x - 1,
        ),
{
    let n = t.len() as int;
    let c = t[w];
    let q = b[c].j - 1;
    let b2 = push_back_spans(b, c);
    let sa2 = sa.update(q, w as u32);
    let pos2 = pos.update(w, q);
    assert(s_prov(t, pos, x, w));
    lemma_place_back(t, b, sa, pos, w);
    assert(b[c].head == bucket_head(t, c));
    assert(w + 1 < n);
    // the new place lies ahead of the scan
    assert(q < x - 1) by {
        let d = t[w + 1];
        assert(b[d].head == bucket_head(t, d));
        if d != c {
            lemma_buckets_apart(t, c, d, q, x - 1);
        }
    }
    assert forall|v: int| 0 <= v < n implies #[trigger] s_prov(t, pos2, x - 1, v) by {
        assert(s_prov(t, pos, x, v));
    }
    assert forall|v: int| 1 <= v < n implies #[trigger] s_compl(t, pos2, x - 1, v) by {
        assert(s_compl(t, pos, x, v));
        if v != w && pos[v] == x - 1 {
            assert(sa[pos[v]] == v && sa[pos[w + 1]] == w + 1);
        }
    }
    assert forall|u: int, v: int| 0 <= u <= n && 0 <= v <= n implies #[trigger] ordered(
        t,
        by_suffix,
        true,
        pos2,
        u,
        v,
    ) by {
        if 0 <= pos2[u] < pos2[v] {
            if u != w && v != w {
                assert(ordered(t, by_suffix, true, pos, u, v));
            } else if v == w {
                if u == n {
                    lemma_le_sentinel(t, by_suffix, true, w);
                } else {
                    let d = t[u];
                    assert(b[d].head == bucket_head(t, d));
                    if d < c {
                        lemma_le_by_symbol(t, by_suffix, true, u, w);
                    } else if d > c {
                        lemma_buckets_apart(t, c, d, q, pos[u]);
                    } else if !is_s(t, u) {
                        lemma_le_l_before_s(t, by_suffix, true, u, w);
                    }
                }
            } else {
                let d = t[v];
                assert(b[d].head == bucket_head(t, d));
                lemma_bucket_head_mono(t, c, c);
                if d > c {
                    lemma_le_by_symbol(t, by_suffix, true, w, v);
                } else if d < c {
                    lemma_buckets_apart(t, c, d, q, pos[v]);
                } else if is_s(t, v) {
                    assert(s_prov(t, pos, x, v));
                    assert(ordered(t, by_suffix, true, pos, w + 1, v + 1));
                    lemma_le_step(t, by_suffix, true, w, v);
                }
            }
        }
    }
}

/// The scan of the second pass moves on from `x` down to `y`, where the
/// suffixes between them have no S-type predecessor left to place.
pub proof fn lemma_advance_s(
    t: Seq<int>,
    by_suffix: bool,
    b: Seq<Span>,
    sa: Seq<u32>,
    pos: Seq<int>,
    x: int,
    y: int,
)
    requires
        s_inv(t, by_suffix, b, sa, pos, x),
        1 <= y <= x,
        forall|v: int|
            1 <= v < t.len() && y <= #[trigger] pos[v] < x ==> !is_s(t, v - 1) || pos[v - 1] >= 0,
    ensures
        s_inv(t, by_suffix, b, sa, pos, y),
{
    let n = t.len() as int;
    assert forall|v: int| 0 <= v < n implies #[trigger] s_prov(t, pos, y, v) by {
        assert(s_prov(t, pos, x, v));
    }
    assert forall|v: int| 1 <= v < n implies #[trigger] s_compl(t, pos, y, v) by {
        assert(s_compl(t, pos, x, v));
    }
}

/// The scan of the second pass passes the place `x - 1`, whose suffix has no
/// S-type predecessor left to place.
pub proof fn lemma_step_s(
    t: Seq<int>,
    by_suffix: bool,
    b: Seq<Span>,
    sa: Seq<u32>,
    pos: Seq<int>,
    x: int,
    c: int,
)
    requires
        s_inv(t, by_suffix, b, sa, pos, x),
        0 <= c < b.len(),
        occupied(b, c, x - 1),
        sa[x - 1] == 0 || !is_s(t, sa[x - 1] - 1) || pos[sa[x - 1] - 1] >= 0,
    ensures
        s_inv(t, by_suffix, b, sa, pos, x - 1),
{
    assert(b[c].head == bucket_head(t, c));
    lemma_bucket_head_mono(t, c, c);
    lemma_advance_s(t, by_suffix, b, sa, pos, x, x - 1);
}

/// The scan of the second pass skips the empty middle of the bucket of `c`.
pub proof fn lemma_skip_s(
    t: Seq<int>,
    by_suffix: bool,
    b: Seq<Span>,
    sa: Seq<u32>,
    pos: Seq<int>,
    c: int,
)
    requires
        0 <= c < b.len(),
        s_inv(t, by_suffix, b, sa, pos, b[c].j as int),
    ensures
        s_inv(t, by_suffix, b, sa, pos, b[c].i as int),
{
    let n = t.len() as int;
    assert(b[c].head == bucket_head(t, c));
    lemma_bucket_head_mono(t, c, c);
    assert forall|v: int| 1 <= v < n && b[c].i <= #[trigger] pos[v] < b[c].j implies !is_s(
        t,
        v - 1,
    ) || pos[v - 1] >= 0 by {
        let d = t[v];
        assert(b[d].head == bucket_head(t, d));
        if d != c {
            lemma_buckets_apart(t, c, d, pos[v], pos[v]);
        }
    }
    lemma_advance_s(t, by_suffix, b, sa, pos, b[c].j as int, b[c].i as int);
}

/// When the second pass has scanned everything, every suffix stands in its
/// bucket.
pub proof fn lemma_s_present(
    t: Seq<int>,
    by_suffix: bool,
    b: Seq<Span>,
    sa: Seq<u32>,
    pos: Seq<int>,
    v: int,
)
    requires
        s_inv(t, by_suffix, b, sa, pos, 1),
        0 <= v <= t.len(),
    ensures
        0 <= pos[v] <= t.len(),
        sa[pos[v]] == v,
    decreases t.len() - v,
{
    let n = t.len() as int;
    if v < n && is_s(t, v) {
        lemma_s_present(t, by_suffix, b, sa, pos, v + 1);
        let d = t[v + 1];
        assert(b[d].head == bucket_head(t, d));
        lemma_bucket_head_mono(t, d, d);
        assert(s_compl(t, pos, 1, v + 1));
    }
}

/// After both passes the array holds every suffix once, in order.
pub proof fn lemma_induced(t: Seq<int>, by_suffix: bool, b: Seq<Span>, sa: Seq<u32>, pos: Seq<int>)
    requires
        s_inv(t, by_suffix, b, sa, pos, 1),
    ensures
        is_permutation(t.len() as int, sa),
        forall|p: int, q: int|
            0 <= p < q < sa.len() ==> le(
                t,
                by_suffix,
                true,
                #[trigger] sa[p] as int,
                #[trigger] sa[q] as int,
            ),
{
    let n = t.len() as int;
    assert forall|v: int| 0 <= v <= n implies 0 <= #[trigger] pos[v] <= n && sa[pos[v]] == v by {
        lemma_s_present(t, by_suffix, b, sa, pos, v);
    }
    assert(is_injection(pos));
    assert forall|p: int| 0 <= p <= n implies #[trigger] sa[p] <= n && pos[sa[p] as int] == p by {
        lemma_injection_onto(pos, p);
    }
    assert forall|v: int| 0 <= v <= n implies #[trigger] occurs_in(sa, v) by {
        assert(sa[pos[v]] == v);
    }
    assert forall|p: int, q: int| 0 <= p < q < sa.len() implies le(
        t,
        by_suffix,
        true,
        #[trigger] sa[p] as int,
        #[trigger] sa[q] as int,
    ) by {
        assert(ordered(t, by_suffix, true, pos, sa[p] as int, sa[q] as int));
    }
}

} // verus!
