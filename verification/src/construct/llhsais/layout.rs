//! How the workspace holds the buckets while L-type suffixes are placed:
//! without a bucket array, the state of a bucket stands in its own places.
use vstd::prelude::*;
use crate::construct::llhsais::pointers::{lemma_pure, pointered, size};
use crate::construct::llhsais::{EMPTY, MULTI, UNIQUE};
use crate::sais::model::{bucket_head, is_s, lemma_bucket_head_mono, lemma_bucket_not_empty};
use crate::sais::state::{
    in_back, in_front, lemma_buckets_apart, lemma_place_front, occupied, placed,
    push_front_spans,
};
use crate::sais::utils::Span;
use crate::construct::sacak::scan::{cleared, find_bucket, in_gap, lemma_find_bucket};
use crate::sais::count::{lemma_count_ranges, lemma_count_symbol, lemma_injection_count};
use crate::sais::induce::{l_inv, lemma_advance_l, lemma_l_present};
use crate::sais::model::{is_lms, lemma_bucket_head_end, lemma_last_is_l};

verus! {

/// Whether the position `i` has the symbol `p` and is L-type.
pub open spec fn l_at(u: Seq<int>, p: int, i: int) -> bool {
    0 <= i < u.len() && u[i] == p && !is_s(u, i)
}

/// Whether the symbol `p` stands at L-type positions.
pub open spec fn has_l(u: Seq<int>, p: int) -> bool {
    exists|i: int| #[trigger] l_at(u, p, i)
}

/// The role of a place that holds nothing.
pub open spec fn free() -> int {
    -1
}

/// The role of a place that holds the mark of a bucket.
pub open spec fn mark() -> int {
    -2
}

/// The role of a place that holds the fill count of a bucket.
pub open spec fn counter() -> int {
    -3
}

/// What the workspace stands for.
pub struct Layout {
    /// The array as it would be with every suffix in its final place.
    pub log: Seq<u32>,
    /// The final place of each suffix that stands in a bucket, or -1.
    pub pos: Seq<int>,
    /// The role of each place: `free`, `mark`, `counter`, or the final place
    /// of the suffix that it holds.
    pub cell: Seq<int>,
    /// Where the suffix of each final place stands now.
    pub phys: Seq<int>,
    /// For each symbol, whether its bucket is kept behind a mark and a count.
    pub multi: Seq<bool>,
}

/// Whether the first places of the bucket of the L-type symbol `p` say how
/// it is filled: an empty bucket by its mark, a bucket kept with its count
/// by mark and count.
pub open spec fn head_ok(u: Seq<int>, b: Seq<Span>, sa: Seq<u32>, y: Layout, p: int) -> bool {
    let k = b[p].i - p;
    &&& k == 0 ==> {
        &&& !y.multi[p]
        &&& y.cell[p] == mark()
        &&& sa[p] == (if size(u, p) == 1 {
            UNIQUE
        } else {
            MULTI
        })
        &&& size(u, p) >= 2 ==> y.cell[p + 1] == free()
    }
    &&& y.multi[p] ==> {
        &&& k >= 1
        &&& y.cell[p] == mark()
        &&& sa[p] == MULTI
        &&& y.cell[p + 1] == counter()
        &&& sa[p + 1] == k
        &&& p + k + 2 <= u.len() + 1
        &&& size(u, p) >= 2
    }
}

/// Whether the layout `y` tells what the workspace `sa` holds, while the
/// L-type suffixes are placed in the buckets `b` of the pointers `u`.
#[verifier::opaque]
pub open spec fn rep_l(u: Seq<int>, b: Seq<Span>, sa: Seq<u32>, y: Layout) -> bool {
    let n = u.len() as int;
    &&& pointered(u)
    &&& n < MULTI
    &&& b.len() == n + 1
    &&& sa.len() == n + 1
    &&& y.cell.len() == n + 1
    &&& y.phys.len() == n + 1
    &&& y.multi.len() == n + 1
    &&& placed(u, b, y.log, y.pos)
    &&& forall|x: int| 0 <= x <= n ==> -3 <= #[trigger] y.cell[x] <= n
    &&& forall|x: int| 0 <= x <= n && #[trigger] y.cell[x] == free() ==> sa[x] == EMPTY
    &&& forall|x: int|
        0 <= x <= n && #[trigger] y.cell[x] >= 0 ==> {
            &&& y.log[y.cell[x]] <= n
            &&& y.pos[y.log[y.cell[x]] as int] == y.cell[x]
            &&& y.phys[y.cell[x]] == x
            &&& sa[x] == y.log[y.cell[x]]
        }
    &&& forall|v: int|
        0 <= v <= n && #[trigger] y.pos[v] >= 0 ==> {
            &&& 0 <= y.phys[y.pos[v]] <= n
            &&& y.cell[y.phys[y.pos[v]]] == y.pos[v]
            &&& y.phys[y.pos[v]] == y.pos[v] + if v < n && !is_s(u, v) && y.multi[u[v]] {
                2int
            } else {
                0int
            }
        }
    &&& forall|p: int| 1 <= p <= n && has_l(u, p) ==> #[trigger] head_ok(u, b, sa, y, p)
    &&& forall|x: int|
        0 <= x <= n && #[trigger] y.cell[x] == mark() ==> has_l(u, x) && (b[x].i == x || y.multi[x])
    &&& forall|x: int|
        0 <= x <= n && #[trigger] y.cell[x] == counter() ==> x >= 2 && has_l(u, x - 1) && y.multi[x
            - 1]
    &&& forall|p: int| 0 <= p <= n && #[trigger] y.multi[p] ==> p >= 1 && has_l(u, p)
}

/// The bucket of an L-type symbol begins at the symbol.
pub proof fn lemma_l_bucket(u: Seq<int>, b: Seq<Span>, p: int)
    requires
        pointered(u),
        crate::sais::state::spans_wf(u, b),
        has_l(u, p),
    ensures
        1 <= p < b.len(),
        b[p].head == p,
        b[p].tail == p + size(u, p),
        size(u, p) >= 1,
        p + size(u, p) <= u.len() + 1,
{
    let i = choose|i: int| #[trigger] l_at(u, p, i);
    assert(l_at(u, p, i));
    assert(1 <= u[i] <= u.len());
    assert(b[p].head == bucket_head(u, p));
    lemma_bucket_not_empty(u, i, u.len() as int);
    lemma_bucket_head_mono(u, p + 1, p + 1);
}

/// A suffix with an L-type symbol is L-type.
pub proof fn lemma_l_symbol(u: Seq<int>, p: int, v: int)
    requires
        pointered(u),
        has_l(u, p),
        0 <= v < u.len(),
        u[v] == p,
    ensures
        !is_s(u, v),
{
    let i = choose|i: int| #[trigger] l_at(u, p, i);
    assert(l_at(u, p, i));
    lemma_pure(u, i, v);
}

/// No bucket of an L-type symbol begins inside another bucket.
pub proof fn lemma_no_head_inside(u: Seq<int>, b: Seq<Span>, p: int, x: int)
    requires
        pointered(u),
        crate::sais::state::spans_wf(u, b),
        0 <= p < b.len(),
        b[p].head < x < b[p].tail,
    ensures
        !has_l(u, x),
{
    if has_l(u, x) {
        lemma_l_bucket(u, b, x);
        assert(b[p].head == bucket_head(u, p));
        assert(b[x].head == bucket_head(u, x));
        if x != p {
            lemma_buckets_apart(u, p, x, x, x);
        }
    }
}

/// A place that holds the empty mark holds nothing.
pub proof fn lemma_empty_is_free(u: Seq<int>, b: Seq<Span>, sa: Seq<u32>, y: Layout, x: int)
    requires
        rep_l(u, b, sa, y),
        0 <= x <= u.len(),
        sa[x] == EMPTY,
    ensures
        y.cell[x] == free(),
{
    reveal(rep_l);
    if y.cell[x] == mark() {
        assert(head_ok(u, b, sa, y, x));
    } else if y.cell[x] == counter() {
        assert(head_ok(u, b, sa, y, x - 1));
        lemma_l_bucket(u, b, x - 1);
    } else if y.cell[x] >= 0 {
    }
}

/// In a bucket that is kept without a count, the place behind the filled
/// ones holds nothing.
pub proof fn lemma_flat_next_free(u: Seq<int>, b: Seq<Span>, sa: Seq<u32>, y: Layout, p: int)
    requires
        rep_l(u, b, sa, y),
        has_l(u, p),
        !y.multi[p],
        p < b[p].i < b[p].j,
    ensures
        y.cell[b[p].i as int] == free(),
{
    reveal(rep_l);
    let n = u.len() as int;
    let x = b[p].i as int;
    lemma_l_bucket(u, b, p);
    if y.cell[x] == mark() {
        lemma_no_head_inside(u, b, p, x);
    } else if y.cell[x] == counter() {
        if x - 1 > p {
            lemma_no_head_inside(u, b, p, x - 1);
        }
    } else if y.cell[x] >= 0 {
        let lp = y.cell[x];
        let v = y.log[lp] as int;
        assert(y.pos[v] == lp);
        assert(y.pos[v] >= 0);
        if lp == 0 {
            assert(v == n);
        } else {
            assert(v < n);
            let d = u[v];
            assert(b[d].head == bucket_head(u, d));
            assert(b[p].head == bucket_head(u, p));
            if lp == x {
                if d != p {
                    lemma_buckets_apart(u, p, d, x, x);
                }
                lemma_l_symbol(u, p, v);
            } else {
                assert(lp == x - 2);
                if lp >= p {
                    if d != p {
                        lemma_buckets_apart(u, p, d, lp, lp);
                    }
                } else {
                    // the bucket before this one would reach over its first place
                    assert(lp == p - 1);
                    assert(y.multi[d]);
                    assert(has_l(u, d));
                    assert(head_ok(u, b, sa, y, d));
                    lemma_l_bucket(u, b, d);
                    assert(occupied(b, p, p as int));
                    let v0 = y.log[p] as int;
                    assert(y.pos[v0] == p);
                    lemma_l_symbol(u, p, v0);
                    assert(y.phys[p] == p);
                    assert(y.cell[p] == p);
                    if d != p {
                        lemma_buckets_apart(u, p, d, p, lp);
                    }
                    if d == p - 1 {
                        assert(y.cell[d + 1] == counter());
                    } else {
                        assert(in_front(b, d, p - 2));
                        assert(occupied(b, d, p - 2));
                        let v2 = y.log[p - 2] as int;
                        assert(y.pos[v2] == p - 2);
                        lemma_l_symbol(u, d, v2);
                        assert(y.phys[p - 2] == p);
                    }
                }
            }
        }
    }
}

/// The layout after the suffix `w` has been written to the place where it
/// belongs, in a bucket that is kept without a count.
pub open spec fn flat_put(u: Seq<int>, b: Seq<Span>, y: Layout, w: int) -> Layout {
    let q = b[u[w]].i as int;
    Layout {
        log: y.log.update(q, w as u32),
        pos: y.pos.update(w, q),
        cell: y.cell.update(q, q),
        phys: y.phys.update(q, q),
        multi: y.multi,
    }
}

/// Writing an L-type suffix to its place in a bucket that is kept without a
/// count: the first of its bucket over the mark, a later one behind the
/// others.
#[verifier::rlimit(100)]
#[verifier::spinoff_prover]
pub proof fn lemma_flat_put(u: Seq<int>, b: Seq<Span>, sa: Seq<u32>, y: Layout, w: int)
    requires
        rep_l(u, b, sa, y),
        0 <= w < u.len(),
        !is_s(u, w),
        y.pos[w] < 0,
        !y.multi[u[w]],
    ensures
        has_l(u, u[w]),
        u[w] <= b[u[w]].i < b[u[w]].j,
        b[u[w]].i <= u.len(),
        rep_l(
            u,
            push_front_spans(b, u[w]),
            sa.update(b[u[w]].i as int, w as u32),
            flat_put(u, b, y, w),
        ),
{
    reveal(rep_l);
    let n = u.len() as int;
    let p = u[w];
    let q = b[p].i as int;
    let b2 = push_front_spans(b, p);
    let sa2 = sa.update(q, w as u32);
    let y2 = flat_put(u, b, y, w);
    assert(l_at(u, p, w));
    lemma_l_bucket(u, b, p);
    lemma_place_front(u, b, y.log, y.pos, w);
    assert(head_ok(u, b, sa, y, p));
    if q > p {
        lemma_flat_next_free(u, b, sa, y, p);
    }
    // no suffix stood at the place before
    assert forall|v: int| 0 <= v <= n && v != w && #[trigger] y.pos[v] >= 0 implies y.pos[v] != q
        && y.phys[y.pos[v]] != q by {
        let lp = y.pos[v];
        assert(y.cell[y.phys[lp]] == lp);
        if v < n {
            let d = u[v];
            assert(b[d].head == bucket_head(u, d));
            if d != p {
                lemma_buckets_apart(u, p, d, q, lp);
            } else {
                lemma_l_symbol(u, p, v);
            }
        }
    }
    assert forall|x: int| 0 <= x <= n && #[trigger] y2.cell[x] >= 0 implies {
        &&& y2.log[y2.cell[x]] <= n
        &&& y2.pos[y2.log[y2.cell[x]] as int] == y2.cell[x]
        &&& y2.phys[y2.cell[x]] == x
        &&& sa2[x] == y2.log[y2.cell[x]]
    } by {
        if x != q {
            let lp = y.cell[x];
            let v = y.log[lp] as int;
            assert(y.pos[v] == lp);
        }
    }
    assert forall|v: int| 0 <= v <= n && #[trigger] y2.pos[v] >= 0 implies {
        &&& 0 <= y2.phys[y2.pos[v]] <= n
        &&& y2.cell[y2.phys[y2.pos[v]]] == y2.pos[v]
        &&& y2.phys[y2.pos[v]] == y2.pos[v] + if v < n && !is_s(u, v) && y2.multi[u[v]] {
            2int
        } else {
            0int
        }
    } by {
        if v != w {
            assert(y.pos[v] >= 0);
        }
    }
    assert forall|d: int| 1 <= d <= n && has_l(u, d) implies #[trigger] head_ok(u, b2, sa2, y2, d) by {
        assert(head_ok(u, b, sa, y, d));
        lemma_l_bucket(u, b, d);
        if d != p {
            assert(b[d].head == bucket_head(u, d));
            assert(b[p].head == bucket_head(u, p));
            lemma_buckets_apart(u, p, d, q, d);
            if d + 1 == q {
                // then `d` is the bucket before, of one place
                if size(u, d) >= 2 {
                    lemma_buckets_apart(u, p, d, q, d + 1);
                }
            }
        }
    }
    assert forall|x: int| 0 <= x <= n && #[trigger] y2.cell[x] == mark() implies has_l(u, x) && (
    b2[x].i == x || y2.multi[x]) by {
        assert(y.cell[x] == mark());
        if x == p {
            assert(head_ok(u, b, sa, y, p));
        }
    }
    assert forall|x: int| 0 <= x <= n && #[trigger] y2.cell[x] == counter() implies x >= 2 && has_l(
        u,
        x - 1,
    ) && y2.multi[x - 1] by {
        assert(y.cell[x] == counter());
    }
    assert forall|x: int| 0 <= x <= n && #[trigger] y2.cell[x] == free() implies sa2[x] == EMPTY by {
        assert(y.cell[x] == free());
    }
}

/// The layout after the suffix `w` has been written behind the others of
/// its bucket, which is kept with its count: two places further on than
/// where it belongs.
pub open spec fn multi_put(u: Seq<int>, b: Seq<Span>, y: Layout, w: int) -> Layout {
    let p = u[w];
    let q = b[p].i as int;
    Layout {
        log: y.log.update(q, w as u32),
        pos: y.pos.update(w, q),
        cell: y.cell.update(p + 1, counter()).update(q + 2, q),
        phys: y.phys.update(q, q + 2),
        multi: y.multi.update(p, true),
    }
}

/// Writing an L-type suffix to a bucket that is kept with its count, or
/// that begins to be: the place behind the others holds nothing.
#[verifier::rlimit(100)]
#[verifier::spinoff_prover]
pub proof fn lemma_multi_put(u: Seq<int>, b: Seq<Span>, sa: Seq<u32>, y: Layout, w: int)
    requires
        rep_l(u, b, sa, y),
        0 <= w < u.len(),
        !is_s(u, w),
        y.pos[w] < 0,
        y.multi[u[w]] || (b[u[w]].i == u[w] && size(u, u[w]) >= 2),
        b[u[w]].i + 2 <= u.len(),
        sa[b[u[w]].i + 2] == EMPTY,
    ensures
        has_l(u, u[w]),
        u[w] <= b[u[w]].i < b[u[w]].j,
        rep_l(
            u,
            push_front_spans(b, u[w]),
            sa.update(u[w] + 1, (b[u[w]].i - u[w] + 1) as u32).update(b[u[w]].i + 2, w as u32),
            multi_put(u, b, y, w),
        ),
{
    reveal(rep_l);
    let n = u.len() as int;
    let p = u[w];
    let q = b[p].i as int;
    let k = q - p;
    let b2 = push_front_spans(b, p);
    let sa2 = sa.update(p + 1, (k + 1) as u32).update(q + 2, w as u32);
    let y2 = multi_put(u, b, y, w);
    assert(l_at(u, p, w));
    lemma_l_bucket(u, b, p);
    lemma_place_front(u, b, y.log, y.pos, w);
    assert(head_ok(u, b, sa, y, p));
    lemma_empty_is_free(u, b, sa, y, q + 2);
    // no suffix stood at the place, nor is one kept at the one that is written
    assert forall|v: int| 0 <= v <= n && v != w && #[trigger] y.pos[v] >= 0 implies y.pos[v] != q
        && y.phys[y.pos[v]] != q + 2 && y.phys[y.pos[v]] != p + 1 by {
        let lp = y.pos[v];
        assert(y.cell[y.phys[lp]] == lp);
        if v < n {
            let d = u[v];
            assert(b[d].head == bucket_head(u, d));
            if d != p {
                lemma_buckets_apart(u, p, d, q, lp);
            } else {
                lemma_l_symbol(u, p, v);
            }
        }
    }
    assert forall|x: int| 0 <= x <= n && #[trigger] y2.cell[x] >= 0 implies {
        &&& y2.log[y2.cell[x]] <= n
        &&& y2.pos[y2.log[y2.cell[x]] as int] == y2.cell[x]
        &&& y2.phys[y2.cell[x]] == x
        &&& sa2[x] == y2.log[y2.cell[x]]
    } by {
        if x != q + 2 {
            let lp = y.cell[x];
            let v = y.log[lp] as int;
            assert(y.pos[v] == lp);
        }
    }
    assert forall|v: int| 0 <= v <= n && #[trigger] y2.pos[v] >= 0 implies {
        &&& 0 <= y2.phys[y2.pos[v]] <= n
        &&& y2.cell[y2.phys[y2.pos[v]]] == y2.pos[v]
        &&& y2.phys[y2.pos[v]] == y2.pos[v] + if v < n && !is_s(u, v) && y2.multi[u[v]] {
            2int
        } else {
            0int
        }
    } by {
        if v != w {
            assert(y.pos[v] >= 0);
            if v < n && u[v] == p {
                lemma_l_symbol(u, p, v);
                // a suffix of this bucket stood in it already: it is kept with its count
                assert(crate::sais::state::in_front(b, p, y.pos[v]));
            }
        }
    }
    assert forall|d: int| 1 <= d <= n && has_l(u, d) implies #[trigger] head_ok(u, b2, sa2, y2, d) by {
        assert(head_ok(u, b, sa, y, d));
        lemma_l_bucket(u, b, d);
        if d != p {
            assert(b[d].head == bucket_head(u, d));
            assert(b[p].head == bucket_head(u, p));
            lemma_buckets_apart(u, p, d, p, d);
            if p < d < p + size(u, p) {
                lemma_no_head_inside(u, b, p, d);
            }
            if d == q + 1 && k >= 1 {
                assert(in_front(b, p, q - 1));
                assert(occupied(b, p, q - 1));
                let v = y.log[q - 1] as int;
                assert(y.pos[v] == q - 1);
                lemma_l_symbol(u, p, v);
                assert(y.cell[q + 1] == q - 1);
            }
        }
    }
    assert forall|x: int| 0 <= x <= n && #[trigger] y2.cell[x] == mark() implies has_l(u, x) && (
    b2[x].i == x || y2.multi[x]) by {
        assert(y.cell[x] == mark());
    }
    assert forall|x: int| 0 <= x <= n && #[trigger] y2.cell[x] == counter() implies x >= 2 && has_l(
        u,
        x - 1,
    ) && y2.multi[x - 1] by {
        if x != p + 1 {
            assert(y.cell[x] == counter());
        }
    }
    assert forall|x: int| 0 <= x <= n && #[trigger] y2.cell[x] == free() implies sa2[x] == EMPTY by {
        assert(y.cell[x] == free());
    }
}

/// The workspace after the bucket of `p`, kept with its count, has been
/// moved to its own places and has taken `w` behind the others.
pub open spec fn flushed(sa: Seq<u32>, y: Layout, p: int, k: int, w: u32) -> Seq<u32> {
    Seq::new(
        sa.len(),
        |x: int|
            if p <= x < p + k {
                y.log[x]
            } else if x == p + k {
                w
            } else if x == p + k + 1 {
                EMPTY
            } else {
                sa[x]
            },
    )
}

/// The layout after that.
pub open spec fn flush_put(u: Seq<int>, b: Seq<Span>, y: Layout, w: int) -> Layout {
    let p = u[w];
    let q = b[p].i as int;
    Layout {
        log: y.log.update(q, w as u32),
        pos: y.pos.update(w, q),
        cell: Seq::new(
            y.cell.len(),
            |x: int|
                if p <= x <= q {
                    x
                } else if x == q + 1 {
                    free()
                } else {
                    y.cell[x]
                },
        ),
        phys: Seq::new(
            y.phys.len(),
            |x: int|
                if p <= x <= q {
                    x
                } else {
                    y.phys[x]
                },
        ),
        multi: y.multi.update(p, false),
    }
}

/// Writing an L-type suffix to a bucket that is kept with its count, with
/// no room behind it: the bucket moves to its own places.
#[verifier::rlimit(100)]
#[verifier::spinoff_prover]
pub proof fn lemma_flush_put(u: Seq<int>, b: Seq<Span>, sa: Seq<u32>, y: Layout, w: int)
    requires
        rep_l(u, b, sa, y),
        0 <= w < u.len(),
        !is_s(u, w),
        y.pos[w] < 0,
        y.multi[u[w]],
    ensures
        has_l(u, u[w]),
        u[w] < b[u[w]].i < b[u[w]].j,
        b[u[w]].i + 1 <= u.len(),
        rep_l(
            u,
            push_front_spans(b, u[w]),
            flushed(sa, y, u[w], b[u[w]].i - u[w], w as u32),
            flush_put(u, b, y, w),
        ),
{
    reveal(rep_l);
    let n = u.len() as int;
    let p = u[w];
    let q = b[p].i as int;
    let k = q - p;
    let b2 = push_front_spans(b, p);
    let sa2 = flushed(sa, y, p, k, w as u32);
    let y2 = flush_put(u, b, y, w);
    assert(l_at(u, p, w));
    lemma_l_bucket(u, b, p);
    lemma_place_front(u, b, y.log, y.pos, w);
    assert(head_ok(u, b, sa, y, p));
    // what the places of the kept bucket held
    assert forall|x: int| p + 2 <= x < q + 2 implies #[trigger] y.cell[x] == x - 2 by {
        assert(in_front(b, p, x - 2));
        assert(occupied(b, p, x - 2));
        let v = y.log[x - 2] as int;
        assert(y.pos[v] == x - 2);
        lemma_l_symbol(u, p, v);
    }
    assert forall|v: int| 0 <= v <= n && v != w && #[trigger] y.pos[v] >= 0 implies (if v < n
        && u[v] == p {
        p <= y.pos[v] < q
    } else {
        !(p <= y.pos[v] <= q) && !(p <= y.phys[y.pos[v]] <= q + 1)
    }) by {
        let lp = y.pos[v];
        assert(y.cell[y.phys[lp]] == lp);
        if v < n {
            let d = u[v];
            assert(b[d].head == bucket_head(u, d));
            if d != p {
                lemma_buckets_apart(u, p, d, p, lp);
                lemma_buckets_apart(u, p, d, q, lp);
                if p + 2 <= y.phys[lp] < q + 2 {
                    lemma_buckets_apart(u, p, d, y.phys[lp] - 2, lp);
                }
            } else {
                lemma_l_symbol(u, p, v);
            }
        }
    }
    assert forall|x: int| 0 <= x <= n && #[trigger] y2.cell[x] >= 0 implies {
        &&& y2.log[y2.cell[x]] <= n
        &&& y2.pos[y2.log[y2.cell[x]] as int] == y2.cell[x]
        &&& y2.phys[y2.cell[x]] == x
        &&& sa2[x] == y2.log[y2.cell[x]]
    } by {
        if p <= x < q {
            assert(in_front(b, p, x));
            assert(occupied(b, p, x));
            let v = y.log[x] as int;
            assert(y.pos[v] == x);
        } else if x == q {
        } else {
            let lp = y.cell[x];
            let v = y.log[lp] as int;
            assert(y.pos[v] == lp);
            assert(y.pos[v] >= 0);
        }
    }
    assert forall|v: int| 0 <= v <= n && #[trigger] y2.pos[v] >= 0 implies {
        &&& 0 <= y2.phys[y2.pos[v]] <= n
        &&& y2.cell[y2.phys[y2.pos[v]]] == y2.pos[v]
        &&& y2.phys[y2.pos[v]] == y2.pos[v] + if v < n && !is_s(u, v) && y2.multi[u[v]] {
            2int
        } else {
            0int
        }
    } by {
        if v != w {
            assert(y.pos[v] >= 0);
        }
    }
    assert forall|d: int| 1 <= d <= n && has_l(u, d) implies #[trigger] head_ok(u, b2, sa2, y2, d) by {
        assert(head_ok(u, b, sa, y, d));
        lemma_l_bucket(u, b, d);
        if d != p {
            assert(b[d].head == bucket_head(u, d));
            assert(b[p].head == bucket_head(u, p));
            lemma_buckets_apart(u, p, d, p, d);
            if p < d < p + size(u, p) {
                lemma_no_head_inside(u, b, p, d);
            }
            if p <= d + 1 <= q + 1 || p <= d <= q + 1 {
                if size(u, d) >= 2 {
                    lemma_buckets_apart(u, p, d, p, d + 1);
                }
            }
        }
    }
    assert forall|x: int| 0 <= x <= n && #[trigger] y2.cell[x] == mark() implies has_l(u, x) && (
    b2[x].i == x || y2.multi[x]) by {
        assert(y.cell[x] == mark());
    }
    assert forall|x: int| 0 <= x <= n && #[trigger] y2.cell[x] == counter() implies x >= 2 && has_l(
        u,
        x - 1,
    ) && y2.multi[x - 1] by {
        assert(y.cell[x] == counter());
    }
    assert forall|x: int| 0 <= x <= n && #[trigger] y2.cell[x] == free() implies sa2[x] == EMPTY by {
        if x != q + 1 {
            assert(y.cell[x] == free());
        }
    }
}

/// What stands in the filled front part of a bucket, and where.
pub proof fn lemma_front_entry(u: Seq<int>, b: Seq<Span>, sa: Seq<u32>, y: Layout, p: int, z: int)
    requires
        rep_l(u, b, sa, y),
        has_l(u, p),
        p <= z < b[p].i,
    ensures
        y.log[z] < u.len(),
        u[y.log[z] as int] == p,
        y.pos[y.log[z] as int] == z,
        y.phys[z] == z + if y.multi[p] { 2int } else { 0int },
        y.cell[y.phys[z]] == z,
        sa[y.phys[z]] == y.log[z],
{
    reveal(rep_l);
    lemma_l_bucket(u, b, p);
    assert(in_front(b, p, z));
    assert(occupied(b, p, z));
    let v = y.log[z] as int;
    assert(y.pos[v] == z);
    lemma_l_symbol(u, p, v);
}

/// A suffix that stands in a bucket does not stand where the next suffix
/// of any bucket is to go.
pub proof fn lemma_not_next(u: Seq<int>, b: Seq<Span>, sa: Seq<u32>, y: Layout, p: int, lp: int)
    requires
        rep_l(u, b, sa, y),
        has_l(u, p),
        b[p].i < b[p].j,
        0 <= lp <= u.len(),
        y.cell[y.phys[lp]] == lp,
        0 <= y.phys[lp] <= u.len(),
    ensures
        lp != b[p].i,
        y.log[lp] <= u.len(),
        y.pos[y.log[lp] as int] == lp,
{
    reveal(rep_l);
    let v = y.log[lp] as int;
    lemma_l_bucket(u, b, p);
    assert(y.cell[y.phys[lp]] >= 0);
    assert(y.pos[v] == lp);
    assert(y.pos[v] >= 0);
    if v < u.len() {
        let d = u[v];
        assert(b[d].head == bucket_head(u, d));
        assert(b[p].head == bucket_head(u, p));
        if d != p {
            if b[p].i < b[p].tail {
                lemma_buckets_apart(u, p, d, b[p].i as int, lp);
            }
        } else {
            lemma_l_symbol(u, p, v);
        }
    }
}

/// What the layout says of every workspace.
pub proof fn lemma_rep_l(u: Seq<int>, b: Seq<Span>, sa: Seq<u32>, y: Layout)
    requires
        rep_l(u, b, sa, y),
    ensures
        pointered(u),
        u.len() < MULTI,
        b.len() == u.len() + 1,
        sa.len() == u.len() + 1,
        y.cell.len() == u.len() + 1,
        y.phys.len() == u.len() + 1,
        y.multi.len() == u.len() + 1,
        placed(u, b, y.log, y.pos),
        forall|p: int| 1 <= p <= u.len() && has_l(u, p) ==> #[trigger] head_ok(u, b, sa, y, p),
{
    reveal(rep_l);
}

/// What the layout says of one place of the workspace.
pub proof fn lemma_cell(u: Seq<int>, b: Seq<Span>, sa: Seq<u32>, y: Layout, x: int)
    requires
        rep_l(u, b, sa, y),
        0 <= x <= u.len(),
    ensures
        -3 <= y.cell[x] <= u.len(),
        y.cell[x] == free() ==> sa[x] == EMPTY,
        y.cell[x] == mark() ==> has_l(u, x) && (sa[x] == UNIQUE || sa[x] == MULTI) && (b[x].i == x
            || y.multi[x]) && (sa[x] == MULTI ==> size(u, x) >= 2 && x + 2 <= u.len() + 1
            && y.cell[x + 1] != mark() && y.cell[x + 1] < 0),
        y.cell[x] == counter() ==> 1 <= sa[x] <= u.len() && x >= 2 && y.cell[x - 1] == mark()
            && sa[x - 1] == MULTI,
        y.cell[x] >= 0 ==> {
            &&& sa[x] <= u.len()
            &&& sa[x] == y.log[y.cell[x]]
            &&& y.pos[sa[x] as int] == y.cell[x]
            &&& y.phys[y.cell[x]] == x
        },
{
    reveal(rep_l);
    if y.cell[x] == mark() {
        assert(head_ok(u, b, sa, y, x));
        lemma_l_bucket(u, b, x);
    }
    if y.cell[x] == counter() {
        assert(head_ok(u, b, sa, y, x - 1));
        lemma_l_bucket(u, b, x - 1);
    }
}

/// Suffixes stand in the workspace in the order of their final places.
pub proof fn lemma_phys_mono(u: Seq<int>, b: Seq<Span>, sa: Seq<u32>, y: Layout, v1: int, v2: int)
    requires
        rep_l(u, b, sa, y),
        0 <= v1 <= u.len(),
        0 <= v2 <= u.len(),
        0 <= y.pos[v1] < y.pos[v2],
    ensures
        y.phys[y.pos[v1]] < y.phys[y.pos[v2]],
{
    reveal(rep_l);
    let lp1 = y.pos[v1];
    let lp2 = y.pos[v2];
    assert(y.pos[v1] >= 0 && y.pos[v2] >= 0);
    assert(y.cell[y.phys[lp1]] == lp1);
    assert(y.cell[y.phys[lp2]] == lp2);
    if y.phys[lp1] == lp1 + 2 && lp2 <= lp1 + 2 {
        let p1 = u[v1];
        assert(l_at(u, p1, v1));
        lemma_l_bucket(u, b, p1);
        assert(head_ok(u, b, sa, y, p1));
        assert(in_front(b, p1, lp1));
        if lp2 == lp1 + 1 && y.phys[lp2] == lp2 {
            if lp1 > p1 {
                lemma_front_entry(u, b, sa, y, p1, lp1 - 1);
            }
        }
    }
}

/// Whether the scan of the first pass, at the place `x` of the workspace,
/// has met the suffixes whose final places lie before `xlog`, and no others.
pub open spec fn scanned_l(y: Layout, xlog: int, x: int) -> bool {
    forall|v: int|
        0 <= v < y.pos.len() && #[trigger] y.pos[v] >= 0 ==> (y.pos[v] < xlog <==> y.phys[y.pos[v]]
            < x)
}

/// The scan moves over a place that holds no suffix.
pub proof fn lemma_scan_over(
    u: Seq<int>,
    b: Seq<Span>,
    sa: Seq<u32>,
    y: Layout,
    xlog: int,
    x: int,
    step: int,
)
    requires
        rep_l(u, b, sa, y),
        scanned_l(y, xlog, x),
        0 <= x <= u.len(),
        step == 1 || (step == 2 && (x + 1 > u.len() || y.cell[x + 1] < 0)),
        y.cell[x] < 0,
    ensures
        scanned_l(y, xlog, x + step),
{
    reveal(rep_l);
    assert forall|v: int| 0 <= v < y.pos.len() && #[trigger] y.pos[v] >= 0 implies (y.pos[v]
        < xlog <==> y.phys[y.pos[v]] < x + step) by {
        assert(y.cell[y.phys[y.pos[v]]] == y.pos[v]);
    }
}

/// The scan has met the suffix at the place `x` of the workspace: it has
/// met all that belong before it.
#[verifier::rlimit(100)]
#[verifier::spinoff_prover]
pub proof fn lemma_scan_at(
    u: Seq<int>,
    by_suffix: bool,
    b: Seq<Span>,
    sa: Seq<u32>,
    y: Layout,
    xlog: int,
    x: int,
)
    requires
        rep_l(u, b, sa, y),
        l_inv(u, by_suffix, b, y.log, y.pos, xlog),
        scanned_l(y, xlog, x),
        0 <= xlog,
        0 <= x <= u.len(),
        y.cell[x] >= 0,
    ensures
        l_inv(u, by_suffix, b, y.log, y.pos, y.cell[x]),
        sa[x] <= u.len(),
        y.pos[sa[x] as int] == y.cell[x],
        y.cell[x] == 0 <==> sa[x] == u.len(),
        0 < sa[x] < u.len() ==> ((u[sa[x] - 1] >= u[sa[x] as int]) <==> !is_s(u, sa[x] - 1)),
        sa[x] == u.len() ==> !is_s(u, sa[x] - 1),
{
    reveal(rep_l);
    let n = u.len() as int;
    let lp = y.cell[x];
    let v = sa[x] as int;
    assert(y.pos[v] == lp);
    assert(y.pos[v] >= 0);
    lemma_last_is_l(u);
    if xlog <= lp {
        assert forall|w: int| 1 <= w <= n && xlog <= #[trigger] y.pos[w] < lp implies is_s(
            u,
            w - 1,
        ) || y.pos[w - 1] >= 0 by {
            assert(y.pos[w] >= 0);
            lemma_phys_mono(u, b, sa, y, w, v);
        }
        lemma_advance_l(u, by_suffix, b, y.log, y.pos, xlog, lp);
    } else {
        // the scan has not met this suffix before
        assert(y.phys[lp] < x);
    }
    if 0 < v < n {
        if is_s(u, v) {
            assert(is_lms(u, v));
        }
    }
    if v < n {
        let d = u[v];
        assert(b[d].head == bucket_head(u, d));
        lemma_bucket_head_mono(u, d, d);
    }
}

/// After the suffix at the place `x` of the workspace, the scan goes on
/// behind it.
#[verifier::rlimit(100)]
#[verifier::spinoff_prover]
pub proof fn lemma_scan_next(u: Seq<int>, b: Seq<Span>, sa: Seq<u32>, y: Layout, x: int)
    requires
        rep_l(u, b, sa, y),
        0 <= x <= u.len(),
        y.cell[x] >= 0,
    ensures
        scanned_l(y, y.cell[x] + 1, x + 1),
        x + 1 <= u.len() ==> y.cell[x + 1] != counter(),
{
    reveal(rep_l);
    let lp = y.cell[x];
    let v = y.log[lp] as int;
    assert(y.pos[v] == lp);
    assert forall|w: int| 0 <= w < y.pos.len() && #[trigger] y.pos[w] >= 0 implies (y.pos[w] < lp
        + 1 <==> y.phys[y.pos[w]] < x + 1) by {
        if y.pos[w] < lp {
            lemma_phys_mono(u, b, sa, y, w, v);
        } else if y.pos[w] > lp {
            lemma_phys_mono(u, b, sa, y, v, w);
        }
    }
    if x + 1 <= u.len() && y.cell[x + 1] == counter() {
        assert(head_ok(u, b, sa, y, x));
    }
}

/// When the scan has passed the workspace, it has met every suffix.
pub proof fn lemma_scan_end(
    u: Seq<int>,
    by_suffix: bool,
    b: Seq<Span>,
    sa: Seq<u32>,
    y: Layout,
    xlog: int,
    x: int,
)
    requires
        rep_l(u, b, sa, y),
        l_inv(u, by_suffix, b, y.log, y.pos, xlog),
        scanned_l(y, xlog, x),
        0 <= xlog,
        x > u.len(),
    ensures
        l_inv(u, by_suffix, b, y.log, y.pos, u.len() as int + 1),
{
    reveal(rep_l);
    let n = u.len() as int;
    if xlog <= n + 1 {
        assert forall|w: int| 1 <= w <= n && xlog <= #[trigger] y.pos[w] < n + 1 implies is_s(
            u,
            w - 1,
        ) || y.pos[w - 1] >= 0 by {
            assert(y.pos[w] >= 0);
        }
        lemma_advance_l(u, by_suffix, b, y.log, y.pos, xlog, n + 1);
    } else {
        assert forall|v: int| 0 <= v < n implies #[trigger] crate::sais::induce::l_prov(
            u,
            y.pos,
            n + 1,
            v,
        ) by {
            assert(crate::sais::induce::l_prov(u, y.pos, xlog, v));
            if y.pos[v] >= 0 && !is_s(u, v) {
                assert(y.pos[v + 1] >= 0);
            }
        }
        assert forall|v: int| 1 <= v <= n implies #[trigger] crate::sais::induce::l_compl(
            u,
            y.pos,
            n + 1,
            v,
        ) by {
            assert(crate::sais::induce::l_compl(u, y.pos, xlog, v));
        }
    }
}

/// Whether the workspace holds every suffix that stands in a bucket at
/// its final place, and the empty mark elsewhere.
pub open spec fn flat(u: Seq<int>, b: Seq<Span>, sa: Seq<u32>, pos: Seq<int>) -> bool {
    &&& pointered(u)
    &&& u.len() < MULTI
    &&& b.len() == u.len() + 1
    &&& placed(u, b, sa, pos)
    &&& cleared(b, sa)
}

/// The workspace with a mark in the first place of each bucket of an
/// L-type symbol.
pub open spec fn marked_l(u: Seq<int>, sa: Seq<u32>) -> Seq<u32> {
    Seq::new(
        sa.len(),
        |x: int|
            if has_l(u, x) {
                if size(u, x) == 1 {
                    UNIQUE
                } else {
                    MULTI
                }
            } else {
                sa[x]
            },
    )
}

/// The layout of the workspace before the first pass.
pub open spec fn start_l(u: Seq<int>, sa: Seq<u32>, pos: Seq<int>) -> Layout {
    Layout {
        log: sa,
        pos: pos,
        cell: Seq::new(
            sa.len(),
            |x: int|
                if has_l(u, x) {
                    mark()
                } else if sa[x] <= u.len() && pos[sa[x] as int] == x {
                    x
                } else {
                    free()
                },
        ),
        phys: Seq::new(sa.len(), |x: int| x),
        multi: Seq::new(sa.len(), |x: int| false),
    }
}

/// A bucket of an L-type symbol holds no S-type suffix, so it is filled
/// from its front only.
pub proof fn lemma_l_bucket_back(u: Seq<int>, b: Seq<Span>, sa: Seq<u32>, pos: Seq<int>, p: int)
    requires
        pointered(u),
        placed(u, b, sa, pos),
        has_l(u, p),
    ensures
        b[p].j == b[p].tail,
{
    lemma_l_bucket(u, b, p);
    if b[p].j < b[p].tail {
        let x = b[p].tail - 1;
        assert(in_back(b, p, x));
        assert(occupied(b, p, x));
        let v = sa[x] as int;
        assert(pos[v] == x);
        assert(pos[v] >= 0);
        lemma_l_symbol(u, p, v);
    }
}

/// A place of the workspace lies in a bucket, and holds the empty mark if no
/// suffix stands there.
pub proof fn lemma_flat_cell(u: Seq<int>, b: Seq<Span>, sa: Seq<u32>, pos: Seq<int>, x: int)
    requires
        flat(u, b, sa, pos),
        1 <= x <= u.len(),
    ensures
        0 <= find_bucket(u, x, u.len() as int) <= u.len(),
        b[find_bucket(u, x, u.len() as int)].head <= x < b[find_bucket(u, x, u.len() as int)].tail,
        occupied(b, find_bucket(u, x, u.len() as int), x) || sa[x] == EMPTY,
        occupied(b, find_bucket(u, x, u.len() as int), x) ==> sa[x] < u.len() && pos[sa[x] as int]
            == x && u[sa[x] as int] == find_bucket(u, x, u.len() as int),
        (sa[x] <= u.len() && pos[sa[x] as int] == x) ==> occupied(
            b,
            find_bucket(u, x, u.len() as int),
            x,
        ),
{
    let n = u.len() as int;
    lemma_bucket_head_end(u, n + 1, n);
    lemma_find_bucket(u, x, n);
    let c = find_bucket(u, x, n);
    assert(b[c].head == bucket_head(u, c));
    if !occupied(b, c, x) {
        assert(in_gap(b, c, x));
    }
    if sa[x] <= n && pos[sa[x] as int] == x {
        let v = sa[x] as int;
        assert(pos[v] >= 0);
        assert(v < n);
        let d = u[v];
        assert(b[d].head == bucket_head(u, d));
        if d != c {
            lemma_buckets_apart(u, c, d, x, x);
        }
    }
}

/// With the marks set, the first pass can begin.
#[verifier::rlimit(100)]
#[verifier::spinoff_prover]
pub proof fn lemma_start_l(u: Seq<int>, b: Seq<Span>, sa: Seq<u32>, pos: Seq<int>)
    requires
        flat(u, b, sa, pos),
        forall|p: int| 0 <= p < b.len() ==> (#[trigger] b[p]).i == b[p].head,
    ensures
        rep_l(u, b, marked_l(u, sa), start_l(u, sa, pos)),
        scanned_l(start_l(u, sa, pos), 0, 0),
{
    reveal(rep_l);
    let n = u.len() as int;
    let sa2 = marked_l(u, sa);
    let y = start_l(u, sa, pos);
    assert forall|p: int| has_l(u, p) implies 1 <= p <= n && b[p].i == p && b[p].j == p + size(
        u,
        p,
    ) && size(u, p) >= 1 by {
        lemma_l_bucket(u, b, p);
        lemma_l_bucket_back(u, b, sa, pos, p);
    }
    assert forall|x: int| 0 <= x <= n && y.cell[x] == free() implies sa2[x] == EMPTY by {
        if x >= 1 {
            lemma_flat_cell(u, b, sa, pos, x);
        }
    }
    assert forall|v: int| 0 <= v <= n && #[trigger] y.pos[v] >= 0 implies {
        &&& 0 <= y.phys[y.pos[v]] <= n
        &&& y.cell[y.phys[y.pos[v]]] == y.pos[v]
        &&& y.phys[y.pos[v]] == y.pos[v] + if v < n && !is_s(u, v) && y.multi[u[v]] {
            2int
        } else {
            0int
        }
    } by {
        let lp = pos[v];
        if v < n {
            let d = u[v];
            assert(b[d].head == bucket_head(u, d));
            if has_l(u, lp) {
                if d != lp {
                    lemma_buckets_apart(u, lp, d, lp, lp);
                } else {
                    lemma_l_symbol(u, lp, v);
                }
            }
        }
    }
    assert forall|p: int| 1 <= p <= n && has_l(u, p) implies #[trigger] head_ok(u, b, sa2, y, p) by {
        lemma_l_bucket(u, b, p);
        lemma_l_bucket_back(u, b, sa, pos, p);
        if size(u, p) >= 2 {
            lemma_no_head_inside(u, b, p, p + 1);
            lemma_flat_cell(u, b, sa, pos, p + 1);
            let c = find_bucket(u, p + 1, n);
            assert(b[c].head == bucket_head(u, c));
            assert(b[p].head == bucket_head(u, p));
            if c != p {
                lemma_buckets_apart(u, p, c, p + 1, p + 1);
            }
        }
    }
    assert(scanned_l(y, 0, 0));
}

/// When the first pass has met every suffix, the buckets of the L-type
/// symbols are full.
#[verifier::rlimit(100)]
#[verifier::spinoff_prover]
pub proof fn lemma_l_full(
    u: Seq<int>,
    by_suffix: bool,
    b: Seq<Span>,
    log: Seq<u32>,
    pos: Seq<int>,
    p: int,
)
    requires
        pointered(u),
        l_inv(u, by_suffix, b, log, pos, u.len() as int + 1),
        has_l(u, p),
    ensures
        b[p].i == p + size(u, p),
{
    let n = u.len() as int;
    lemma_l_bucket(u, b, p);
    lemma_l_bucket_back(u, b, log, pos, p);
    let over_values = |v: int| u[v] == p;
    let over_places = |x: int| p <= x < b[p].i || b[p].i <= x < b[p].i;
    assert forall|v: int| 0 <= v < n && #[trigger] over_values(v) implies 0 <= pos[v] < n + 1
        && over_places(pos[v]) by {
        lemma_l_symbol(u, p, v);
        lemma_l_present(u, by_suffix, b, log, pos, v);
        assert(pos[v] >= 0);
    }
    assert forall|v: int, w: int|
        0 <= v < w < n && #[trigger] over_values(v) && #[trigger] over_values(w) implies pos[v]
        != pos[w] by {
        lemma_l_symbol(u, p, v);
        lemma_l_symbol(u, p, w);
        lemma_l_present(u, by_suffix, b, log, pos, v);
        lemma_l_present(u, by_suffix, b, log, pos, w);
        assert(pos[v] >= 0 && pos[w] >= 0);
    }
    lemma_injection_count(pos.take(n), over_values, over_places, n + 1);
    lemma_count_symbol(u, over_values, p, n);
    lemma_count_ranges(over_places, p, b[p].i as int, b[p].i as int, b[p].i as int, n + 1);
}

/// The workspace after the bucket of `p`, kept with its count, has been
/// moved to its own places.
pub open spec fn settled(sa: Seq<u32>, y: Layout, p: int, k: int) -> Seq<u32> {
    Seq::new(
        sa.len(),
        |x: int|
            if p <= x < p + k {
                y.log[x]
            } else if x == p + k || x == p + k + 1 {
                EMPTY
            } else {
                sa[x]
            },
    )
}

/// The layout after that.
pub open spec fn settle(b: Seq<Span>, y: Layout, p: int) -> Layout {
    let q = b[p].i as int;
    Layout {
        log: y.log,
        pos: y.pos,
        cell: Seq::new(
            y.cell.len(),
            |x: int|
                if p <= x < q {
                    x
                } else if x == q || x == q + 1 {
                    free()
                } else {
                    y.cell[x]
                },
        ),
        phys: Seq::new(
            y.phys.len(),
            |x: int|
                if p <= x < q {
                    x
                } else {
                    y.phys[x]
                },
        ),
        multi: y.multi.update(p, false),
    }
}

/// A bucket that is kept with its count moves to its own places.
#[verifier::rlimit(100)]
#[verifier::spinoff_prover]
pub proof fn lemma_settle(u: Seq<int>, b: Seq<Span>, sa: Seq<u32>, y: Layout, p: int)
    requires
        rep_l(u, b, sa, y),
        0 <= p <= u.len(),
        y.multi[p],
    ensures
        has_l(u, p),
        p < b[p].i,
        b[p].i + 2 <= u.len() + 1,
        sa[p] == MULTI,
        sa[p + 1] == b[p].i - p,
        rep_l(u, b, settled(sa, y, p, b[p].i - p), settle(b, y, p)),
{
    reveal(rep_l);
    let n = u.len() as int;
    let q = b[p].i as int;
    let k = q - p;
    let sa2 = settled(sa, y, p, k);
    let y2 = settle(b, y, p);
    lemma_l_bucket(u, b, p);
    assert(head_ok(u, b, sa, y, p));
    assert forall|x: int| p + 2 <= x < q + 2 implies #[trigger] y.cell[x] == x - 2 by {
        lemma_front_entry(u, b, sa, y, p, x - 2);
    }
    assert forall|v: int| 0 <= v <= n && #[trigger] y.pos[v] >= 0 implies (if v < n && u[v] == p {
        p <= y.pos[v] < q
    } else {
        !(p <= y.pos[v] < q) && !(p <= y.phys[y.pos[v]] <= q + 1)
    }) by {
        let lp = y.pos[v];
        assert(y.cell[y.phys[lp]] == lp);
        if v < n {
            let d = u[v];
            assert(b[d].head == bucket_head(u, d));
            if d != p {
                lemma_buckets_apart(u, p, d, p, lp);
                if p + 2 <= y.phys[lp] < q + 2 {
                    lemma_buckets_apart(u, p, d, y.phys[lp] - 2, lp);
                }
            } else {
                lemma_l_symbol(u, p, v);
            }
        }
    }
    assert forall|x: int| 0 <= x <= n && #[trigger] y2.cell[x] >= 0 implies {
        &&& y2.log[y2.cell[x]] <= n
        &&& y2.pos[y2.log[y2.cell[x]] as int] == y2.cell[x]
        &&& y2.phys[y2.cell[x]] == x
        &&& sa2[x] == y2.log[y2.cell[x]]
    } by {
        if p <= x < q {
            lemma_front_entry(u, b, sa, y, p, x);
        } else {
            let lp = y.cell[x];
            let v = y.log[lp] as int;
            assert(y.pos[v] == lp);
            assert(y.pos[v] >= 0);
        }
    }
    assert forall|v: int| 0 <= v <= n && #[trigger] y2.pos[v] >= 0 implies {
        &&& 0 <= y2.phys[y2.pos[v]] <= n
        &&& y2.cell[y2.phys[y2.pos[v]]] == y2.pos[v]
        &&& y2.phys[y2.pos[v]] == y2.pos[v] + if v < n && !is_s(u, v) && y2.multi[u[v]] {
            2int
        } else {
            0int
        }
    } by {
        assert(y.pos[v] >= 0);
    }
    assert forall|d: int| 1 <= d <= n && has_l(u, d) implies #[trigger] head_ok(u, b, sa2, y2, d) by {
        assert(head_ok(u, b, sa, y, d));
        lemma_l_bucket(u, b, d);
        if d != p {
            assert(b[d].head == bucket_head(u, d));
            assert(b[p].head == bucket_head(u, p));
            lemma_buckets_apart(u, p, d, p, d);
            if p < d < p + size(u, p) {
                lemma_no_head_inside(u, b, p, d);
            }
            if size(u, d) >= 2 {
                lemma_buckets_apart(u, p, d, p, d + 1);
            }
        }
    }
    assert forall|x: int| 0 <= x <= n && #[trigger] y2.cell[x] == mark() implies has_l(u, x) && (
    b[x].i == x || y2.multi[x]) by {
        assert(y.cell[x] == mark());
    }
    assert forall|x: int| 0 <= x <= n && #[trigger] y2.cell[x] == counter() implies x >= 2 && has_l(
        u,
        x - 1,
    ) && y2.multi[x - 1] by {
        assert(y.cell[x] == counter());
    }
    assert forall|x: int| 0 <= x <= n && #[trigger] y2.cell[x] == free() implies sa2[x] == EMPTY by {
        if x != q && x != q + 1 {
            assert(y.cell[x] == free());
        }
    }
}

/// With every bucket filled and at its own places, the workspace holds
/// each suffix at its final place and nothing else.
#[verifier::rlimit(100)]
#[verifier::spinoff_prover]
pub proof fn lemma_rep_flat(u: Seq<int>, b: Seq<Span>, sa: Seq<u32>, y: Layout)
    requires
        rep_l(u, b, sa, y),
        forall|p: int| 0 <= p <= u.len() ==> !#[trigger] y.multi[p],
        forall|p: int| has_l(u, p) ==> (#[trigger] b[p]).i > p,
    ensures
        flat(u, b, sa, y.pos),
        forall|x: int|
            0 <= x <= u.len() && y.log[x] <= u.len() && y.pos[#[trigger] y.log[x] as int] == x
                ==> sa[x] == y.log[x],
{
    reveal(rep_l);
    let n = u.len() as int;
    assert forall|v: int| 0 <= v <= n && #[trigger] y.pos[v] >= 0 implies sa[y.pos[v]] == v by {
        let lp = y.pos[v];
        assert(y.cell[y.phys[lp]] == lp);
        assert(y.phys[lp] == lp);
        assert(y.cell[lp] >= 0);
    }
    assert(y.pos[n] >= 0);
    assert forall|c: int, x: int| 0 <= c < b.len() && #[trigger] occupied(b, c, x) implies {
        &&& sa[x] < n
        &&& u[sa[x] as int] == c
        &&& y.pos[sa[x] as int] == x
    } by {
        let v = y.log[x] as int;
        assert(y.pos[v] == x);
        assert(y.pos[v] >= 0);
    }
    assert forall|c: int, x: int| 0 <= c < b.len() && #[trigger] in_gap(b, c, x) implies sa[x]
        == EMPTY by {
        assert(b[c].head == bucket_head(u, c));
        lemma_bucket_head_mono(u, c, c + 1);
        lemma_bucket_head_mono(u, c + 1, n + 1);
        lemma_bucket_head_end(u, n + 1, n);
        if y.cell[x] == mark() {
            assert(head_ok(u, b, sa, y, x));
        } else if y.cell[x] == counter() {
        } else if y.cell[x] >= 0 {
            let lp = y.cell[x];
            let v = y.log[lp] as int;
            assert(y.pos[v] == lp);
            assert(y.pos[v] >= 0);
            assert(y.phys[lp] == lp);
            if v < n {
                let d = u[v];
                assert(b[d].head == bucket_head(u, d));
                if d != c {
                    lemma_buckets_apart(u, c, d, x, x);
                }
            }
        }
    }
}

/// Whether the position `i` has the symbol `p` and is S-type.
pub open spec fn s_at(u: Seq<int>, p: int, i: int) -> bool {
    0 <= i < u.len() && u[i] == p && is_s(u, i)
}

/// Whether the symbol `p` stands at S-type positions.
pub open spec fn has_s(u: Seq<int>, p: int) -> bool {
    exists|i: int| #[trigger] s_at(u, p, i)
}

/// The workspace with a mark in the last place of each bucket of an
/// S-type symbol.
pub open spec fn marked_s(u: Seq<int>, sa: Seq<u32>) -> Seq<u32> {
    Seq::new(
        sa.len(),
        |x: int|
            if has_s(u, x) {
                if size(u, x) == 1 {
                    UNIQUE
                } else {
                    MULTI
                }
            } else {
                sa[x]
            },
    )
}

/// Number of the positions from `i` on that have the symbol `p`.
pub open spec fn seen(u: Seq<int>, p: int, i: int) -> int {
    size(u, p) - (crate::sais::model::count_below(u, p + 1, i) - crate::sais::model::count_below(
        u,
        p,
        i,
    ))
}

/// What a place holds while marks are set for the positions from `i` on.
pub open spec fn mark_of(u: Seq<int>, p: int, i: int) -> u32 {
    if seen(u, p, i) == 0 {
        EMPTY
    } else if seen(u, p, i) == 1 {
        UNIQUE
    } else {
        MULTI
    }
}

/// Where a suffix that stands in a bucket stands in the workspace.
pub proof fn lemma_at(u: Seq<int>, b: Seq<Span>, sa: Seq<u32>, y: Layout, v: int)
    requires
        rep_l(u, b, sa, y),
        0 <= v <= u.len(),
        y.pos[v] >= 0,
    ensures
        0 <= y.pos[v] <= u.len(),
        0 <= y.phys[y.pos[v]] <= u.len(),
        y.cell[y.phys[y.pos[v]]] == y.pos[v],
        sa[y.phys[y.pos[v]]] == v,
        y.log[y.pos[v]] == v,
{
    reveal(rep_l);
    assert(y.cell[y.phys[y.pos[v]]] >= 0);
}

/// The first pass has met what it has met, whatever stands where no
/// suffix stands.
pub proof fn lemma_l_inv_frame(
    u: Seq<int>,
    by_suffix: bool,
    b: Seq<Span>,
    log: Seq<u32>,
    sa: Seq<u32>,
    pos: Seq<int>,
    x: int,
)
    requires
        l_inv(u, by_suffix, b, log, pos, x),
        placed(u, b, sa, pos),
    ensures
        l_inv(u, by_suffix, b, sa, pos, x),
{
}

/// One more position with the symbol is seen when the scan passes one.
pub proof fn lemma_seen(u: Seq<int>, p: int, i: int)
    requires
        0 <= i <= u.len(),
    ensures
        0 <= seen(u, p, i),
        i < u.len() ==> seen(u, p, i) == seen(u, p, i + 1) + if u[i] == p {
            1int
        } else {
            0int
        },
    decreases u.len() - i,
{
    if i < u.len() {
        lemma_seen(u, p, i + 1);
    }
}

/// A flat workspace has a place for each suffix.
pub proof fn lemma_flat_len(u: Seq<int>, b: Seq<Span>, sa: Seq<u32>, pos: Seq<int>)
    requires
        flat(u, b, sa, pos),
    ensures
        u.len() >= 1,
        sa.len() == u.len() + 1,
        pointered(u),
{
}

} // verus!
