//! How the workspace holds the buckets while S-type suffixes are placed.
//! It mirrors how it holds them while L-type suffixes are placed: buckets
//! are filled from their last places down, and a bucket that is kept with
//! its count stands two places before where it belongs.
use vstd::prelude::*;
use crate::construct::llhsais::layout::{counter, free, mark, seen, Layout};
use crate::construct::llhsais::pointers::{lemma_pure, pointered, size};
use crate::construct::llhsais::{EMPTY, MULTI, UNIQUE};
use crate::sais::model::{
    bucket_head, is_lms, is_s, lemma_bucket_head_mono, lemma_bucket_not_empty,
};
use crate::sais::state::{
    in_back, in_front, lemma_buckets_apart, lemma_place_back, occupied, placed, push_back_spans,
    spans_wf,
};
use crate::sais::utils::Span;
use crate::construct::llhsais::layout::{
    flat, has_l, l_at, lemma_flat_cell, lemma_l_bucket, lemma_l_symbol,
};
use crate::construct::sacak::scan::lemma_find_bucket;
use crate::sais::model::{count_below, lemma_count_below_bounds};
use crate::construct::sacak::scan::{find_bucket, in_gap};
use crate::sais::induce::{lemma_advance_s, s_inv};
use crate::sais::model::lemma_bucket_head_end;

verus! {

/// Whether the position `i` has the symbol `p` and is S-type; with `lms`
/// set, whether it is an LMS position besides.
pub open spec fn tail_at(u: Seq<int>, lms: bool, p: int, i: int) -> bool {
    0 <= i < u.len() && u[i] == p && is_s(u, i) && (lms ==> is_lms(u, i))
}

/// Whether the symbol `p` stands at such positions.
pub open spec fn has_tail(u: Seq<int>, lms: bool, p: int) -> bool {
    exists|i: int| #[trigger] tail_at(u, lms, p, i)
}

/// Number of the LMS positions from `i` on that have the symbol `p`.
pub open spec fn lms_seen(u: Seq<int>, p: int, i: int) -> int
    decreases u.len() - i,
{
    if i >= u.len() {
        0
    } else {
        lms_seen(u, p, i + 1) + if u[i] == p && is_lms(u, i) {
            1int
        } else {
            0int
        }
    }
}

/// Number of the suffixes that are to go to the bucket of `p`: all of the
/// bucket, or with `lms` set the LMS suffixes.
pub open spec fn cap(u: Seq<int>, lms: bool, p: int) -> int {
    if lms {
        lms_seen(u, p, 0)
    } else {
        size(u, p)
    }
}

/// Whether the last places of the bucket of the S-type symbol `p` say how
/// it is filled.
pub open spec fn tail_ok(u: Seq<int>, lms: bool, b: Seq<Span>, sa: Seq<u32>, y: Layout, p: int) -> bool {
    let k = p + 1 - b[p].j;
    &&& k == 0 ==> {
        &&& !y.multi[p]
        &&& y.cell[p] == mark()
        &&& sa[p] == (if cap(u, lms, p) == 1 {
            UNIQUE
        } else {
            MULTI
        })
        &&& cap(u, lms, p) >= 2 ==> y.cell[p - 1] == free()
    }
    &&& y.multi[p] ==> {
        &&& k >= 1
        &&& y.cell[p] == mark()
        &&& sa[p] == MULTI
        &&& y.cell[p - 1] == counter()
        &&& sa[p - 1] == k
        &&& p - k - 1 >= 1
        &&& size(u, p) >= 2
    }
}

/// Whether the layout `y` tells what the workspace `sa` holds behind its
/// first place, while S-type suffixes are placed in the buckets `b` of the
/// pointers `u`: all of them, or with `lms` set the LMS suffixes.
#[verifier::opaque]
pub open spec fn rep_s(u: Seq<int>, lms: bool, b: Seq<Span>, sa: Seq<u32>, y: Layout) -> bool {
    let n = u.len() as int;
    &&& pointered(u)
    &&& n < MULTI
    &&& b.len() == n + 1
    &&& sa.len() == n + 1
    &&& y.cell.len() == n + 1
    &&& y.phys.len() == n + 1
    &&& y.multi.len() == n + 1
    &&& placed(u, b, y.log, y.pos)
    &&& y.cell[0] == 0
    &&& forall|x: int| 0 <= x <= n ==> -3 <= #[trigger] y.cell[x] <= n
    &&& forall|x: int| 1 <= x <= n && #[trigger] y.cell[x] == free() ==> sa[x] == EMPTY
    &&& forall|x: int|
        0 <= x <= n && #[trigger] y.cell[x] >= 0 ==> {
            &&& y.log[y.cell[x]] <= n
            &&& y.pos[y.log[y.cell[x]] as int] == y.cell[x]
            &&& y.phys[y.cell[x]] == x
            &&& x >= 1 ==> sa[x] == y.log[y.cell[x]]
        }
    &&& forall|v: int|
        0 <= v <= n && #[trigger] y.pos[v] >= 0 ==> {
            &&& 0 <= y.phys[y.pos[v]] <= n
            &&& y.cell[y.phys[y.pos[v]]] == y.pos[v]
            &&& y.phys[y.pos[v]] == y.pos[v] - if v < n && is_s(u, v) && y.multi[u[v]] {
                2int
            } else {
                0int
            }
        }
    &&& forall|p: int|
        1 <= p <= n && has_tail(u, lms, p) ==> #[trigger] tail_ok(u, lms, b, sa, y, p)
    &&& forall|x: int|
        0 <= x <= n && #[trigger] y.cell[x] == mark() ==> has_tail(u, lms, x) && (b[x].j == x + 1
            || y.multi[x])
    &&& forall|x: int|
        0 <= x <= n && #[trigger] y.cell[x] == counter() ==> x + 1 <= n && has_tail(u, lms, x + 1)
            && y.multi[x + 1]
    &&& forall|p: int| 0 <= p <= n && #[trigger] y.multi[p] ==> p >= 1 && has_tail(u, lms, p)
}

/// No more LMS positions have a symbol than positions have it.
pub proof fn lemma_lms_seen(u: Seq<int>, p: int, i: int)
    requires
        0 <= i <= u.len(),
    ensures
        0 <= lms_seen(u, p, i) <= seen(u, p, i),
        forall|j: int| i <= j && tail_at(u, true, p, j) ==> lms_seen(u, p, i) >= 1,
    decreases u.len() - i,
{
    crate::construct::llhsais::layout::lemma_seen(u, p, i);
    if i < u.len() {
        lemma_lms_seen(u, p, i + 1);
        assert forall|j: int| i <= j && tail_at(u, true, p, j) implies lms_seen(u, p, i) >= 1 by {
            if j > i {
                assert(tail_at(u, true, p, j));
            }
        }
    }
}

/// The bucket of an S-type symbol ends at the symbol.
pub proof fn lemma_s_bucket(u: Seq<int>, lms: bool, b: Seq<Span>, p: int)
    requires
        pointered(u),
        spans_wf(u, b),
        has_tail(u, lms, p),
    ensures
        1 <= p < b.len(),
        b[p].tail == p + 1,
        b[p].head == p + 1 - size(u, p),
        size(u, p) >= 1,
        b[p].head >= 1,
        1 <= cap(u, lms, p) <= size(u, p),
{
    let i = choose|i: int| #[trigger] tail_at(u, lms, p, i);
    assert(tail_at(u, lms, p, i));
    assert(1 <= u[i] <= u.len());
    assert(b[p].head == bucket_head(u, p));
    lemma_bucket_not_empty(u, i, u.len() as int);
    lemma_bucket_head_mono(u, p, p);
    lemma_lms_seen(u, p, 0);
    if lms {
        assert(tail_at(u, true, p, i));
    }
}

/// A suffix with an S-type symbol is S-type.
pub proof fn lemma_s_symbol(u: Seq<int>, lms: bool, p: int, v: int)
    requires
        pointered(u),
        has_tail(u, lms, p),
        0 <= v < u.len(),
        u[v] == p,
    ensures
        is_s(u, v),
{
    let i = choose|i: int| #[trigger] tail_at(u, lms, p, i);
    assert(tail_at(u, lms, p, i));
    lemma_pure(u, i, v);
}

/// No bucket of an S-type symbol ends inside another bucket.
pub proof fn lemma_no_tail_inside(u: Seq<int>, lms: bool, b: Seq<Span>, p: int, x: int)
    requires
        pointered(u),
        spans_wf(u, b),
        0 <= p < b.len(),
        b[p].head <= x < b[p].tail - 1,
    ensures
        !has_tail(u, lms, x),
{
    if has_tail(u, lms, x) {
        lemma_s_bucket(u, lms, b, x);
        assert(b[p].head == bucket_head(u, p));
        assert(b[x].head == bucket_head(u, x));
        if x != p {
            lemma_buckets_apart(u, p, x, x, x);
        }
    }
}

/// What stands in the filled back part of a bucket, and where.
pub proof fn lemma_back_entry(
    u: Seq<int>,
    lms: bool,
    b: Seq<Span>,
    sa: Seq<u32>,
    y: Layout,
    p: int,
    z: int,
)
    requires
        rep_s(u, lms, b, sa, y),
        has_tail(u, lms, p),
        b[p].j <= z <= p,
    ensures
        y.log[z] < u.len(),
        u[y.log[z] as int] == p,
        y.pos[y.log[z] as int] == z,
        y.phys[z] == z - if y.multi[p] { 2int } else { 0int },
        y.phys[z] >= 1,
        y.cell[y.phys[z]] == z,
        sa[y.phys[z]] == y.log[z],
{
    reveal(rep_s);
    lemma_s_bucket(u, lms, b, p);
    assert(in_back(b, p, z));
    assert(occupied(b, p, z));
    let v = y.log[z] as int;
    assert(y.pos[v] == z);
    lemma_s_symbol(u, lms, p, v);
    assert(tail_ok(u, lms, b, sa, y, p));
    assert(y.cell[y.phys[z]] >= 0);
}

/// What the layout says of every workspace.
pub proof fn lemma_rep_s(u: Seq<int>, lms: bool, b: Seq<Span>, sa: Seq<u32>, y: Layout)
    requires
        rep_s(u, lms, b, sa, y),
    ensures
        pointered(u),
        u.len() < MULTI,
        b.len() == u.len() + 1,
        sa.len() == u.len() + 1,
        y.cell.len() == u.len() + 1,
        y.phys.len() == u.len() + 1,
        y.multi.len() == u.len() + 1,
        placed(u, b, y.log, y.pos),
        y.cell[0] == 0,
        forall|p: int|
            1 <= p <= u.len() && has_tail(u, lms, p) ==> #[trigger] tail_ok(u, lms, b, sa, y, p),
        forall|p: int| 0 <= p <= u.len() && #[trigger] y.multi[p] ==> p >= 1 && has_tail(u, lms, p),
{
    reveal(rep_s);
}

/// What the layout says of one place of the workspace.
pub proof fn lemma_cell_s(u: Seq<int>, lms: bool, b: Seq<Span>, sa: Seq<u32>, y: Layout, x: int)
    requires
        rep_s(u, lms, b, sa, y),
        1 <= x <= u.len(),
    ensures
        -3 <= y.cell[x] <= u.len(),
        y.cell[x] == free() ==> sa[x] == EMPTY,
        y.cell[x] == mark() ==> has_tail(u, lms, x) && (sa[x] == UNIQUE || sa[x] == MULTI) && (
        b[x].j == x + 1 || y.multi[x]) && (sa[x] == MULTI ==> size(u, x) >= 2 && x >= 2
            && y.cell[x - 1] != mark() && y.cell[x - 1] < 0),
        y.cell[x] == counter() ==> 1 <= sa[x] <= u.len() && x + 1 <= u.len() && y.cell[x + 1]
            == mark() && sa[x + 1] == MULTI && has_tail(u, lms, x + 1) && y.multi[x + 1],
        y.cell[x] >= 0 ==> {
            &&& sa[x] <= u.len()
            &&& sa[x] == y.log[y.cell[x]]
            &&& y.pos[sa[x] as int] == y.cell[x]
            &&& y.phys[y.cell[x]] == x
        },
{
    reveal(rep_s);
    if y.cell[x] == mark() {
        assert(tail_ok(u, lms, b, sa, y, x));
        lemma_s_bucket(u, lms, b, x);
    }
    if y.cell[x] == counter() {
        assert(tail_ok(u, lms, b, sa, y, x + 1));
        lemma_s_bucket(u, lms, b, x + 1);
    }
}

/// A place behind the first that holds the empty mark holds nothing.
pub proof fn lemma_empty_is_free_s(
    u: Seq<int>,
    lms: bool,
    b: Seq<Span>,
    sa: Seq<u32>,
    y: Layout,
    x: int,
)
    requires
        rep_s(u, lms, b, sa, y),
        1 <= x <= u.len(),
        sa[x] == EMPTY,
    ensures
        y.cell[x] == free(),
{
    lemma_cell_s(u, lms, b, sa, y, x);
    lemma_rep_s(u, lms, b, sa, y);
}

/// Where a suffix that stands in a bucket stands in the workspace.
pub proof fn lemma_at_s(u: Seq<int>, lms: bool, b: Seq<Span>, sa: Seq<u32>, y: Layout, v: int)
    requires
        rep_s(u, lms, b, sa, y),
        0 <= v <= u.len(),
        y.pos[v] >= 0,
    ensures
        0 <= y.pos[v] <= u.len(),
        0 <= y.phys[y.pos[v]] <= u.len(),
        y.cell[y.phys[y.pos[v]]] == y.pos[v],
        y.phys[y.pos[v]] >= 1 ==> sa[y.phys[y.pos[v]]] == v,
        y.log[y.pos[v]] == v,
        y.phys[y.pos[v]] == y.pos[v] - if v < u.len() && is_s(u, v) && y.multi[u[v]] {
            2int
        } else {
            0int
        },
        v < u.len() ==> y.pos[v] >= 1 && (if is_s(u, v) {
            in_back(b, u[v], y.pos[v])
        } else {
            in_front(b, u[v], y.pos[v])
        }),
        v == u.len() ==> y.pos[v] == 0,
        v < u.len() ==> y.phys[y.pos[v]] >= 1,
{
    reveal(rep_s);
    assert(y.cell[y.phys[y.pos[v]]] >= 0);
    if v < u.len() && is_s(u, v) && y.multi[u[v]] {
        assert(tail_ok(u, lms, b, sa, y, u[v]));
    }
    if v < u.len() {
        let d = u[v];
        assert(b[d].head == bucket_head(u, d));
        lemma_bucket_head_mono(u, d, d);
    }
}

/// In a bucket that is kept without a count, the place before the filled
/// ones holds nothing.
pub proof fn lemma_flat_prev_free(u: Seq<int>, lms: bool, b: Seq<Span>, sa: Seq<u32>, y: Layout, p: int)
    requires
        rep_s(u, lms, b, sa, y),
        has_tail(u, lms, p),
        !y.multi[p],
        b[p].i < b[p].j < p + 1,
    ensures
        y.cell[b[p].j - 1] == free(),
        b[p].j - 1 >= 1,
{
    let n = u.len() as int;
    let x = b[p].j - 1;
    lemma_rep_s(u, lms, b, sa, y);
    lemma_s_bucket(u, lms, b, p);
    lemma_cell_s(u, lms, b, sa, y, x);
    if y.cell[x] == mark() {
        lemma_no_tail_inside(u, lms, b, p, x);
    } else if y.cell[x] == counter() {
        if x + 1 < p {
            lemma_no_tail_inside(u, lms, b, p, x + 1);
        }
    } else if y.cell[x] >= 0 {
        let lp = y.cell[x];
        let v = sa[x] as int;
        lemma_at_s(u, lms, b, sa, y, v);
        assert(v < n);
        let d = u[v];
        assert(b[d].head == bucket_head(u, d));
        assert(b[p].head == bucket_head(u, p));
        if lp == x {
            if d != p {
                lemma_buckets_apart(u, p, d, x, x);
            }
        } else {
            assert(lp == x + 2);
            if lp <= p {
                if d != p {
                    lemma_buckets_apart(u, p, d, lp, lp);
                }
            } else {
                // the bucket behind this one would reach over its last place
                assert(lp == p + 1);
                lemma_s_bucket(u, lms, b, d);
                assert(tail_ok(u, lms, b, sa, y, d));
                lemma_back_entry(u, lms, b, sa, y, p, p);
                if d != p {
                    lemma_buckets_apart(u, p, d, p, lp);
                }
                if d != p + 1 {
                    lemma_back_entry(u, lms, b, sa, y, d, p + 2);
                }
            }
        }
    }
}

/// The layout after the suffix `w` has been written to the place where it
/// belongs, in a bucket that is kept without a count.
pub open spec fn flat_put_s(u: Seq<int>, b: Seq<Span>, y: Layout, w: int) -> Layout {
    let q = b[u[w]].j - 1;
    Layout {
        log: y.log.update(q, w as u32),
        pos: y.pos.update(w, q),
        cell: y.cell.update(q, q),
        phys: y.phys.update(q, q),
        multi: y.multi,
    }
}

/// What holds of a suffix that stands in a bucket when another is about to
/// go to the bucket of `p`: it does not stand where that one goes.
proof fn lemma_elsewhere(
    u: Seq<int>,
    lms: bool,
    b: Seq<Span>,
    sa: Seq<u32>,
    y: Layout,
    p: int,
    v: int,
)
    requires
        rep_s(u, lms, b, sa, y),
        has_tail(u, lms, p),
        b[p].i < b[p].j,
        0 <= v <= u.len(),
        y.pos[v] >= 0,
    ensures
        y.pos[v] != b[p].j - 1,
        v < u.len() && u[v] == p ==> b[p].j <= y.pos[v] <= p,
        !(v < u.len() && u[v] == p) ==> !(b[p].j - 1 <= y.pos[v] <= p),
{
    lemma_rep_s(u, lms, b, sa, y);
    lemma_s_bucket(u, lms, b, p);
    lemma_at_s(u, lms, b, sa, y, v);
    if v < u.len() {
        let d = u[v];
        assert(b[d].head == bucket_head(u, d));
        assert(b[p].head == bucket_head(u, p));
        if d != p {
            lemma_buckets_apart(u, p, d, b[p].j - 1, y.pos[v]);
            lemma_buckets_apart(u, p, d, p, y.pos[v]);
        } else {
            lemma_s_symbol(u, lms, p, v);
        }
    }
}

/// Writing an S-type suffix to its place in a bucket that is kept without
/// a count: the first of its bucket over the mark, a later one before the
/// others.
#[verifier::rlimit(100)]
#[verifier::spinoff_prover]
pub proof fn lemma_flat_put_s(u: Seq<int>, lms: bool, b: Seq<Span>, sa: Seq<u32>, y: Layout, w: int)
    requires
        rep_s(u, lms, b, sa, y),
        tail_at(u, lms, u[w], w),
        y.pos[w] < 0,
        !y.multi[u[w]],
    ensures
        has_tail(u, lms, u[w]),
        b[u[w]].i < b[u[w]].j <= u[w] + 1,
        b[u[w]].j - 1 >= 1,
        rep_s(
            u,
            lms,
            push_back_spans(b, u[w]),
            sa.update(b[u[w]].j - 1, w as u32),
            flat_put_s(u, b, y, w),
        ),
{
    let n = u.len() as int;
    let p = u[w];
    let q = b[p].j - 1;
    let b2 = push_back_spans(b, p);
    let sa2 = sa.update(q, w as u32);
    let y2 = flat_put_s(u, b, y, w);
    lemma_rep_s(u, lms, b, sa, y);
    lemma_s_bucket(u, lms, b, p);
    lemma_place_back(u, b, y.log, y.pos, w);
    assert(tail_ok(u, lms, b, sa, y, p));
    if q < p {
        lemma_flat_prev_free(u, lms, b, sa, y, p);
    }
    assert forall|v: int| 0 <= v <= n && v != w && #[trigger] y.pos[v] >= 0 implies y.pos[v] != q
        && y.phys[y.pos[v]] != q by {
        lemma_elsewhere(u, lms, b, sa, y, p, v);
        lemma_at_s(u, lms, b, sa, y, v);
    }
    reveal(rep_s);
    assert forall|x: int| 0 <= x <= n && #[trigger] y2.cell[x] >= 0 implies {
        &&& y2.log[y2.cell[x]] <= n
        &&& y2.pos[y2.log[y2.cell[x]] as int] == y2.cell[x]
        &&& y2.phys[y2.cell[x]] == x
        &&& x >= 1 ==> sa2[x] == y2.log[y2.cell[x]]
    } by {
        if x != q {
            let lp = y.cell[x];
            let v = y.log[lp] as int;
            assert(y.pos[v] == lp);
        }
    }
    assert forall|v: int| 0 <= v <= n && #[trigger] y2.pos[v] >= 0 implies {
        &&& 0 <= y2.phys[y2.pos[v]] <= n
        &&& y2.cell[y2.phys[y2.pos[v]]] == y2.pos[v]
        &&& y2.phys[y2.pos[v]] == y2.pos[v] - if v < n && is_s(u, v) && y2.multi[u[v]] {
            2int
        } else {
            0int
        }
    } by {
        if v != w {
            assert(y.pos[v] >= 0);
        }
    }
    assert forall|d: int| 1 <= d <= n && has_tail(u, lms, d) implies #[trigger] tail_ok(
        u,
        lms,
        b2,
        sa2,
        y2,
        d,
    ) by {
        assert(tail_ok(u, lms, b, sa, y, d));
        lemma_s_bucket(u, lms, b, d);
        if d != p {
            assert(b[d].head == bucket_head(u, d));
            assert(b[p].head == bucket_head(u, p));
            lemma_buckets_apart(u, p, d, q, d);
            if d - 1 == q {
                // then `d` is the bucket behind, of one place
                if size(u, d) >= 2 {
                    lemma_buckets_apart(u, p, d, q, d - 1);
                }
            }
        }
    }
    assert forall|x: int| 0 <= x <= n && #[trigger] y2.cell[x] == mark() implies has_tail(
        u,
        lms,
        x,
    ) && (b2[x].j == x + 1 || y2.multi[x]) by {
        assert(y.cell[x] == mark());
    }
    assert forall|x: int| 0 <= x <= n && #[trigger] y2.cell[x] == counter() implies x + 1 <= n
        && has_tail(u, lms, x + 1) && y2.multi[x + 1] by {
        assert(y.cell[x] == counter());
    }
    assert forall|x: int| 1 <= x <= n && #[trigger] y2.cell[x] == free() implies sa2[x] == EMPTY by {
        assert(y.cell[x] == free());
    }
}

/// The layout after the suffix `w` has been written before the others of
/// its bucket, which is kept with its count: two places before where it
/// belongs.
pub open spec fn multi_put_s(u: Seq<int>, b: Seq<Span>, y: Layout, w: int) -> Layout {
    let p = u[w];
    let q = b[p].j - 1;
    Layout {
        log: y.log.update(q, w as u32),
        pos: y.pos.update(w, q),
        cell: y.cell.update(p - 1, counter()).update(q - 2, q),
        phys: y.phys.update(q, q - 2),
        multi: y.multi.update(p, true),
    }
}

/// Writing an S-type suffix to a bucket that is kept with its count, or
/// that begins to be: the place before the others holds nothing.
#[verifier::rlimit(100)]
#[verifier::spinoff_prover]
pub proof fn lemma_multi_put_s(u: Seq<int>, lms: bool, b: Seq<Span>, sa: Seq<u32>, y: Layout, w: int)
    requires
        rep_s(u, lms, b, sa, y),
        tail_at(u, lms, u[w], w),
        y.pos[w] < 0,
        y.multi[u[w]] || (b[u[w]].j == u[w] + 1 && cap(u, lms, u[w]) >= 2),
        b[u[w]].j - 3 >= 1,
        sa[b[u[w]].j - 3] == EMPTY,
    ensures
        has_tail(u, lms, u[w]),
        b[u[w]].i < b[u[w]].j <= u[w] + 1,
        rep_s(
            u,
            lms,
            push_back_spans(b, u[w]),
            sa.update(u[w] - 1, (u[w] + 1 - b[u[w]].j + 1) as u32).update(
                b[u[w]].j - 3,
                w as u32,
            ),
            multi_put_s(u, b, y, w),
        ),
{
    let n = u.len() as int;
    let p = u[w];
    let q = b[p].j - 1;
    let k = p - q;
    let b2 = push_back_spans(b, p);
    let sa2 = sa.update(p - 1, (k + 1) as u32).update(q - 2, w as u32);
    let y2 = multi_put_s(u, b, y, w);
    lemma_rep_s(u, lms, b, sa, y);
    lemma_s_bucket(u, lms, b, p);
    lemma_place_back(u, b, y.log, y.pos, w);
    assert(tail_ok(u, lms, b, sa, y, p));
    lemma_empty_is_free_s(u, lms, b, sa, y, q - 2);
    assert forall|v: int| 0 <= v <= n && v != w && #[trigger] y.pos[v] >= 0 implies y.pos[v] != q
        && y.phys[y.pos[v]] != q - 2 && y.phys[y.pos[v]] != p - 1 by {
        lemma_elsewhere(u, lms, b, sa, y, p, v);
        lemma_at_s(u, lms, b, sa, y, v);
    }
    if k >= 1 {
        lemma_back_entry(u, lms, b, sa, y, p, q + 1);
    }
    reveal(rep_s);
    assert forall|x: int| 0 <= x <= n && #[trigger] y2.cell[x] >= 0 implies {
        &&& y2.log[y2.cell[x]] <= n
        &&& y2.pos[y2.log[y2.cell[x]] as int] == y2.cell[x]
        &&& y2.phys[y2.cell[x]] == x
        &&& x >= 1 ==> sa2[x] == y2.log[y2.cell[x]]
    } by {
        if x != q - 2 {
            let lp = y.cell[x];
            let v = y.log[lp] as int;
            assert(y.pos[v] == lp);
        }
    }
    assert forall|v: int| 0 <= v <= n && #[trigger] y2.pos[v] >= 0 implies {
        &&& 0 <= y2.phys[y2.pos[v]] <= n
        &&& y2.cell[y2.phys[y2.pos[v]]] == y2.pos[v]
        &&& y2.phys[y2.pos[v]] == y2.pos[v] - if v < n && is_s(u, v) && y2.multi[u[v]] {
            2int
        } else {
            0int
        }
    } by {
        if v != w {
            assert(y.pos[v] >= 0);
            if v < n && u[v] == p {
                lemma_s_symbol(u, lms, p, v);
                assert(in_back(b, p, y.pos[v]));
            }
        }
    }
    assert forall|d: int| 1 <= d <= n && has_tail(u, lms, d) implies #[trigger] tail_ok(
        u,
        lms,
        b2,
        sa2,
        y2,
        d,
    ) by {
        assert(tail_ok(u, lms, b, sa, y, d));
        lemma_s_bucket(u, lms, b, d);
        if d != p {
            assert(b[d].head == bucket_head(u, d));
            assert(b[p].head == bucket_head(u, p));
            lemma_buckets_apart(u, p, d, p, d);
            if b[p].head <= d < p {
                lemma_no_tail_inside(u, lms, b, p, d);
            }
        }
    }
    assert forall|x: int| 0 <= x <= n && #[trigger] y2.cell[x] == mark() implies has_tail(
        u,
        lms,
        x,
    ) && (b2[x].j == x + 1 || y2.multi[x]) by {
        assert(y.cell[x] == mark());
    }
    assert forall|x: int| 0 <= x <= n && #[trigger] y2.cell[x] == counter() implies x + 1 <= n
        && has_tail(u, lms, x + 1) && y2.multi[x + 1] by {
        if x != p - 1 {
            assert(y.cell[x] == counter());
        }
    }
    assert forall|x: int| 1 <= x <= n && #[trigger] y2.cell[x] == free() implies sa2[x] == EMPTY by {
        assert(y.cell[x] == free());
    }
}

/// The workspace after the bucket of `p`, kept with its count, has been
/// moved to its own places and has taken `w` before the others.
pub open spec fn flushed_s(sa: Seq<u32>, y: Layout, p: int, k: int, w: u32) -> Seq<u32> {
    Seq::new(
        sa.len(),
        |x: int|
            if p - k < x <= p {
                y.log[x]
            } else if x == p - k {
                w
            } else if x == p - k - 1 {
                EMPTY
            } else {
                sa[x]
            },
    )
}

/// The layout after that.
pub open spec fn flush_put_s(u: Seq<int>, b: Seq<Span>, y: Layout, w: int) -> Layout {
    let p = u[w];
    let q = b[p].j - 1;
    Layout {
        log: y.log.update(q, w as u32),
        pos: y.pos.update(w, q),
        cell: Seq::new(
            y.cell.len(),
            |x: int|
                if q <= x <= p {
                    x
                } else if x == q - 1 {
                    free()
                } else {
                    y.cell[x]
                },
        ),
        phys: Seq::new(
            y.phys.len(),
            |x: int|
                if q <= x <= p {
                    x
                } else {
                    y.phys[x]
                },
        ),
        multi: y.multi.update(p, false),
    }
}

/// Writing an S-type suffix to a bucket that is kept with its count, with
/// no room before it: the bucket moves to its own places.
#[verifier::rlimit(100)]
#[verifier::spinoff_prover]
pub proof fn lemma_flush_put_s(u: Seq<int>, lms: bool, b: Seq<Span>, sa: Seq<u32>, y: Layout, w: int)
    requires
        rep_s(u, lms, b, sa, y),
        tail_at(u, lms, u[w], w),
        y.pos[w] < 0,
        y.multi[u[w]],
    ensures
        has_tail(u, lms, u[w]),
        b[u[w]].i < b[u[w]].j <= u[w],
        b[u[w]].j - 2 >= 1,
        rep_s(
            u,
            lms,
            push_back_spans(b, u[w]),
            flushed_s(sa, y, u[w], u[w] + 1 - b[u[w]].j, w as u32),
            flush_put_s(u, b, y, w),
        ),
{
    let n = u.len() as int;
    let p = u[w];
    let q = b[p].j - 1;
    let k = p - q;
    let b2 = push_back_spans(b, p);
    let sa2 = flushed_s(sa, y, p, k, w as u32);
    let y2 = flush_put_s(u, b, y, w);
    lemma_rep_s(u, lms, b, sa, y);
    lemma_s_bucket(u, lms, b, p);
    lemma_place_back(u, b, y.log, y.pos, w);
    assert(tail_ok(u, lms, b, sa, y, p));
    // what the places of the kept bucket held
    assert forall|x: int| q - 1 <= x <= p - 2 implies #[trigger] y.cell[x] == x + 2 by {
        lemma_back_entry(u, lms, b, sa, y, p, x + 2);
    }
    assert forall|v: int| 0 <= v <= n && v != w && #[trigger] y.pos[v] >= 0 implies (if v < n
        && u[v] == p {
        q < y.pos[v] <= p
    } else {
        !(q <= y.pos[v] <= p) && !(q - 1 <= y.phys[y.pos[v]] <= p)
    }) by {
        lemma_elsewhere(u, lms, b, sa, y, p, v);
        lemma_at_s(u, lms, b, sa, y, v);
        let lp = y.pos[v];
        if !(v < n && u[v] == p) && q - 1 <= y.phys[lp] <= p {
            if y.phys[lp] == p {
            } else if y.phys[lp] == p - 1 {
            } else {
                assert(y.cell[y.phys[lp]] == y.phys[lp] + 2);
            }
        }
    }
    reveal(rep_s);
    assert forall|x: int| 0 <= x <= n && #[trigger] y2.cell[x] >= 0 implies {
        &&& y2.log[y2.cell[x]] <= n
        &&& y2.pos[y2.log[y2.cell[x]] as int] == y2.cell[x]
        &&& y2.phys[y2.cell[x]] == x
        &&& x >= 1 ==> sa2[x] == y2.log[y2.cell[x]]
    } by {
        if q < x <= p {
            lemma_back_entry(u, lms, b, sa, y, p, x);
        } else if x == q {
        } else {
            let lp = y.cell[x];
            let v = y.log[lp] as int;
            assert(y.pos[v] == lp);
            assert(y.pos[v] >= 0);
        }
    }
    assert forall|v: int| 0 <= v <= n && #[trigger] y2.pos[v] >= 0 implies {
        &&& 0 <= y2.phys[y2.pos[v]] <= n
        &&& y2.cell[y2.phys[y2.pos[v]]] == y2.pos[v]
        &&& y2.phys[y2.pos[v]] == y2.pos[v] - if v < n && is_s(u, v) && y2.multi[u[v]] {
            2int
        } else {
            0int
        }
    } by {
        if v != w {
            assert(y.pos[v] >= 0);
        }
    }
    assert forall|d: int| 1 <= d <= n && has_tail(u, lms, d) implies #[trigger] tail_ok(
        u,
        lms,
        b2,
        sa2,
        y2,
        d,
    ) by {
        assert(tail_ok(u, lms, b, sa, y, d));
        lemma_s_bucket(u, lms, b, d);
        if d != p {
            assert(b[d].head == bucket_head(u, d));
            assert(b[p].head == bucket_head(u, p));
            lemma_buckets_apart(u, p, d, p, d);
            if b[p].head <= d < p {
                lemma_no_tail_inside(u, lms, b, p, d);
            }
            if size(u, d) >= 2 {
                lemma_buckets_apart(u, p, d, p, d - 1);
            }
        }
    }
    assert forall|x: int| 0 <= x <= n && #[trigger] y2.cell[x] == mark() implies has_tail(
        u,
        lms,
        x,
    ) && (b2[x].j == x + 1 || y2.multi[x]) by {
        assert(y.cell[x] == mark());
    }
    assert forall|x: int| 0 <= x <= n && #[trigger] y2.cell[x] == counter() implies x + 1 <= n
        && has_tail(u, lms, x + 1) && y2.multi[x + 1] by {
        assert(y.cell[x] == counter());
    }
    assert forall|x: int| 1 <= x <= n && #[trigger] y2.cell[x] == free() implies sa2[x] == EMPTY by {
        if x != q - 1 {
            assert(y.cell[x] == free());
        }
    }
}

/// Suffixes stand in the workspace in the order of their final places.
pub proof fn lemma_phys_mono_s(
    u: Seq<int>,
    lms: bool,
    b: Seq<Span>,
    sa: Seq<u32>,
    y: Layout,
    v1: int,
    v2: int,
)
    requires
        rep_s(u, lms, b, sa, y),
        0 <= v1 <= u.len(),
        0 <= v2 <= u.len(),
        0 <= y.pos[v1] < y.pos[v2],
    ensures
        y.phys[y.pos[v1]] < y.phys[y.pos[v2]],
{
    let lp1 = y.pos[v1];
    let lp2 = y.pos[v2];
    lemma_rep_s(u, lms, b, sa, y);
    lemma_at_s(u, lms, b, sa, y, v1);
    lemma_at_s(u, lms, b, sa, y, v2);
    if y.phys[lp2] == lp2 - 2 && lp1 >= lp2 - 2 {
        let p2 = u[v2];
        lemma_s_bucket(u, lms, b, p2);
        assert(tail_ok(u, lms, b, sa, y, p2));
        if lp1 == lp2 - 1 && y.phys[lp1] == lp1 {
            if lp2 < p2 {
                lemma_back_entry(u, lms, b, sa, y, p2, lp2 + 1);
            }
        }
    }
}

/// Whether the scan of the second pass, which has yet to look at the place
/// `x` of the workspace and those before it, has met the suffixes whose
/// final places lie at `xlog` or behind it, and no others.
pub open spec fn scanned_s(y: Layout, xlog: int, x: int) -> bool {
    forall|v: int|
        0 <= v < y.pos.len() && #[trigger] y.pos[v] >= 0 ==> (y.pos[v] >= xlog <==> y.phys[y.pos[v]]
            > x)
}

/// The scan moves over a place that holds no suffix.
pub proof fn lemma_scan_over_s(
    u: Seq<int>,
    lms: bool,
    b: Seq<Span>,
    sa: Seq<u32>,
    y: Layout,
    xlog: int,
    x: int,
    step: int,
)
    requires
        rep_s(u, lms, b, sa, y),
        scanned_s(y, xlog, x),
        1 <= x <= u.len(),
        step == 1 || (step == 2 && x >= 2 && y.cell[x - 1] < 0),
        y.cell[x] < 0,
    ensures
        scanned_s(y, xlog, x - step),
{
    lemma_rep_s(u, lms, b, sa, y);
    assert forall|v: int| 0 <= v < y.pos.len() && #[trigger] y.pos[v] >= 0 implies (y.pos[v]
        >= xlog <==> y.phys[y.pos[v]] > x - step) by {
        lemma_at_s(u, lms, b, sa, y, v);
    }
}

/// The scan has met the suffix at the place `x` of the workspace: it has
/// met all that belong behind it.
#[verifier::rlimit(100)]
#[verifier::spinoff_prover]
pub proof fn lemma_scan_at_s(
    u: Seq<int>,
    by_suffix: bool,
    b: Seq<Span>,
    sa: Seq<u32>,
    y: Layout,
    xlog: int,
    x: int,
)
    requires
        rep_s(u, false, b, sa, y),
        s_inv(u, by_suffix, b, y.log, y.pos, xlog),
        scanned_s(y, xlog, x),
        xlog <= u.len() + 1,
        1 <= x <= u.len(),
        y.cell[x] >= 0,
    ensures
        y.cell[x] >= 1,
        s_inv(u, by_suffix, b, y.log, y.pos, y.cell[x] + 1),
        sa[x] < u.len(),
        y.pos[sa[x] as int] == y.cell[x],
        0 < sa[x] ==> ((u[sa[x] - 1] <= u[sa[x] as int]) <==> (is_s(u, sa[x] - 1) || (u[sa[x]
            - 1] == u[sa[x] as int] && !is_s(u, sa[x] as int)))),
{
    let n = u.len() as int;
    let lp = y.cell[x];
    let v = sa[x] as int;
    lemma_rep_s(u, false, b, sa, y);
    lemma_cell_s(u, false, b, sa, y, x);
    lemma_at_s(u, false, b, sa, y, v);
    if lp + 1 <= xlog {
        assert forall|w: int| 1 <= w < n && lp + 1 <= #[trigger] y.pos[w] < xlog implies !is_s(
            u,
            w - 1,
        ) || y.pos[w - 1] >= 0 by {
            lemma_phys_mono_s(u, false, b, sa, y, v, w);
        }
        lemma_advance_s(u, by_suffix, b, y.log, y.pos, xlog, lp + 1);
    }
}

/// After the suffix at the place `x` of the workspace, the scan goes on
/// before it.
#[verifier::rlimit(100)]
#[verifier::spinoff_prover]
pub proof fn lemma_scan_next_s(u: Seq<int>, lms: bool, b: Seq<Span>, sa: Seq<u32>, y: Layout, x: int)
    requires
        rep_s(u, lms, b, sa, y),
        1 <= x <= u.len(),
        y.cell[x] >= 0,
    ensures
        scanned_s(y, y.cell[x], x - 1),
        x - 1 >= 1 ==> y.cell[x - 1] != counter(),
{
    let lp = y.cell[x];
    let v = sa[x] as int;
    lemma_rep_s(u, lms, b, sa, y);
    lemma_cell_s(u, lms, b, sa, y, x);
    lemma_at_s(u, lms, b, sa, y, v);
    assert forall|w: int| 0 <= w < y.pos.len() && #[trigger] y.pos[w] >= 0 implies (y.pos[w] >= lp
        <==> y.phys[y.pos[w]] > x - 1) by {
        lemma_at_s(u, lms, b, sa, y, w);
        if y.pos[w] < lp {
            lemma_phys_mono_s(u, lms, b, sa, y, w, v);
        } else if y.pos[w] > lp {
            lemma_phys_mono_s(u, lms, b, sa, y, v, w);
        }
    }
    if x - 1 >= 1 {
        lemma_cell_s(u, lms, b, sa, y, x - 1);
    }
}

/// When the scan has passed the workspace, it has met every suffix.
pub proof fn lemma_scan_end_s(
    u: Seq<int>,
    by_suffix: bool,
    b: Seq<Span>,
    sa: Seq<u32>,
    y: Layout,
    xlog: int,
)
    requires
        rep_s(u, false, b, sa, y),
        s_inv(u, by_suffix, b, y.log, y.pos, xlog),
        scanned_s(y, xlog, 0),
    ensures
        s_inv(u, by_suffix, b, y.log, y.pos, 1),
{
    let n = u.len() as int;
    lemma_rep_s(u, false, b, sa, y);
    assert forall|w: int| 1 <= w < n && 1 <= #[trigger] y.pos[w] < xlog implies !is_s(u, w - 1)
        || y.pos[w - 1] >= 0 by {
        lemma_at_s(u, false, b, sa, y, w);
    }
    lemma_advance_s(u, by_suffix, b, y.log, y.pos, xlog, 1);
}

/// The workspace with a mark in the last place of each bucket that is to
/// be filled.
pub open spec fn marked_t(u: Seq<int>, lms: bool, sa: Seq<u32>) -> Seq<u32> {
    Seq::new(
        sa.len(),
        |x: int|
            if has_tail(u, lms, x) {
                if cap(u, lms, x) == 1 {
                    UNIQUE
                } else {
                    MULTI
                }
            } else {
                sa[x]
            },
    )
}

/// The layout of the workspace before the pass.
pub open spec fn start_s(u: Seq<int>, lms: bool, sa: Seq<u32>, pos: Seq<int>) -> Layout {
    Layout {
        log: sa,
        pos: pos,
        cell: Seq::new(
            sa.len(),
            |x: int|
                if has_tail(u, lms, x) {
                    mark()
                } else if sa[x] <= u.len() && pos[sa[x] as int] == x {
                    x
                } else {
                    free()
                },
        ),
        phys: Seq::new(sa.len(), |x: int| x),
        multi: Seq::new(sa.len(), |x: int| false),
    }
}

/// A bucket of an S-type symbol holds no L-type suffix, so it is filled
/// from its back only.
pub proof fn lemma_s_bucket_front(
    u: Seq<int>,
    lms: bool,
    b: Seq<Span>,
    sa: Seq<u32>,
    pos: Seq<int>,
    p: int,
)
    requires
        pointered(u),
        placed(u, b, sa, pos),
        has_tail(u, lms, p),
    ensures
        b[p].i == b[p].head,
{
    lemma_s_bucket(u, lms, b, p);
    if b[p].i > b[p].head {
        let x = b[p].head as int;
        assert(in_front(b, p, x));
        assert(occupied(b, p, x));
        let v = sa[x] as int;
        assert(pos[v] == x);
        assert(pos[v] >= 0);
        lemma_s_symbol(u, lms, p, v);
    }
}

/// With the marks set, the pass can begin.
#[verifier::rlimit(100)]
#[verifier::spinoff_prover]
pub proof fn lemma_start_s(u: Seq<int>, lms: bool, b: Seq<Span>, sa: Seq<u32>, pos: Seq<int>)
    requires
        flat(u, b, sa, pos),
        forall|p: int| 0 <= p < b.len() ==> (#[trigger] b[p]).j == b[p].tail,
    ensures
        rep_s(u, lms, b, marked_t(u, lms, sa), start_s(u, lms, sa, pos)),
        scanned_s(start_s(u, lms, sa, pos), u.len() as int + 1, u.len() as int),
{
    reveal(rep_s);
    let n = u.len() as int;
    let sa2 = marked_t(u, lms, sa);
    let y = start_s(u, lms, sa, pos);
    assert(!has_tail(u, lms, 0)) by {
        if has_tail(u, lms, 0) {
            lemma_s_bucket(u, lms, b, 0);
        }
    }
    assert forall|x: int| 1 <= x <= n && y.cell[x] == free() implies sa2[x] == EMPTY by {
        lemma_flat_cell(u, b, sa, pos, x);
    }
    assert forall|v: int| 0 <= v <= n && #[trigger] y.pos[v] >= 0 implies {
        &&& 0 <= y.phys[y.pos[v]] <= n
        &&& y.cell[y.phys[y.pos[v]]] == y.pos[v]
        &&& y.phys[y.pos[v]] == y.pos[v] - if v < n && is_s(u, v) && y.multi[u[v]] {
            2int
        } else {
            0int
        }
    } by {
        let lp = pos[v];
        if v < n {
            let d = u[v];
            assert(b[d].head == bucket_head(u, d));
            if has_tail(u, lms, lp) {
                lemma_s_bucket(u, lms, b, lp);
                assert(b[lp].head == bucket_head(u, lp));
                if d != lp {
                    lemma_buckets_apart(u, lp, d, lp, lp);
                } else {
                    lemma_s_symbol(u, lms, lp, v);
                }
            }
        }
    }
    assert forall|p: int| 1 <= p <= n && has_tail(u, lms, p) implies #[trigger] tail_ok(
        u,
        lms,
        b,
        sa2,
        y,
        p,
    ) by {
        lemma_s_bucket(u, lms, b, p);
        lemma_s_bucket_front(u, lms, b, sa, pos, p);
        if cap(u, lms, p) >= 2 {
            lemma_no_tail_inside(u, lms, b, p, p - 1);
            lemma_flat_cell(u, b, sa, pos, p - 1);
            let c = find_bucket(u, p - 1, n);
            assert(b[c].head == bucket_head(u, c));
            assert(b[p].head == bucket_head(u, p));
            if c != p {
                lemma_buckets_apart(u, p, c, p - 1, p - 1);
            }
        }
    }
    assert forall|x: int| 0 <= x <= n && #[trigger] y.cell[x] == mark() implies has_tail(
        u,
        lms,
        x,
    ) && (b[x].j == x + 1 || y.multi[x]) by {
        lemma_s_bucket(u, lms, b, x);
    }
    assert(scanned_s(y, n + 1, n));
}

/// The workspace after the bucket of `p`, kept with its count, has been
/// moved to its own places.
pub open spec fn settled_s(sa: Seq<u32>, y: Layout, p: int, k: int) -> Seq<u32> {
    Seq::new(
        sa.len(),
        |x: int|
            if p - k < x <= p {
                y.log[x]
            } else if x == p - k || x == p - k - 1 {
                EMPTY
            } else {
                sa[x]
            },
    )
}

/// The layout after that.
pub open spec fn settle_s(b: Seq<Span>, y: Layout, p: int) -> Layout {
    let q = b[p].j - 1;
    Layout {
        log: y.log,
        pos: y.pos,
        cell: Seq::new(
            y.cell.len(),
            |x: int|
                if q < x <= p {
                    x
                } else if x == q || x == q - 1 {
                    free()
                } else {
                    y.cell[x]
                },
        ),
        phys: Seq::new(
            y.phys.len(),
            |x: int|
                if q < x <= p {
                    x
                } else {
                    y.phys[x]
                },
        ),
        multi: y.multi.update(p, false),
    }
}

/// A bucket that is kept with its count moves to its own places.
#[verifier::rlimit(100)]
#[verifier::spinoff_prover]
pub proof fn lemma_settle_s(u: Seq<int>, lms: bool, b: Seq<Span>, sa: Seq<u32>, y: Layout, p: int)
    requires
        rep_s(u, lms, b, sa, y),
        0 <= p <= u.len(),
        y.multi[p],
    ensures
        has_tail(u, lms, p),
        b[p].j <= p,
        b[p].j - 2 >= 1,
        sa[p] == MULTI,
        sa[p - 1] == p + 1 - b[p].j,
        rep_s(u, lms, b, settled_s(sa, y, p, p + 1 - b[p].j), settle_s(b, y, p)),
{
    let n = u.len() as int;
    let q = b[p].j - 1;
    let k = p - q;
    let sa2 = settled_s(sa, y, p, k);
    let y2 = settle_s(b, y, p);
    lemma_rep_s(u, lms, b, sa, y);
    lemma_s_bucket(u, lms, b, p);
    assert(tail_ok(u, lms, b, sa, y, p));
    assert forall|x: int| q - 1 <= x <= p - 2 implies #[trigger] y.cell[x] == x + 2 by {
        lemma_back_entry(u, lms, b, sa, y, p, x + 2);
    }
    assert forall|v: int| 0 <= v <= n && #[trigger] y.pos[v] >= 0 implies (if v < n && u[v] == p {
        q < y.pos[v] <= p
    } else {
        !(q < y.pos[v] <= p) && !(q - 1 <= y.phys[y.pos[v]] <= p)
    }) by {
        lemma_at_s(u, lms, b, sa, y, v);
        let lp = y.pos[v];
        if v < n {
            let d = u[v];
            assert(b[d].head == bucket_head(u, d));
            assert(b[p].head == bucket_head(u, p));
            if d != p {
                lemma_buckets_apart(u, p, d, p, lp);
                lemma_buckets_apart(u, p, d, q + 1, lp);
                if q - 1 <= y.phys[lp] <= p - 2 {
                    assert(y.cell[y.phys[lp]] == y.phys[lp] + 2);
                }
            } else {
                lemma_s_symbol(u, lms, p, v);
            }
        }
    }
    reveal(rep_s);
    assert forall|x: int| 0 <= x <= n && #[trigger] y2.cell[x] >= 0 implies {
        &&& y2.log[y2.cell[x]] <= n
        &&& y2.pos[y2.log[y2.cell[x]] as int] == y2.cell[x]
        &&& y2.phys[y2.cell[x]] == x
        &&& x >= 1 ==> sa2[x] == y2.log[y2.cell[x]]
    } by {
        if q < x <= p {
            lemma_back_entry(u, lms, b, sa, y, p, x);
        } else {
            let lp = y.cell[x];
            let v = y.log[lp] as int;
            assert(y.pos[v] == lp);
            assert(y.pos[v] >= 0);
        }
    }
    assert forall|v: int| 0 <= v <= n && #[trigger] y2.pos[v] >= 0 implies {
        &&& 0 <= y2.phys[y2.pos[v]] <= n
        &&& y2.cell[y2.phys[y2.pos[v]]] == y2.pos[v]
        &&& y2.phys[y2.pos[v]] == y2.pos[v] - if v < n && is_s(u, v) && y2.multi[u[v]] {
            2int
        } else {
            0int
        }
    } by {
        assert(y.pos[v] >= 0);
    }
    assert forall|d: int| 1 <= d <= n && has_tail(u, lms, d) implies #[trigger] tail_ok(
        u,
        lms,
        b,
        sa2,
        y2,
        d,
    ) by {
        assert(tail_ok(u, lms, b, sa, y, d));
        lemma_s_bucket(u, lms, b, d);
        if d != p {
            assert(b[d].head == bucket_head(u, d));
            assert(b[p].head == bucket_head(u, p));
            lemma_buckets_apart(u, p, d, p, d);
            if b[p].head <= d < p {
                lemma_no_tail_inside(u, lms, b, p, d);
            }
            if size(u, d) >= 2 {
                lemma_buckets_apart(u, p, d, p, d - 1);
            }
        }
    }
    assert forall|x: int| 0 <= x <= n && #[trigger] y2.cell[x] == mark() implies has_tail(
        u,
        lms,
        x,
    ) && (b[x].j == x + 1 || y2.multi[x]) by {
        assert(y.cell[x] == mark());
    }
    assert forall|x: int| 0 <= x <= n && #[trigger] y2.cell[x] == counter() implies x + 1 <= n
        && has_tail(u, lms, x + 1) && y2.multi[x + 1] by {
        assert(y.cell[x] == counter());
    }
    assert forall|x: int| 1 <= x <= n && #[trigger] y2.cell[x] == free() implies sa2[x] == EMPTY by {
        if x != q && x != q - 1 {
            assert(y.cell[x] == free());
        }
    }
}

/// With every bucket filled and at its own places, the workspace holds
/// each suffix at its final place and nothing else.
#[verifier::rlimit(100)]
#[verifier::spinoff_prover]
pub proof fn lemma_rep_flat_s(u: Seq<int>, lms: bool, b: Seq<Span>, sa: Seq<u32>, y: Layout)
    requires
        rep_s(u, lms, b, sa, y),
        sa[0] == u.len(),
        forall|p: int| 0 <= p <= u.len() ==> !#[trigger] y.multi[p],
        forall|p: int| has_tail(u, lms, p) ==> (#[trigger] b[p]).j <= p,
    ensures
        flat(u, b, sa, y.pos),
        forall|x: int|
            0 <= x <= u.len() && y.log[x] <= u.len() && y.pos[#[trigger] y.log[x] as int] == x
                ==> sa[x] == y.log[x],
{
    reveal(rep_s);
    let n = u.len() as int;
    assert forall|v: int| 0 <= v <= n && #[trigger] y.pos[v] >= 0 implies sa[y.pos[v]] == v by {
        let lp = y.pos[v];
        assert(y.cell[y.phys[lp]] == lp);
        assert(y.phys[lp] == lp);
        assert(y.cell[lp] >= 0);
    }
    assert(y.pos[n] >= 0);
    assert forall|c: int, x: int| 0 <= c < b.len() && #[trigger] occupied(b, c, x) implies {
        &&& sa[x] < n
        &&& u[sa[x] as int] == c
        &&& y.pos[sa[x] as int] == x
    } by {
        let v = y.log[x] as int;
        assert(y.pos[v] == x);
        assert(y.pos[v] >= 0);
    }
    assert forall|c: int, x: int| 0 <= c < b.len() && #[trigger] in_gap(b, c, x) implies sa[x]
        == EMPTY by {
        assert(b[c].head == bucket_head(u, c));
        lemma_bucket_head_mono(u, c, c + 1);
        lemma_bucket_head_mono(u, c + 1, n + 1);
        lemma_bucket_head_end(u, n + 1, n);
        if y.cell[x] == mark() {
            assert(tail_ok(u, lms, b, sa, y, x));
        } else if y.cell[x] == counter() {
        } else if y.cell[x] >= 0 {
            let lp = y.cell[x];
            let v = y.log[lp] as int;
            assert(y.pos[v] == lp);
            assert(y.pos[v] >= 0);
            assert(y.phys[lp] == lp);
            if v < n {
                let d = u[v];
                assert(b[d].head == bucket_head(u, d));
                if d != c {
                    lemma_buckets_apart(u, c, d, x, x);
                }
            }
        }
    }
}

/// The workspace stands for the same, whatever its first place holds.
pub proof fn lemma_rep_s_first(
    u: Seq<int>,
    lms: bool,
    b: Seq<Span>,
    sa: Seq<u32>,
    sa2: Seq<u32>,
    y: Layout,
)
    requires
        rep_s(u, lms, b, sa, y),
        sa2.len() == sa.len(),
        forall|x: int| 1 <= x < sa.len() ==> sa2[x] == sa[x],
    ensures
        rep_s(u, lms, b, sa2, y),
{
    reveal(rep_s);
    assert forall|p: int| 1 <= p <= u.len() && has_tail(u, lms, p) implies #[trigger] tail_ok(
        u,
        lms,
        b,
        sa2,
        y,
        p,
    ) by {
        assert(tail_ok(u, lms, b, sa, y, p));
        lemma_s_bucket(u, lms, b, p);
    }
}

/// Whether the buckets of the L-type symbols are full.
pub open spec fn fronts_full(u: Seq<int>, b: Seq<Span>) -> bool {
    forall|q: int| has_l(u, q) ==> (#[trigger] b[q]).i == q + size(u, q)
}

/// A symbol that counts among those below the next stands somewhere.
pub proof fn lemma_symbol_stands(u: Seq<int>, c: int, k: int) -> (i: int)
    requires
        0 <= k <= u.len(),
        count_below(u, c, k) < count_below(u, c + 1, k),
    ensures
        0 <= i < k,
        u[i] == c,
    decreases k,
{
    if u[k - 1] == c {
        k - 1
    } else {
        lemma_symbol_stands(u, c, k - 1)
    }
}

/// An L-type suffix that is handed to the bucket of its symbol as if it
/// were S-type finds the first place of the bucket taken, and before it a
/// place that is taken too, by another bucket: it is not written.
#[verifier::rlimit(100)]
#[verifier::spinoff_prover]
pub proof fn lemma_not_written(u: Seq<int>, b: Seq<Span>, sa: Seq<u32>, y: Layout, w: int)
    requires
        rep_s(u, false, b, sa, y),
        fronts_full(u, b),
        0 <= w < u.len(),
        !is_s(u, w),
    ensures
        1 <= u[w] <= u.len(),
        sa[u[w]] < u.len(),
        u[sa[u[w]] as int] == u[w],
        u[w] >= 2 ==> sa[u[w] - 1] != EMPTY && (sa[u[w] - 1] >= MULTI || (sa[u[w] - 1] < u.len()
            && u[sa[u[w] - 1] as int] != u[w])),
{
    let n = u.len() as int;
    let p = u[w];
    lemma_rep_s(u, false, b, sa, y);
    assert(l_at(u, p, w));
    lemma_l_bucket(u, b, p);
    assert(b[p].i == p + size(u, p));
    // the first place of the bucket
    assert(in_front(b, p, p));
    assert(occupied(b, p, p));
    let v0 = y.log[p] as int;
    assert(y.pos[v0] == p);
    lemma_l_symbol(u, p, v0);
    lemma_at_s(u, false, b, sa, y, v0);
    lemma_cell_s(u, false, b, sa, y, p);
    if p >= 2 {
        // the place before it is the last of the bucket before
        lemma_bucket_head_end(u, n + 1, n);
        lemma_find_bucket(u, p - 1, n);
        let c = find_bucket(u, p - 1, n);
        assert(b[c].head == bucket_head(u, c));
        assert(b[p].head == bucket_head(u, p));
        if c >= p {
            lemma_bucket_head_mono(u, p, c);
        }
        lemma_bucket_head_mono(u, c + 1, p);
        lemma_count_below_bounds(u, c, n);
        let i = lemma_symbol_stands(u, c, n);
        lemma_cell_s(u, false, b, sa, y, p - 1);
        if is_s(u, i) {
            assert(tail_at(u, false, c, i));
            lemma_s_bucket(u, false, b, c);
            assert(tail_ok(u, false, b, sa, y, c));
            if !y.multi[c] && b[c].j <= c {
                lemma_back_entry(u, false, b, sa, y, c, c);
            }
        } else {
            assert(l_at(u, c, i));
            lemma_l_bucket(u, b, c);
            assert(b[c].i == c + size(u, c));
            assert(in_front(b, c, p - 1));
            assert(occupied(b, c, p - 1));
            let v1 = y.log[p - 1] as int;
            assert(y.pos[v1] == p - 1);
            lemma_l_symbol(u, c, v1);
            lemma_at_s(u, false, b, sa, y, v1);
        }
    }
}

/// A suffix that stands in a bucket does not stand where the next suffix
/// of the bucket of `p` is to go; where the scan stands there, it follows
/// the suffix.
#[verifier::rlimit(100)]
#[verifier::spinoff_prover]
pub proof fn lemma_cursor_s(u: Seq<int>, lms: bool, b: Seq<Span>, sa: Seq<u32>, y: Layout, p: int, x: int)
    requires
        rep_s(u, lms, b, sa, y),
        has_tail(u, lms, p),
        b[p].i < b[p].j,
        0 <= x <= u.len(),
        y.cell[x] >= 0,
    ensures
        y.cell[x] != b[p].j - 1,
        0 <= y.cell[x] <= u.len(),
        b[p].j <= y.cell[x] <= p ==> y.phys[y.cell[x]] == y.cell[x] - if y.multi[p] {
            2int
        } else {
            0int
        },
        y.phys[y.cell[x]] == x,
        !(b[p].j <= y.cell[x] <= p) && y.multi[p] ==> !(b[p].j - 2 <= x <= p),
{
    reveal(rep_s);
    let lp = y.cell[x];
    let v = y.log[lp] as int;
    assert(y.pos[v] == lp);
    assert(y.pos[v] >= 0);
    lemma_elsewhere(u, lms, b, sa, y, p, v);
    lemma_at_s(u, lms, b, sa, y, v);
    lemma_s_bucket(u, lms, b, p);
    if b[p].j <= lp <= p {
        lemma_back_entry(u, lms, b, sa, y, p, lp);
    } else if y.multi[p] && b[p].j - 2 <= x <= p {
        assert(tail_ok(u, lms, b, sa, y, p));
        if x <= p - 2 {
            lemma_back_entry(u, lms, b, sa, y, p, x + 2);
        }
    }
}

/// Marks for the S-type symbols are marks for the buckets of all S-type
/// suffixes.
pub proof fn lemma_marked_s(u: Seq<int>, sa: Seq<u32>)
    ensures
        crate::construct::llhsais::layout::marked_s(u, sa) == marked_t(u, false, sa),
        forall|p: int| crate::construct::llhsais::layout::has_s(u, p) == has_tail(u, false, p),
{
    assert forall|p: int| crate::construct::llhsais::layout::has_s(u, p) == has_tail(
        u,
        false,
        p,
    ) by {
        if crate::construct::llhsais::layout::has_s(u, p) {
            let i = choose|i: int| #[trigger] crate::construct::llhsais::layout::s_at(u, p, i);
            assert(tail_at(u, false, p, i));
        }
        if has_tail(u, false, p) {
            let i = choose|i: int| #[trigger] tail_at(u, false, p, i);
            assert(crate::construct::llhsais::layout::s_at(u, p, i));
        }
    }
    assert(crate::construct::llhsais::layout::marked_s(u, sa) =~= marked_t(u, false, sa));
}

/// A bucket in which a suffix stands has its last place filled.
pub proof fn lemma_tail_taken(u: Seq<int>, lms: bool, b: Seq<Span>, log: Seq<u32>, pos: Seq<int>, p: int)
    requires
        pointered(u),
        placed(u, b, log, pos),
        has_tail(u, lms, p),
        forall|v: int| 0 <= v < u.len() && tail_at(u, lms, u[v], v) ==> #[trigger] pos[v] >= 0,
    ensures
        b[p].j <= p,
{
    let i = choose|i: int| #[trigger] tail_at(u, lms, p, i);
    assert(tail_at(u, lms, p, i));
    lemma_s_bucket(u, lms, b, p);
    assert(pos[i] >= 0);
}

/// The second pass has met what it has met, whatever stands where no
/// suffix stands.
pub proof fn lemma_s_inv_frame(
    u: Seq<int>,
    by_suffix: bool,
    b: Seq<Span>,
    log: Seq<u32>,
    sa: Seq<u32>,
    pos: Seq<int>,
    x: int,
)
    requires
        s_inv(u, by_suffix, b, log, pos, x),
        placed(u, b, sa, pos),
    ensures
        s_inv(u, by_suffix, b, sa, pos, x),
{
}

} // verus!
