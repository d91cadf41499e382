//! Placing the LMS suffixes at the ends of their buckets, by their first
//! symbols alone, before the first sorting of the LMS substrings.
use vstd::prelude::*;
use crate::construct::llhsais::clearing::{lemma_lms_seen_gap, lemma_lms_seen_gap_le};
use crate::construct::llhsais::layout::flat;
use crate::construct::llhsais::layout_s::{
    has_tail, lemma_lms_seen, lemma_rep_s, lemma_rep_s_first, lemma_start_s, lms_seen, marked_t,
    rep_s, start_s, tail_at,
};
use crate::construct::llhsais::pointers::pointered;
use crate::construct::llhsais::{finish_tail, insert_tail, EMPTY, MULTI, UNIQUE};
use crate::construct::utils::{for_each_lms, text_of};
use crate::sais::induce::{l_inv, lemma_seeded, lemma_seeds_ordered, ordered};
use crate::sais::model::{bucket_head, is_lms, lemma_bucket_head_mono, lemma_last_is_l};
use crate::sais::state::{in_back, occupied, placed, push_back_spans, spans_wf};
use crate::sais::utils::Span;

verus! {

/// The buckets of `u` with nothing in them.
pub open spec fn fresh_spans(u: Seq<int>) -> Seq<Span> {
    Seq::new(
        (u.len() + 1) as nat,
        |c: int|
            (Span {
                head: bucket_head(u, c) as u32,
                tail: bucket_head(u, c + 1) as u32,
                i: bucket_head(u, c) as u32,
                j: bucket_head(u, c + 1) as u32,
            }),
    )
}

/// The workspace that holds the empty suffix and nothing else.
pub open spec fn bare(n: int) -> Seq<u32> {
    Seq::new(
        (n + 1) as nat,
        |x: int|
            if x == 0 {
                n as u32
            } else {
                EMPTY
            },
    )
}

/// The places of the suffixes when only the empty suffix is placed.
pub open spec fn nowhere(n: int) -> Seq<int> {
    Seq::new(
        (n + 1) as nat,
        |v: int|
            if v == n {
                0int
            } else {
                -1int
            },
    )
}

/// The empty workspace is flat, over empty buckets.
pub proof fn lemma_bare(u: Seq<int>)
    requires
        pointered(u),
        u.len() < MULTI,
    ensures
        flat(u, fresh_spans(u), bare(u.len() as int), nowhere(u.len() as int)),
        forall|c: int|
            0 <= c <= u.len() ==> (#[trigger] fresh_spans(u)[c]).i == fresh_spans(u)[c].head
                && fresh_spans(u)[c].j == fresh_spans(u)[c].tail,
{
    let b = fresh_spans(u);
    let n = u.len() as int;
    let sa = bare(n);
    let pos = nowhere(n);
    assert forall|c: int| 0 <= c < b.len() implies {
        &&& (#[trigger] b[c]).head == bucket_head(u, c)
        &&& b[c].tail == bucket_head(u, c + 1)
        &&& b[c].head <= b[c].i <= b[c].j <= b[c].tail
    } by {
        lemma_bucket_head_mono(u, c, c + 1);
    }
    assert(spans_wf(u, b));
    assert forall|c: int, p: int| 0 <= c < b.len() && #[trigger] occupied(b, c, p) implies false by {
        lemma_bucket_head_mono(u, c, c + 1);
    }
    assert(placed(u, b, sa, pos));
    assert forall|c: int, p: int|
        0 <= c < b.len() && #[trigger] crate::construct::sacak::scan::in_gap(
            b,
            c,
            p,
        ) implies sa[p] == EMPTY by {
        lemma_bucket_head_mono(u, c, c + 1);
    }
}

/// The mark that the last place of the bucket of `p` holds when the LMS
/// positions from `i` on have been seen.
pub open spec fn lms_mark(u: Seq<int>, p: int, i: int) -> u32 {
    if lms_seen(u, p, i) == 0 {
        EMPTY
    } else if lms_seen(u, p, i) == 1 {
        UNIQUE
    } else {
        MULTI
    }
}

/// A symbol of which an LMS position is seen stands at an LMS position.
pub proof fn lemma_lms_stands(u: Seq<int>, p: int, i: int)
    requires
        0 <= i <= u.len(),
        lms_seen(u, p, i) >= 1,
    ensures
        has_tail(u, true, p),
    decreases u.len() - i,
{
    if i < u.len() {
        if u[i] == p && is_lms(u, i) {
            assert(tail_at(u, true, p, i));
        } else {
            lemma_lms_stands(u, p, i + 1);
        }
    }
}

/// With every LMS position seen, the marks are those with which the
/// placing begins.
pub proof fn lemma_lms_marks(u: Seq<int>, sa: Seq<u32>, p: int)
    requires
        1 <= p < sa.len(),
        sa[p] == EMPTY,
    ensures
        lms_mark(u, p, 0) == marked_t(u, true, sa)[p],
{
    lemma_lms_seen(u, p, 0);
    if lms_seen(u, p, 0) >= 1 {
        lemma_lms_stands(u, p, 0);
    }
    if has_tail(u, true, p) {
        let j = choose|j: int| #[trigger] tail_at(u, true, p, j);
        assert(tail_at(u, true, p, j));
    }
}

/// What one more LMS position does to the marks.
pub proof fn lemma_lms_mark_step(u: Seq<int>, i: int, bound: int, below: int, p: int)
    requires
        pointered(u),
        0 <= below <= i < bound <= u.len(),
        is_lms(u, i),
        forall|v: int| below <= v < bound && v != i ==> !#[trigger] is_lms(u, v),
    ensures
        lms_seen(u, p, below) == lms_seen(u, p, bound) + if p == u[i] {
            1int
        } else {
            0int
        },
        lms_seen(u, p, bound) >= 0,
{
    lemma_lms_seen_gap(u, p, below, i);
    lemma_lms_seen_gap(u, p, i + 1, bound);
    lemma_lms_seen_gap_le(u, p, 0, bound);
}

/// Set UNIQUE/MULTI in bucket tails of lms characters.
#[inline]
pub(crate) fn prepare_lms(s: &[u32], sa: &mut [u32])
    requires
        pointered(text_of(s@)),
        old(sa).len() == s.len() + 1,
        forall|x: int| 0 <= x <= s.len() ==> old(sa)@[x] == EMPTY,
    ensures
        final(sa).len() == old(sa).len(),
        final(sa)@[0] == UNIQUE,
        forall|x: int|
            1 <= x <= s.len() ==> #[trigger] final(sa)@[x] == marked_t(
                text_of(s@),
                true,
                old(sa)@,
            )[x],
{
    let ghost u = text_of(s@);
    let n = s.len();
    let mut scan = for_each_lms(s, true);
    proof {
        lemma_last_is_l(u);
    }
    loop
        invariant
            u == text_of(s@),
            n == s.len(),
            pointered(u),
            sa.len() == n + 1,
            old(sa).len() == n + 1,
            scan.wf(u),
            0 <= scan.bound(n as int) <= n + 1,
            sa@[0] == (if scan.bound(n as int) <= n {
                UNIQUE
            } else {
                EMPTY
            }),
            forall|p: int|
                1 <= p <= n ==> #[trigger] sa@[p] == lms_mark(u, p, scan.bound(n as int)),
        ensures
            sa.len() == n + 1,
            sa@[0] == UNIQUE,
            forall|p: int| 1 <= p <= n ==> #[trigger] sa@[p] == lms_mark(u, p, 0),
        decreases scan.bound(n as int),
    {
        let ghost before = scan.bound(n as int);
        let ghost held = sa@;
        match scan.next(s) {
            Some((i, c)) => {
                let p = c as usize;
                proof {
                    lemma_last_is_l(u);
                    let below = scan.bound(n as int);
                    if i < n {
                        assert(is_lms(u, n as int));
                        assert(before <= n);
                        assert forall|d: int| 1 <= d <= n implies lms_seen(u, d, below)
                            == lms_seen(u, d, before) + if d == u[i as int] {
                            1int
                        } else {
                            0int
                        } && lms_seen(u, d, before) >= 0 by {
                            lemma_lms_mark_step(u, i as int, before, below, d);
                        }
                    } else {
                        assert forall|d: int| 1 <= d <= n implies lms_seen(u, d, below)
                            == lms_seen(u, d, before) by {
                            lemma_lms_seen_gap(u, d, below, n as int);
                        }
                    }
                }
                if sa[p] == EMPTY {
                    sa[p] = UNIQUE;
                } else if sa[p] == UNIQUE {
                    sa[p] = MULTI;
                }
                proof {
                    assert forall|d: int| 1 <= d <= n implies #[trigger] sa@[d] == lms_mark(
                        u,
                        d,
                        scan.bound(n as int),
                    ) by {
                        assert(held[d] == lms_mark(u, d, before));
                    }
                }
            },
            None => {
                proof {
                    assert(before <= n) by {
                        assert(is_lms(u, n as int));
                    }
                    assert(!is_lms(u, 0));
                    assert forall|d: int| 1 <= d <= n implies #[trigger] sa@[d] == lms_mark(
                        u,
                        d,
                        0,
                    ) by {
                        assert(held[d] == lms_mark(u, d, before));
                        lemma_lms_seen_gap(u, d, 0, before);
                    }
                }
                break ;
            },
        }
    }
    proof {
        assert forall|x: int| 1 <= x <= n implies #[trigger] sa@[x] == marked_t(
            u,
            true,
            old(sa)@,
        )[x] by {
            lemma_lms_marks(u, old(sa)@, x);
        }
    }
}

/// Place the lms characters at the ends of their buckets, in the order of
/// the text, with nothing else in the workspace.
pub(crate) fn place_lms(s: &[u32], sa: &mut [u32]) -> (r: Ghost<(Seq<Span>, Seq<int>)>)
    requires
        pointered(text_of(s@)),
        s.len() < MULTI,
        old(sa).len() == s.len() + 1,
    ensures
        final(sa).len() == old(sa).len(),
        flat(text_of(s@), r@.0, final(sa)@, r@.1),
        l_inv(text_of(s@), false, r@.0, final(sa)@, r@.1, 0),
        forall|p: int| 0 <= p < r@.0.len() ==> (#[trigger] r@.0[p]).i == r@.0[p].head,
{
    let ghost u = text_of(s@);
    let n = s.len();
    let mut x: usize = 0;
    while x < sa.len()
        invariant
            x <= sa.len(),
            sa.len() == old(sa).len(),
            forall|p: int| 0 <= p < x ==> sa@[p] == EMPTY,
        decreases sa.len() - x,
    {
        sa[x] = EMPTY;
        x += 1;
    }
    let ghost blank = sa@;
    prepare_lms(s, sa);
    let ghost mut b = fresh_spans(u);
    let ghost mut y = start_s(u, true, bare(n as int), nowhere(n as int));
    proof {
        lemma_bare(u);
        lemma_start_s(u, true, b, bare(n as int), nowhere(n as int));
        assert forall|z: int| 1 <= z < sa.len() implies sa@[z] == marked_t(
            u,
            true,
            bare(n as int),
        )[z] by {
            assert(sa@[z] == marked_t(u, true, blank)[z]);
        }
        lemma_rep_s_first(u, true, b, marked_t(u, true, bare(n as int)), sa@, y);
        assert(is_lms(u, n as int)) by {
            lemma_last_is_l(u);
        }
    }
    let mut scan = for_each_lms(s, false);
    loop
        invariant
            u == text_of(s@),
            n == s.len(),
            sa.len() == n + 1,
            old(sa).len() == n + 1,
            scan.wf(u),
            scan.bound(n as int) <= n,
            n >= 1,
            y.pos.len() == n + 1,
            rep_s(u, true, b, sa@, y),
            sa@[0] == UNIQUE,
            forall|p: int| 0 <= p < b.len() ==> (#[trigger] b[p]).i == b[p].head,
            forall|v: int|
                0 <= v < n && #[trigger] y.pos[v] >= 0 ==> is_lms(u, v) && v >= scan.bound(
                    n as int,
                ),
            forall|v: int|
                scan.bound(n as int) <= v < n && #[trigger] is_lms(u, v) ==> y.pos[v] >= 0,
        ensures
            sa.len() == n + 1,
            rep_s(u, true, b, sa@, y),
            forall|p: int| 0 <= p < b.len() ==> (#[trigger] b[p]).i == b[p].head,
            forall|v: int| 0 <= v < n && #[trigger] y.pos[v] >= 0 ==> is_lms(u, v),
            forall|v: int| 0 < v < n && #[trigger] is_lms(u, v) ==> y.pos[v] >= 0,
        decreases scan.bound(n as int),
    {
        match scan.next(s) {
            Some((i, _)) => {
                proof {
                    lemma_rep_s(u, true, b, sa@, y);
                    assert(tail_at(u, true, u[i as int], i as int));
                    crate::sais::state::lemma_place_back(u, b, y.log, y.pos, i as int);
                }
                let r = insert_tail(s, sa, 0, i, Ghost(true), Ghost(b), Ghost(y));
                proof {
                    b = push_back_spans(b, u[i as int]);
                    y = r.1@;
                }
            },
            None => {
                break ;
            },
        }
    }
    let ghost seeded = sa@;
    sa[0] = n as u32;
    proof {
        lemma_rep_s_first(u, true, b, seeded, sa@, y);
        lemma_rep_s(u, true, b, sa@, y);
        assert forall|p: int| has_tail(u, true, p) implies (#[trigger] b[p]).j <= p by {
            let j = choose|j: int| #[trigger] tail_at(u, true, p, j);
            assert(tail_at(u, true, p, j));
            assert(j > 0);
            assert(y.pos[j] >= 0);
            assert(in_back(b, p, y.pos[j]));
            crate::construct::llhsais::layout_s::lemma_s_bucket(u, true, b, p);
        }
    }
    finish_tail(sa, Ghost(u), Ghost(true), Ghost(b), Ghost(y));
    proof {
        assert forall|v: int, w: int| 0 <= v <= n && 0 <= w <= n implies #[trigger] ordered(
            u,
            false,
            false,
            y.pos,
            v,
            w,
        ) by {
            lemma_seeds_ordered(u, b, sa@, y.pos, v, w);
        }
        lemma_seeded(u, false, b, sa@, y.pos);
    }
    Ghost((b, y.pos))
}

} // verus!
