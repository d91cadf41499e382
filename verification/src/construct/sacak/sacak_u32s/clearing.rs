//! Taking the LMS suffixes out of the buckets between the two passes.
use vstd::prelude::*;
use crate::construct::llhsais::clearing::{
    filled_l, lemma_lms_back, lemma_lms_seen_gap, lemma_outside_back,
};
use crate::construct::llhsais::layout_s::{
    has_tail, lemma_lms_seen, lemma_s_bucket, lms_seen, tail_at,
};
use crate::construct::llhsais::pointers::pointered;
use crate::construct::llhsais::seeding::lemma_lms_mark_step;
use crate::construct::sacak::sacak_u32s::heads::{home, lemma_home, tally};
use crate::construct::sacak::sacak_u32s::plain::{level, lift, tidy};
use crate::construct::sacak::sacak_u32s::EMPTY;
use crate::sais::induce::{drop_s, l_inv, reset_back_spans, s_inv};
use crate::sais::model::is_lms;
use crate::sais::state::{in_back, occupied, spans_wf};
use crate::sais::utils::Span;

verus! {

/// What the place `x` holds when the LMS positions from `i` on have been
/// counted.
pub open spec fn counted(u: Seq<int>, sa: Seq<u32>, i: int, x: int) -> u32 {
    if has_tail(u, true, x) && lms_seen(u, x, i) >= 1 {
        tally(lms_seen(u, x, i))
    } else {
        sa[x]
    }
}

/// What the place `x` holds when the buckets that end behind `p` have been
/// emptied of the LMS suffixes.
pub open spec fn emptied(u: Seq<int>, sa: Seq<u32>, p: int, x: int) -> u32 {
    if 1 <= x && has_tail(u, true, home(u, x)) && home(u, x) > p && x > home(u, x) - lms_seen(
        u,
        home(u, x),
        0,
    ) {
        EMPTY
    } else {
        counted(u, sa, 0, x)
    }
}

/// The workspace after one more LMS suffix with the pointer `p` has been
/// counted.
pub open spec fn count_put(held: Seq<u32>, p: int) -> Seq<u32> {
    if held[p] > EMPTY {
        held.update(p, (held[p] - 1) as u32)
    } else {
        held.update(p, 0xffff_ffffu32)
    }
}

/// No more LMS positions have a symbol than the string is long.
pub proof fn lemma_lms_seen_le(u: Seq<int>, p: int, i: int)
    requires
        0 <= i <= u.len(),
    ensures
        0 <= lms_seen(u, p, i) <= u.len() - i,
    decreases u.len() - i,
{
    if i < u.len() {
        lemma_lms_seen_le(u, p, i + 1);
    }
}

/// Counting the next LMS suffix in keeps the workspace what the counting
/// from its position leaves.
pub proof fn lemma_count_put(
    u: Seq<int>,
    sa: Seq<u32>,
    i: int,
    bound: int,
    below: int,
    held: Seq<u32>,
)
    requires
        pointered(u),
        u.len() < EMPTY,
        tidy(sa),
        sa.len() == u.len() + 1,
        held.len() == u.len() + 1,
        0 <= below <= i < bound <= u.len(),
        0 < i,
        is_lms(u, i),
        forall|v: int| below <= v < bound && v != i ==> !#[trigger] is_lms(u, v),
        forall|x: int| 0 <= x <= u.len() ==> #[trigger] held[x] == counted(u, sa, bound, x),
    ensures
        1 <= u[i] <= u.len(),
        held[u[i]] > EMPTY ==> held[u[i]] - 1 > EMPTY,
        forall|x: int|
            0 <= x <= u.len() ==> #[trigger] count_put(held, u[i])[x] == counted(u, sa, below, x),
{
    let n = u.len() as int;
    let p = u[i];
    assert(tail_at(u, true, p, i));
    lemma_lms_seen_le(u, p, below);
    lemma_lms_seen_le(u, p, bound);
    assert(held[p] == counted(u, sa, bound, p));
    assert(sa[p] <= EMPTY);
    assert forall|x: int| 0 <= x <= n implies #[trigger] count_put(held, p)[x] == counted(
        u,
        sa,
        below,
        x,
    ) by {
        lemma_lms_mark_step(u, i, bound, below, x);
        assert(held[x] == counted(u, sa, bound, x));
    }
}

/// Positions without an LMS suffix do not change what the counting leaves.
pub proof fn lemma_counted_gap(u: Seq<int>, sa: Seq<u32>, below: int, bound: int, x: int)
    requires
        0 <= below <= bound <= u.len(),
        forall|v: int| below <= v < bound ==> !#[trigger] is_lms(u, v),
    ensures
        counted(u, sa, below, x) == counted(u, sa, bound, x),
{
    lemma_lms_seen_gap(u, x, below, bound);
}

/// What the emptying finds at the place `p`, and what it leaves at the
/// place `x`.
pub proof fn lemma_emptied_step(u: Seq<int>, b: Seq<Span>, sa: Seq<u32>, p: int, x: int)
    requires
        pointered(u),
        spans_wf(u, b),
        b.len() == u.len() + 1,
        u.len() < EMPTY,
        tidy(sa),
        sa.len() == u.len() + 1,
        1 <= p <= u.len(),
        0 <= x <= u.len(),
    ensures
        emptied(u, sa, p, p) > EMPTY <==> has_tail(u, true, p),
        has_tail(u, true, p) ==> emptied(u, sa, p, p) == tally(lms_seen(u, p, 0)) && 1 <= lms_seen(
            u,
            p,
            0,
        ) <= p,
        emptied(u, sa, p - 1, x) == (if has_tail(u, true, p) && p - lms_seen(u, p, 0) < x <= p {
            EMPTY
        } else {
            emptied(u, sa, p, x)
        }),
{
    let n = u.len() as int;
    lemma_home(u, b, p);
    lemma_lms_seen_le(u, p, 0);
    assert(sa[p] <= EMPTY);
    if has_tail(u, true, p) {
        lemma_s_bucket(u, true, b, p);
        lemma_lms_seen(u, p, 0);
        let j = choose|j: int| #[trigger] tail_at(u, true, p, j);
        assert(tail_at(u, true, p, j));
        assert(home(u, p) == p);
    } else {
        let t = home(u, p);
        if has_tail(u, true, t) && t > p {
            lemma_s_bucket(u, true, b, t);
        }
    }
    if x >= 1 {
        lemma_home(u, b, x);
        let t = home(u, x);
        if has_tail(u, true, p) {
            lemma_s_bucket(u, true, b, p);
            if p - lms_seen(u, p, 0) < x <= p {
                assert(home(u, x) == p);
            }
        }
    }
}

/// Before any bucket is emptied, every place holds what the counting
/// left.
pub proof fn lemma_emptied_start(u: Seq<int>, b: Seq<Span>, sa: Seq<u32>, x: int)
    requires
        pointered(u),
        spans_wf(u, b),
        b.len() == u.len() + 1,
        0 <= x <= u.len(),
    ensures
        emptied(u, sa, u.len() as int, x) == counted(u, sa, 0, x),
{
    if x >= 1 {
        lemma_home(u, b, x);
    }
}

/// With every bucket emptied of the LMS suffixes, the second pass can
/// begin.
pub proof fn lemma_emptied_all(
    u: Seq<int>,
    by_suffix: bool,
    b: Seq<Span>,
    sa: Seq<u32>,
    pos: Seq<int>,
    sa2: Seq<u32>,
)
    requires
        level(u, b, sa, pos),
        l_inv(u, by_suffix, b, lift(sa), pos, u.len() as int + 1),
        sa2.len() == sa.len(),
        forall|x: int| 0 <= x <= u.len() ==> #[trigger] sa2[x] == emptied(u, sa, 0, x),
    ensures
        level(u, reset_back_spans(b), sa2, drop_s(u, pos)),
        s_inv(u, by_suffix, reset_back_spans(b), lift(sa2), drop_s(u, pos), u.len() as int + 1),
{
    let n = u.len() as int;
    let log = lift(sa);
    let log2 = lift(sa2);
    assert(filled_l(u, by_suffix, b, log, pos)) by {
        reveal(filled_l);
    }
    assert forall|x: int| 0 <= x <= n implies #[trigger] sa2[x] <= EMPTY && log2[x]
        == crate::construct::llhsais::clearing::emptied(u, b, log, 0, x) by {
        assert(sa[x] <= EMPTY);
        assert(sa2[x] == emptied(u, sa, 0, x));
        if x >= 1 {
            lemma_home(u, b, x);
            let t = home(u, x);
            if has_tail(u, true, t) {
                lemma_s_bucket(u, true, b, t);
                lemma_lms_back(u, by_suffix, b, log, pos, t);
            }
            if in_back(b, t, x) {
                assert(occupied(b, t, x));
                let v = log[x] as int;
                assert(pos[v] == x && u[v] == t);
                assert(crate::sais::model::is_s(u, v));
                assert(is_lms(u, v));
                assert(tail_at(u, true, t, v));
                lemma_s_bucket(u, true, b, t);
                lemma_lms_back(u, by_suffix, b, log, pos, t);
            } else {
                lemma_outside_back(u, by_suffix, b, log, pos, x);
                if has_tail(u, true, x) {
                    lemma_s_bucket(u, true, b, x);
                    lemma_lms_back(u, by_suffix, b, log, pos, x);
                    lemma_lms_seen(u, x, 0);
                    lemma_home(u, b, x);
                }
            }
        } else {
            crate::construct::llhsais::clearing::lemma_find_zero(u, n);
            assert(b[0].head == crate::sais::model::bucket_head(u, 0));
            crate::sais::model::lemma_bucket_head_mono(u, 0, 0);
            lemma_outside_back(u, by_suffix, b, log, pos, x);
            if has_tail(u, true, x) {
                let j = choose|j: int| #[trigger] tail_at(u, true, x, j);
                assert(tail_at(u, true, x, j));
            }
        }
    }
    crate::construct::llhsais::clearing::lemma_emptied_all(u, by_suffix, b, log, pos, log2);
}

} // verus!
