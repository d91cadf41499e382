//! How the LMS suffixes are taken out of the workspace between the two
//! passes, counted in the places that they leave.
use vstd::prelude::*;
use crate::construct::llhsais::layout::flat;
use crate::construct::llhsais::layout_s::{
    has_tail, lemma_no_tail_inside, lemma_s_bucket, lms_seen, tail_at,
};
use crate::construct::llhsais::pointers::pointered;
use crate::construct::llhsais::{EMPTY, MULTI, UNIQUE};
use crate::construct::sacak::scan::{find_bucket, in_gap};
use crate::order::positions;
use crate::sais::count::{count, lemma_count_ranges, lemma_injection_count};
use crate::sais::induce::{drop_s, l_inv, reset_back_spans};
use crate::sais::model::{bucket_head, is_lms, is_s};
use crate::sais::state::{in_back, lemma_buckets_apart, occupied};
use crate::sais::utils::Span;

verus! {

proof fn lemma_lms_seen_count(u: Seq<int>, q: int, over: spec_fn(int) -> bool, i: int)
    requires
        0 <= i <= u.len(),
        forall|v: int| 0 <= v < u.len() ==> #[trigger] over(v) == (u[v] == q && is_lms(u, v)),
    ensures
        lms_seen(u, q, i) == count(over, u.len() as int) - count(over, i),
    decreases u.len() - i,
{
    if i < u.len() {
        lemma_lms_seen_count(u, q, over, i + 1);
    }
}

/// After the first pass, the back part of a bucket holds as many suffixes
/// as LMS positions have its symbol.
#[verifier::rlimit(100)]
#[verifier::spinoff_prover]
pub proof fn lemma_lms_back(
    u: Seq<int>,
    by_suffix: bool,
    b: Seq<Span>,
    sa: Seq<u32>,
    pos: Seq<int>,
    q: int,
)
    requires
        pointered(u),
        l_inv(u, by_suffix, b, sa, pos, u.len() as int + 1),
        has_tail(u, true, q),
    ensures
        q + 1 - b[q].j == lms_seen(u, q, 0),
        lms_seen(u, q, 0) >= 1,
        b[q].head <= b[q].j,
{
    let n = u.len() as int;
    lemma_s_bucket(u, true, b, q);
    let over_values = |v: int| u[v] == q && is_lms(u, v);
    let over_places = |x: int| b[q].j <= x < b[q].tail || b[q].tail <= x < b[q].tail;
    let to_places = pos.take(n);
    let to_values = positions(sa);
    assert forall|v: int| 0 <= v < to_places.len() && #[trigger] over_values(v) implies 0
        <= to_places[v] < n + 1 && over_places(to_places[v]) by {
        assert(pos[v] >= 0);
    }
    assert forall|v: int, w: int|
        0 <= v < w < to_places.len() && #[trigger] over_values(v) && #[trigger] over_values(
            w,
        ) implies to_places[v] != to_places[w] by {
        assert(pos[v] >= 0 && pos[w] >= 0);
    }
    lemma_injection_count(to_places, over_values, over_places, n + 1);
    assert forall|x: int| 0 <= x < to_values.len() && #[trigger] over_places(x) implies 0
        <= to_values[x] < n && over_values(to_values[x]) by {
        assert(in_back(b, q, x));
        assert(occupied(b, q, x));
        let v = sa[x] as int;
        assert(pos[v] == x);
        assert(pos[v] >= 0);
    }
    assert forall|x: int, z: int|
        0 <= x < z < to_values.len() && #[trigger] over_places(x) && #[trigger] over_places(
            z,
        ) implies to_values[x] != to_values[z] by {
        assert(occupied(b, q, x) && occupied(b, q, z));
    }
    lemma_injection_count(to_values, over_places, over_values, n);
    lemma_count_ranges(over_places, b[q].j as int, b[q].tail as int, b[q].tail as int, b[q].tail as int, n + 1);
    lemma_lms_seen_count(u, q, over_values, 0);
    crate::construct::llhsais::layout_s::lemma_lms_seen(u, q, 0);
    let i = choose|i: int| #[trigger] tail_at(u, true, q, i);
    assert(tail_at(u, true, q, i));
}

/// Whether the first pass has filled the workspace.
#[verifier::opaque]
pub open spec fn filled_l(u: Seq<int>, by_suffix: bool, b: Seq<Span>, sa: Seq<u32>, pos: Seq<int>) -> bool {
    flat(u, b, sa, pos) && l_inv(u, by_suffix, b, sa, pos, u.len() as int + 1)
}

/// What the place `x` holds when the LMS positions from `i` on have been
/// counted: a mark at the end of a bucket that holds one of them, and the
/// count before it where it holds more; else what it held.
pub open spec fn counted(u: Seq<int>, sa: Seq<u32>, i: int, x: int) -> u32 {
    if has_tail(u, true, x) && lms_seen(u, x, i) >= 1 {
        if lms_seen(u, x, i) == 1 {
            UNIQUE
        } else {
            MULTI
        }
    } else if has_tail(u, true, x + 1) && lms_seen(u, x + 1, i) >= 2 {
        lms_seen(u, x + 1, i) as u32
    } else {
        sa[x]
    }
}

/// What the place `x` holds when the buckets that end behind `p` have been
/// emptied of the LMS suffixes.
pub open spec fn emptied(u: Seq<int>, b: Seq<Span>, sa: Seq<u32>, p: int, x: int) -> u32 {
    if in_back(b, find_bucket(u, x, u.len() as int), x) && find_bucket(u, x, u.len() as int) > p {
        EMPTY
    } else {
        counted(u, sa, 0, x)
    }
}

/// The bucket in which a place lies is the one that is found for it.
pub proof fn lemma_found(u: Seq<int>, q: int, x: int)
    requires
        forall|i: int| 0 <= i < u.len() ==> 0 <= #[trigger] u[i] <= u.len(),
        0 <= q <= u.len(),
        1 <= x,
        bucket_head(u, q) <= x < bucket_head(u, q + 1),
    ensures
        find_bucket(u, x, u.len() as int) == q,
{
    let n = u.len() as int;
    crate::sais::model::lemma_bucket_head_mono(u, q + 1, n + 1);
    crate::construct::sacak::scan::lemma_find_bucket(u, x, n);
    let c = find_bucket(u, x, n);
    if c != q {
        lemma_buckets_apart(u, c, q, x, x);
    }
}

/// Where no LMS position lies, as many are seen from the one end as from
/// the other.
pub proof fn lemma_lms_seen_gap(u: Seq<int>, q: int, a: int, b: int)
    requires
        0 <= a <= b <= u.len(),
        forall|v: int| a <= v < b ==> !(#[trigger] is_lms(u, v) && u[v] == q),
    ensures
        lms_seen(u, q, a) == lms_seen(u, q, b),
    decreases b - a,
{
    if a < b {
        lemma_lms_seen_gap(u, q, a + 1, b);
        assert(!(is_lms(u, a) && u[a] == q));
    }
}

/// What the counting finds and leaves at the end of the bucket of an LMS
/// position.
#[verifier::rlimit(100)]
#[verifier::spinoff_prover]
pub proof fn lemma_counted_step(
    u: Seq<int>,
    by_suffix: bool,
    b: Seq<Span>,
    sa: Seq<u32>,
    pos: Seq<int>,
    i: int,
    bound: int,
    x: int,
)
    requires
        filled_l(u, by_suffix, b, sa, pos),
        0 < i < bound <= u.len(),
        is_lms(u, i),
        forall|v: int| i < v < bound ==> !#[trigger] is_lms(u, v),
        0 <= x <= u.len(),
    ensures
        1 <= u[i] <= u.len(),
        has_tail(u, true, u[i]),
        lms_seen(u, u[i], i) == lms_seen(u, u[i], bound) + 1,
        lms_seen(u, u[i], bound) == 0 ==> counted(u, sa, bound, u[i]) < MULTI,
        lms_seen(u, u[i], i) >= 2 ==> u[i] >= 2,
        lms_seen(u, u[i], i) + 1 < MULTI,
        lms_seen(u, u[i], i) >= 2 ==> !has_tail(u, true, u[i] - 1),
        counted(u, sa, i, x) == (if x == u[i] {
            if lms_seen(u, x, i) == 1 {
                UNIQUE
            } else {
                MULTI
            }
        } else if x == u[i] - 1 && lms_seen(u, u[i], i) >= 2 {
            lms_seen(u, u[i], i) as u32
        } else {
            counted(u, sa, bound, x)
        }),
{
    reveal(filled_l);
    let n = u.len() as int;
    let q = u[i];
    assert(tail_at(u, true, q, i));
    lemma_s_bucket(u, true, b, q);
    lemma_lms_back(u, by_suffix, b, sa, pos, q);
    lemma_lms_seen_gap(u, q, i + 1, bound);
    crate::construct::llhsais::layout_s::lemma_lms_seen(u, q, i);
    crate::construct::llhsais::layout_s::lemma_lms_seen(u, q, 0);
    lemma_lms_seen_gap_le(u, q, 0, i);
    // the last place of the bucket holds a suffix, and is no place of the bucket behind
    assert(in_back(b, q, q));
    assert(occupied(b, q, q));
    if has_tail(u, true, q + 1) {
        lemma_s_bucket(u, true, b, q + 1);
        lemma_lms_back(u, by_suffix, b, sa, pos, q + 1);
        crate::construct::llhsais::layout_s::lemma_lms_seen(u, q + 1, 0);
        lemma_lms_seen_gap_le(u, q + 1, 0, bound);
        lemma_lms_seen_gap_le(u, q + 1, 0, i);
        if lms_seen(u, q + 1, 0) >= 2 {
            lemma_no_tail_inside(u, true, b, q + 1, q);
        }
    }
    if lms_seen(u, q, 0) >= 2 {
        lemma_no_tail_inside(u, true, b, q, q - 1);
    }
    if x != q {
        if has_tail(u, true, x) {
            lemma_lms_seen_gap(u, x, i, bound);
        }
    }
    if x + 1 != q {
        if has_tail(u, true, x + 1) {
            lemma_lms_seen_gap(u, x + 1, i, bound);
        }
    }
}

/// From an earlier position on, no fewer LMS positions are seen.
pub proof fn lemma_lms_seen_gap_le(u: Seq<int>, q: int, a: int, b: int)
    requires
        0 <= a <= b <= u.len(),
    ensures
        lms_seen(u, q, a) >= lms_seen(u, q, b) >= 0,
    decreases b - a,
{
    crate::construct::llhsais::layout_s::lemma_lms_seen(u, q, b);
    if a < b {
        lemma_lms_seen_gap_le(u, q, a + 1, b);
    }
}

/// Before the counting, every place holds what it held.
pub proof fn lemma_counted_start(u: Seq<int>, sa: Seq<u32>, x: int)
    ensures
        counted(u, sa, u.len() as int, x) == sa[x],
{
}

/// What the emptying finds and leaves at a place.
#[verifier::rlimit(100)]
#[verifier::spinoff_prover]
pub proof fn lemma_emptied_step(
    u: Seq<int>,
    by_suffix: bool,
    b: Seq<Span>,
    sa: Seq<u32>,
    pos: Seq<int>,
    p: int,
    x: int,
)
    requires
        filled_l(u, by_suffix, b, sa, pos),
        1 <= p <= u.len(),
        0 <= x <= u.len(),
    ensures
        has_tail(u, true, p) ==> {
            &&& emptied(u, b, sa, p, p) == counted(u, sa, 0, p)
            &&& (counted(u, sa, 0, p) == UNIQUE || counted(u, sa, 0, p) == MULTI)
            &&& counted(u, sa, 0, p) == UNIQUE <==> lms_seen(u, p, 0) == 1
            &&& lms_seen(u, p, 0) >= 2 ==> emptied(u, b, sa, p, p - 1) == lms_seen(u, p, 0)
            &&& 1 <= lms_seen(u, p, 0) <= p
            &&& lms_seen(u, p, 0) == p + 1 - b[p].j
            &&& emptied(u, b, sa, p - 1, x) == (if p + 1 - lms_seen(u, p, 0) <= x <= p {
                EMPTY
            } else {
                emptied(u, b, sa, p, x)
            })
        },
        !has_tail(u, true, p) ==> {
            &&& emptied(u, b, sa, p, p) != UNIQUE
            &&& emptied(u, b, sa, p, p) != MULTI
            &&& emptied(u, b, sa, p - 1, x) == emptied(u, b, sa, p, x)
        },
{
    reveal(filled_l);
    let n = u.len() as int;
    crate::sais::model::lemma_bucket_head_end(u, n + 1, n);
    if x >= 1 {
        crate::construct::sacak::scan::lemma_find_bucket(u, x, n);
    }
    crate::construct::sacak::scan::lemma_find_bucket(u, p, n);
    let c = find_bucket(u, p, n);
    assert(b[c].head == bucket_head(u, c));
    if has_tail(u, true, p) {
        lemma_s_bucket(u, true, b, p);
        lemma_lms_back(u, by_suffix, b, sa, pos, p);
        assert(b[p].head == bucket_head(u, p));
        lemma_found(u, p, p);
        if lms_seen(u, p, 0) >= 2 {
            lemma_no_tail_inside(u, true, b, p, p - 1);
            lemma_found(u, p, p - 1);
        }
        if x >= 1 {
            let d = find_bucket(u, x, n);
            assert(b[d].head == bucket_head(u, d));
            if b[p].j <= x <= p {
                lemma_found(u, p, x);
            }
        }
    } else {
        // no mark stands here: what stands here is a suffix, a count or nothing
        crate::construct::llhsais::layout::lemma_flat_cell(u, b, sa, pos, p);
        lemma_find_zero(u, n);
        if has_tail(u, true, p + 1) {
            lemma_lms_back(u, by_suffix, b, sa, pos, p + 1);
            lemma_s_bucket(u, true, b, p + 1);
        }
        if x >= 1 {
            let d = find_bucket(u, x, n);
            assert(b[d].head == bucket_head(u, d));
            if d == p && in_back(b, d, x) {
                // then an LMS suffix would stand in the bucket that ends here
                assert(occupied(b, p, x));
                let v = sa[x] as int;
                assert(pos[v] == x);
                assert(pos[v] >= 0);
                assert(is_s(u, v));
                assert(is_lms(u, v));
                assert(tail_at(u, true, p, v));
            }
        }
    }
}

/// With every bucket emptied of the LMS suffixes, the second pass can begin.
#[verifier::rlimit(100)]
#[verifier::spinoff_prover]
pub proof fn lemma_emptied_all(
    u: Seq<int>,
    by_suffix: bool,
    b: Seq<Span>,
    sa: Seq<u32>,
    pos: Seq<int>,
    sa2: Seq<u32>,
)
    requires
        filled_l(u, by_suffix, b, sa, pos),
        sa2.len() == sa.len(),
        forall|x: int| 0 <= x <= u.len() ==> sa2[x] == emptied(u, b, sa, 0, x),
    ensures
        flat(u, reset_back_spans(b), sa2, drop_s(u, pos)),
        crate::sais::induce::s_inv(
            u,
            by_suffix,
            reset_back_spans(b),
            sa2,
            drop_s(u, pos),
            u.len() as int + 1,
        ),
{
    reveal(filled_l);
    let n = u.len() as int;
    let b2 = reset_back_spans(b);
    crate::sais::induce::lemma_l_to_s(u, by_suffix, b, sa, pos);
    crate::sais::model::lemma_bucket_head_end(u, n + 1, n);
    assert(sa2[0] == sa[0]) by {
        assert(b[0].head == bucket_head(u, 0));
        crate::sais::model::lemma_count_below_none(u, n);
        lemma_find_zero(u, n);
        lemma_outside_back(u, by_suffix, b, sa, pos, 0);
    }
    assert forall|c: int, x: int| 0 <= c < b2.len() && #[trigger] occupied(b2, c, x) implies sa2[x]
        == sa[x] by {
        assert(b[c].head == bucket_head(u, c));
        crate::sais::model::lemma_bucket_head_mono(u, c, c + 1);
        crate::sais::model::lemma_bucket_head_mono(u, c + 1, n + 1);
        lemma_found(u, c, x);
        lemma_outside_back(u, by_suffix, b, sa, pos, x);
    }
    crate::construct::sacak::scan::lemma_s_frame(u, by_suffix, b2, sa, sa2, drop_s(u, pos), n + 1);
    assert forall|c: int, x: int| 0 <= c < b2.len() && #[trigger] in_gap(b2, c, x) implies sa2[x]
        == EMPTY by {
        assert(b[c].head == bucket_head(u, c));
        crate::sais::model::lemma_bucket_head_mono(u, c, c + 1);
        crate::sais::model::lemma_bucket_head_mono(u, c + 1, n + 1);
        lemma_no_symbol_zero(u, n);
        lemma_found(u, c, x);
        assert(sa2[x] == emptied(u, b, sa, 0, x));
        if !in_back(b, c, x) {
            assert(in_gap(b, c, x));
            lemma_outside_back(u, by_suffix, b, sa, pos, x);
        }
    }
}

/// Outside the back parts of the buckets, the counting changes nothing.
pub proof fn lemma_outside_back(
    u: Seq<int>,
    by_suffix: bool,
    b: Seq<Span>,
    sa: Seq<u32>,
    pos: Seq<int>,
    x: int,
)
    requires
        filled_l(u, by_suffix, b, sa, pos),
        0 <= x <= u.len(),
        !in_back(b, find_bucket(u, x, u.len() as int), x),
    ensures
        counted(u, sa, 0, x) == sa[x],
        emptied(u, b, sa, 0, x) == sa[x],
{
    reveal(filled_l);
    if has_tail(u, true, x) {
        lemma_s_bucket(u, true, b, x);
        lemma_lms_back(u, by_suffix, b, sa, pos, x);
        assert(b[x].head == bucket_head(u, x));
        lemma_found(u, x, x);
    }
    if has_tail(u, true, x + 1) {
        lemma_s_bucket(u, true, b, x + 1);
        lemma_lms_back(u, by_suffix, b, sa, pos, x + 1);
        assert(b[x + 1].head == bucket_head(u, x + 1));
        if lms_seen(u, x + 1, 0) >= 2 {
            lemma_found(u, x + 1, x);
        }
    }
}

/// No pointer is zero, so the bucket of zero is empty.
pub proof fn lemma_no_symbol_zero(u: Seq<int>, k: int)
    requires
        forall|i: int| 0 <= i < u.len() ==> 1 <= #[trigger] u[i],
        0 <= k <= u.len(),
    ensures
        crate::sais::model::count_below(u, 1, k) == 0,
        crate::sais::model::count_below(u, 0, k) == 0,
    decreases k,
{
    if k > 0 {
        lemma_no_symbol_zero(u, k - 1);
    }
}

pub proof fn lemma_find_zero(u: Seq<int>, c: int)
    requires
        0 <= c,
    ensures
        find_bucket(u, 0, c) == 0,
    decreases c,
{
    crate::sais::model::lemma_bucket_head_mono(u, c, c);
    if c > 0 {
        lemma_find_zero(u, c - 1);
    }
}

/// Before the emptying, every place holds what the counting left.
pub proof fn lemma_emptied_start(
    u: Seq<int>,
    by_suffix: bool,
    b: Seq<Span>,
    sa: Seq<u32>,
    pos: Seq<int>,
    x: int,
)
    requires
        filled_l(u, by_suffix, b, sa, pos),
        0 <= x <= u.len(),
    ensures
        emptied(u, b, sa, u.len() as int, x) == counted(u, sa, 0, x),
{
    reveal(filled_l);
    let n = u.len() as int;
    crate::sais::model::lemma_bucket_head_end(u, n + 1, n);
    if x >= 1 {
        crate::construct::sacak::scan::lemma_find_bucket(u, x, n);
    } else {
        lemma_find_zero(u, n);
    }
}

/// The workspace after the LMS suffix `i` has been counted in.
pub open spec fn count_put(held: Seq<u32>, p: int) -> Seq<u32> {
    if held[p] == UNIQUE {
        held.update(p, MULTI).update(p - 1, 2)
    } else if held[p] == MULTI {
        held.update(p - 1, (held[p - 1] + 1) as u32)
    } else {
        held.update(p, UNIQUE)
    }
}

/// Counting the next LMS suffix in keeps the workspace what the counting
/// from its position leaves.
#[verifier::rlimit(100)]
#[verifier::spinoff_prover]
pub proof fn lemma_count_put(
    u: Seq<int>,
    by_suffix: bool,
    b: Seq<Span>,
    sa: Seq<u32>,
    pos: Seq<int>,
    i: int,
    bound: int,
    below: int,
    held: Seq<u32>,
)
    requires
        filled_l(u, by_suffix, b, sa, pos),
        0 <= below <= i < bound <= u.len(),
        0 < i,
        is_lms(u, i),
        forall|v: int| below <= v < bound && v != i ==> !#[trigger] is_lms(u, v),
        held.len() == u.len() + 1,
        forall|x: int| 0 <= x <= u.len() ==> #[trigger] held[x] == counted(u, sa, bound, x),
    ensures
        1 <= u[i] <= u.len(),
        held[u[i]] == MULTI ==> held[u[i] - 1] + 1 < MULTI,
        forall|x: int|
            0 <= x <= u.len() ==> #[trigger] count_put(held, u[i])[x] == counted(u, sa, below, x),
{
    reveal(filled_l);
    let n = u.len() as int;
    let p = u[i];
    lemma_counted_step(u, by_suffix, b, sa, pos, i, bound, p);
    lemma_counted_step(u, by_suffix, b, sa, pos, i, bound, p - 1);
    assert(held[p] == counted(u, sa, bound, p));
    assert(held[p - 1] == counted(u, sa, bound, p - 1));
    lemma_lms_seen_gap_le(u, p, i, bound);
    assert(held[p] == MULTI ==> lms_seen(u, p, bound) >= 2);
    assert(held[p] == UNIQUE ==> lms_seen(u, p, bound) == 1);
    assert forall|x: int| 0 <= x <= n implies #[trigger] count_put(held, p)[x] == counted(
        u,
        sa,
        below,
        x,
    ) by {
        lemma_counted_step(u, by_suffix, b, sa, pos, i, bound, x);
        assert(held[x] == counted(u, sa, bound, x));
        if has_tail(u, true, x) {
            lemma_lms_seen_gap(u, x, below, i);
        }
        if has_tail(u, true, x + 1) {
            lemma_lms_seen_gap(u, x + 1, below, i);
        }
    }
}

/// Positions without an LMS suffix do not change what the counting leaves.
pub proof fn lemma_counted_gap(u: Seq<int>, sa: Seq<u32>, below: int, bound: int, x: int)
    requires
        0 <= below <= bound <= u.len(),
        forall|v: int| below <= v < bound ==> !#[trigger] is_lms(u, v),
    ensures
        counted(u, sa, below, x) == counted(u, sa, bound, x),
{
    if has_tail(u, true, x) {
        lemma_lms_seen_gap(u, x, below, bound);
    }
    if has_tail(u, true, x + 1) {
        lemma_lms_seen_gap(u, x + 1, below, bound);
    }
}

/// The first position holds no LMS suffix.
pub proof fn lemma_counted_zero(u: Seq<int>, sa: Seq<u32>, x: int)
    requires
        u.len() >= 1,
    ensures
        counted(u, sa, 0, x) == counted(u, sa, 1, x),
{
    assert(!is_lms(u, 0));
    assert forall|v: int| 0 <= v < 1 implies !#[trigger] is_lms(u, v) by {}
    lemma_counted_gap(u, sa, 0, 1, x);
}

} // verus!
