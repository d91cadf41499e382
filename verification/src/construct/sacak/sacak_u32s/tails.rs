//! How the workspace holds the buckets while S-type suffixes are placed:
//! a bucket that is being filled keeps the number of its suffixes in its
//! last place, and the suffixes one place before their own.
use vstd::prelude::*;
use crate::construct::llhsais::layout::{flat, l_at, lemma_l_bucket};
use crate::construct::llhsais::layout_s::{
    fronts_full, has_tail, lemma_no_tail_inside, lemma_s_bucket, lemma_s_bucket_front,
    lemma_s_symbol, tail_at,
};
use crate::construct::llhsais::pointers::{pointered, size};
use crate::construct::sacak::sacak_u32s::heads::{
    filled, home, lemma_filled, lemma_filled_holds, lemma_home, none, tally,
};
use crate::construct::sacak::sacak_u32s::plain::{level, lift, tidy};
use crate::construct::sacak::sacak_u32s::EMPTY;
use crate::construct::sacak::scan::in_gap;
use crate::sais::induce::{lemma_advance_s, s_inv};
use crate::sais::model::{bucket_head, is_s, lemma_bucket_head_end, lemma_bucket_head_mono};
use crate::sais::state::{in_back, in_front, lemma_place_back, occupied, placed, push_back_spans};
use crate::sais::utils::Span;

verus! {

/// Whether the bucket of the S-type symbol `t` is kept before its count.
pub open spec fn counts_s(u: Seq<int>, cnt: Seq<bool>, t: int) -> bool {
    1 <= t <= u.len() && has_tail(u, false, t) && cnt[t]
}

/// Whether the place `z` holds the suffix of the place behind it, whose
/// bucket is kept before its count.
pub open spec fn shifted_s(u: Seq<int>, b: Seq<Span>, cnt: Seq<bool>, z: int) -> bool {
    1 <= z < u.len() && counts_s(u, cnt, home(u, z + 1)) && z + 1 >= b[home(u, z + 1)].j
}

/// What the place `z` of the workspace holds.
pub open spec fn drawn_s(u: Seq<int>, b: Seq<Span>, log: Seq<u32>, cnt: Seq<bool>, z: int) -> u32 {
    if counts_s(u, cnt, z) {
        tally(z + 1 - b[z].j)
    } else if shifted_s(u, b, cnt, z) {
        log[z + 1]
    } else if filled(u, b, z) {
        log[z]
    } else {
        EMPTY
    }
}

/// The place for whose suffix the place `z` of the workspace stands.
pub open spec fn seat_s(u: Seq<int>, b: Seq<Span>, cnt: Seq<bool>, z: int) -> int {
    if shifted_s(u, b, cnt, z) {
        z + 1
    } else {
        z
    }
}

/// Whether the workspace `sa` holds, behind its first place, the suffixes
/// that `log` has in their final places, while S-type suffixes are placed
/// in the buckets `b` of the pointers `u`, where `cnt` tells the buckets
/// that are kept before their counts.
#[verifier::opaque]
pub open spec fn kept_s(
    u: Seq<int>,
    b: Seq<Span>,
    sa: Seq<u32>,
    log: Seq<u32>,
    pos: Seq<int>,
    cnt: Seq<bool>,
) -> bool {
    let n = u.len() as int;
    &&& pointered(u)
    &&& n < EMPTY
    &&& b.len() == n + 1
    &&& sa.len() == n + 1
    &&& cnt.len() == n + 1
    &&& placed(u, b, log, pos)
    &&& forall|t: int| 0 <= t <= n && #[trigger] cnt[t] ==> has_tail(u, false, t) && b[t].j <= t
    &&& forall|t: int|
        0 <= t <= n && #[trigger] cnt[t] && b[t].j == b[t].head ==> b[t].head >= 2 && !filled(
            u,
            b,
            b[t].head - 1,
        ) && !counts_s(u, cnt, b[t].head - 1)
    &&& forall|z: int| 1 <= z <= n ==> #[trigger] sa[z] == drawn_s(u, b, log, cnt, z)
}

/// Whether each bucket that is kept without a count holds nothing or is
/// full.
pub open spec fn snug_s(u: Seq<int>, b: Seq<Span>, cnt: Seq<bool>) -> bool {
    forall|t: int|
        1 <= t <= u.len() && has_tail(u, false, t) && !#[trigger] cnt[t] && b[t].j <= t ==> b[t].j
            == b[t].head
}

/// What the invariant says of every workspace.
pub proof fn lemma_kept_s(
    u: Seq<int>,
    b: Seq<Span>,
    sa: Seq<u32>,
    log: Seq<u32>,
    pos: Seq<int>,
    cnt: Seq<bool>,
)
    requires
        kept_s(u, b, sa, log, pos, cnt),
    ensures
        pointered(u),
        u.len() < EMPTY,
        b.len() == u.len() + 1,
        sa.len() == u.len() + 1,
        cnt.len() == u.len() + 1,
        log.len() == u.len() + 1,
        pos.len() == u.len() + 1,
        placed(u, b, log, pos),
        forall|t: int| 0 <= t <= u.len() && #[trigger] cnt[t] ==> counts_s(u, cnt, t),
{
    reveal(kept_s);
    assert forall|t: int| 0 <= t <= u.len() && #[trigger] cnt[t] implies counts_s(u, cnt, t) by {
        lemma_s_bucket(u, false, b, t);
    }
}

/// The place before the first suffix of a bucket that is kept before its
/// count is a place of the bucket, or the one before the bucket, where
/// no suffix belongs yet and no count stands.
pub proof fn lemma_shift_end_s(
    u: Seq<int>,
    b: Seq<Span>,
    sa: Seq<u32>,
    log: Seq<u32>,
    pos: Seq<int>,
    cnt: Seq<bool>,
    z: int,
)
    requires
        kept_s(u, b, sa, log, pos, cnt),
        shifted_s(u, b, cnt, z),
    ensures
        !counts_s(u, cnt, z),
        b[home(u, z + 1)].j - 1 <= z < home(u, z + 1),
        b[home(u, z + 1)].head <= b[home(u, z + 1)].j,
        filled(u, b, z) ==> z >= b[home(u, z + 1)].j && home(u, z) == home(u, z + 1),
        z >= b[home(u, z + 1)].head ==> home(u, z) == home(u, z + 1),
{
    reveal(kept_s);
    let n = u.len() as int;
    let t = home(u, z + 1);
    lemma_home(u, b, z + 1);
    lemma_home(u, b, z);
    lemma_s_bucket(u, false, b, t);
    lemma_s_bucket_front(u, false, b, log, pos, t);
    assert(cnt[t]);
    if z >= b[t].head {
        assert(home(u, z) == t);
        if has_tail(u, false, z) {
            lemma_no_tail_inside(u, false, b, t, z);
        }
    } else {
        assert(b[t].j == b[t].head);
        assert(z == b[t].head - 1);
    }
}

/// What one place of the workspace holds.
pub proof fn lemma_cell_s(
    u: Seq<int>,
    b: Seq<Span>,
    sa: Seq<u32>,
    log: Seq<u32>,
    pos: Seq<int>,
    cnt: Seq<bool>,
    z: int,
)
    requires
        kept_s(u, b, sa, log, pos, cnt),
        1 <= z <= u.len(),
    ensures
        sa[z] == drawn_s(u, b, log, cnt, z),
        sa[z] > EMPTY <==> counts_s(u, cnt, z),
        counts_s(u, cnt, z) ==> 1 <= z + 1 - b[z].j <= size(u, z) && b[z].tail == z + 1 && b[z].head
            == z + 1 - size(u, z) && b[z].i == b[z].head && !shifted_s(u, b, cnt, z) && z - (z + 1
            - b[z].j) >= 1,
        sa[z] < EMPTY <==> !counts_s(u, cnt, z) && (shifted_s(u, b, cnt, z) || filled(u, b, z)),
        sa[z] < EMPTY ==> sa[z] == log[seat_s(u, b, cnt, z)] && filled(
            u,
            b,
            seat_s(u, b, cnt, z),
        ) && sa[z] < u.len() && pos[sa[z] as int] == seat_s(u, b, cnt, z),
{
    reveal(kept_s);
    let n = u.len() as int;
    assert(sa[z] == drawn_s(u, b, log, cnt, z));
    if counts_s(u, cnt, z) {
        lemma_s_bucket(u, false, b, z);
        lemma_s_bucket_front(u, false, b, log, pos, z);
        assert(cnt[z]);
        if shifted_s(u, b, cnt, z) {
            lemma_shift_end_s(u, b, sa, log, pos, cnt, z);
        }
        if b[z].j == b[z].head {
            assert(b[z].head >= 2);
        }
    }
    if shifted_s(u, b, cnt, z) {
        let t = home(u, z + 1);
        lemma_home(u, b, z + 1);
        assert(in_back(b, t, z + 1));
        assert(occupied(b, t, z + 1));
        lemma_filled_holds(u, b, log, pos, z + 1);
        lemma_shift_end_s(u, b, sa, log, pos, cnt, z);
    } else if filled(u, b, z) {
        lemma_filled_holds(u, b, log, pos, z);
    }
}

/// Whether the suffix `w` is an S-type suffix that can be placed.
pub open spec fn pending_s(u: Seq<int>, pos: Seq<int>, w: int) -> bool {
    0 <= w < u.len() && is_s(u, w) && pos[w] < 0
}

/// What the last place of the bucket of a suffix that can be placed tells.
pub proof fn lemma_pending_s(
    u: Seq<int>,
    b: Seq<Span>,
    sa: Seq<u32>,
    log: Seq<u32>,
    pos: Seq<int>,
    cnt: Seq<bool>,
    w: int,
)
    requires
        kept_s(u, b, sa, log, pos, cnt),
        snug_s(u, b, cnt),
        pending_s(u, pos, w),
    ensures
        1 <= u[w] <= u.len(),
        has_tail(u, false, u[w]),
        b[u[w]].tail == u[w] + 1,
        b[u[w]].head == u[w] + 1 - size(u, u[w]),
        b[u[w]].head >= 1,
        b[u[w]].i == b[u[w]].head,
        b[u[w]].head < b[u[w]].j <= u[w] + 1,
        sa[u[w]] > EMPTY <==> cnt[u[w]],
        cnt[u[w]] ==> sa[u[w]] == tally(u[w] + 1 - b[u[w]].j) && 1 <= u[w] + 1 - b[u[w]].j,
        !cnt[u[w]] ==> b[u[w]].j == u[w] + 1 && !filled(u, b, u[w]),
        sa[u[w]] < EMPTY <==> shifted_s(u, b, cnt, u[w]),
        placed(
            u,
            push_back_spans(b, u[w]),
            log.update(b[u[w]].j - 1, w as u32),
            pos.update(w, b[u[w]].j - 1),
        ),
{
    reveal(kept_s);
    let p = u[w];
    assert(tail_at(u, false, p, w));
    lemma_s_bucket(u, false, b, p);
    lemma_s_bucket_front(u, false, b, log, pos, p);
    lemma_place_back(u, b, log, pos, w);
    lemma_cell_s(u, b, sa, log, pos, cnt, p);
    lemma_home(u, b, p);
    if !cnt[p] {
        if b[p].j <= p {
            assert(b[p].j == b[p].head);
        }
        assert(!in_front(b, p, p));
        assert(!in_back(b, p, p));
    }
}

/// The workspace after the suffixes before the count in the place `t` have
/// moved to their own places, with `last` before them.
pub open spec fn pushed(sa: Seq<u32>, t: int, k: int, last: u32) -> Seq<u32> {
    Seq::new(
        sa.len(),
        |z: int|
            if t - k < z <= t {
                sa[z - 1]
            } else if z == t - k {
                last
            } else {
                sa[z]
            },
    )
}

/// Where the scan stands after such a move, when it stood at `c`.
pub open spec fn pushed_at(t: int, k: int, c: int) -> int {
    if t - k <= c < t {
        c + 1
    } else {
        c
    }
}

/// A bucket that is kept before its count can be kept without it.
#[verifier::rlimit(100)]
#[verifier::spinoff_prover]
pub proof fn lemma_settle_s(
    u: Seq<int>,
    b: Seq<Span>,
    sa: Seq<u32>,
    log: Seq<u32>,
    pos: Seq<int>,
    cnt: Seq<bool>,
    t: int,
)
    requires
        kept_s(u, b, sa, log, pos, cnt),
        counts_s(u, cnt, t),
    ensures
        sa[t] == tally(t + 1 - b[t].j),
        1 <= t + 1 - b[t].j,
        b[t].j >= 2,
        kept_s(u, b, pushed(sa, t, t + 1 - b[t].j, EMPTY), log, pos, cnt.update(t, false)),
        snug_s(u, b, cnt) && b[t].j == b[t].head ==> snug_s(u, b, cnt.update(t, false)),
        forall|c: int|
            1 <= c <= u.len() && #[trigger] sa[c] < EMPTY ==> pushed(sa, t, t + 1 - b[t].j, EMPTY)[pushed_at(
                t,
                t + 1 - b[t].j,
                c,
            )] == sa[c] && seat_s(u, b, cnt.update(t, false), pushed_at(t, t + 1 - b[t].j, c))
                == seat_s(u, b, cnt, c),
{
    reveal(kept_s);
    let n = u.len() as int;
    let k = t + 1 - b[t].j;
    let sa2 = pushed(sa, t, k, EMPTY);
    let cnt2 = cnt.update(t, false);
    lemma_cell_s(u, b, sa, log, pos, cnt, t);
    lemma_s_bucket(u, false, b, t);
    lemma_s_bucket_front(u, false, b, log, pos, t);
    assert(cnt[t]);
    let h = b[t].head as int;
    assert forall|z: int| h <= z <= t implies home(u, z) == t by {
        lemma_home(u, b, z);
    }
    assert forall|z: int| 1 <= z <= n implies #[trigger] sa2[z] == drawn_s(u, b, log, cnt2, z) by {
        lemma_cell_s(u, b, sa, log, pos, cnt, z);
        if z >= 2 {
            lemma_cell_s(u, b, sa, log, pos, cnt, z - 1);
        }
        if z + 1 <= n {
            lemma_home(u, b, z + 1);
        }
        lemma_home(u, b, z);
        if t - k < z <= t {
            assert(in_back(b, t, z));
            assert(occupied(b, t, z));
            assert(shifted_s(u, b, cnt, z - 1));
            if z < t {
                assert(!has_tail(u, false, z)) by {
                    lemma_no_tail_inside(u, false, b, t, z);
                }
            }
        }
        if z == t - k {
            if z >= h {
                assert(!has_tail(u, false, z)) by {
                    lemma_no_tail_inside(u, false, b, t, z);
                }
                assert(!in_back(b, t, z) && !in_front(b, t, z));
            }
        }
    }
    assert forall|q: int|
        0 <= q <= n && #[trigger] cnt2[q] && b[q].j == b[q].head implies b[q].head >= 2 && !filled(
        u,
        b,
        b[q].head - 1,
    ) && !counts_s(u, cnt2, b[q].head - 1) by {
        assert(cnt[q]);
    }
    assert forall|c: int| 1 <= c <= n && #[trigger] sa[c] < EMPTY implies sa2[pushed_at(t, k, c)]
        == sa[c] && seat_s(u, b, cnt2, pushed_at(t, k, c)) == seat_s(u, b, cnt, c) by {
        lemma_cell_s(u, b, sa, log, pos, cnt, c);
        if c + 1 <= n {
            lemma_home(u, b, c + 1);
        }
        if c + 2 <= n {
            lemma_home(u, b, c + 2);
        }
        if t - k <= c < t {
            assert(shifted_s(u, b, cnt, c));
            if c + 1 == t {
                if shifted_s(u, b, cnt2, t) {
                    let q = home(u, t + 1);
                    assert(cnt[q]);
                    lemma_s_bucket(u, false, b, q);
                }
            }
        }
    }
}

/// The layout after a suffix has been written to the place where it
/// belongs, in a bucket that holds nothing yet and has one place.
#[verifier::rlimit(100)]
#[verifier::spinoff_prover]
pub proof fn lemma_single_s(
    u: Seq<int>,
    b: Seq<Span>,
    sa: Seq<u32>,
    log: Seq<u32>,
    pos: Seq<int>,
    cnt: Seq<bool>,
    w: int,
)
    requires
        kept_s(u, b, sa, log, pos, cnt),
        snug_s(u, b, cnt),
        pending_s(u, pos, w),
        sa[u[w]] == EMPTY,
        u[w] <= 1 || sa[u[w] - 1] != EMPTY,
    ensures
        kept_s(
            u,
            push_back_spans(b, u[w]),
            sa.update(u[w], w as u32),
            log.update(u[w], w as u32),
            pos.update(w, u[w]),
            cnt,
        ),
        snug_s(u, push_back_spans(b, u[w]), cnt),
        b[u[w]].j == u[w] + 1,
        forall|c: int|
            1 <= c <= u.len() && #[trigger] sa[c] < EMPTY ==> c != u[w] && seat_s(
                u,
                push_back_spans(b, u[w]),
                cnt,
                c,
            ) == seat_s(u, b, cnt, c),
{
    reveal(kept_s);
    let n = u.len() as int;
    let p = u[w];
    lemma_pending_s(u, b, sa, log, pos, cnt, w);
    let b2 = push_back_spans(b, p);
    let sa2 = sa.update(p, w as u32);
    let log2 = log.update(p, w as u32);
    let pos2 = pos.update(w, p);
    lemma_cell_s(u, b, sa, log, pos, cnt, p);
    lemma_home(u, b, p);
    // the bucket has one place
    if size(u, p) >= 2 {
        lemma_cell_s(u, b, sa, log, pos, cnt, p - 1);
        lemma_home(u, b, p - 1);
        lemma_no_tail_inside(u, false, b, p, p - 1);
        assert(!in_front(b, p, p - 1) && !in_back(b, p, p - 1));
        assert(false);
    }
    assert(b2[p].j == b2[p].head);
    assert forall|z: int| 1 <= z <= n implies #[trigger] sa2[z] == drawn_s(u, b2, log2, cnt, z) by {
        lemma_cell_s(u, b, sa, log, pos, cnt, z);
        if z + 1 <= n {
            lemma_home(u, b, z + 1);
        }
        lemma_home(u, b, z);
        if z == p {
            assert(in_back(b2, p, p));
        }
    }
    assert forall|q: int|
        0 <= q <= n && #[trigger] cnt[q] && b2[q].j == b2[q].head implies b2[q].head >= 2 && !filled(
        u,
        b2,
        b2[q].head - 1,
    ) && !counts_s(u, cnt, b2[q].head - 1) by {
        assert(q != p);
        let h = b[q].head as int;
        assert(h >= 2 && !filled(u, b, h - 1) && !counts_s(u, cnt, h - 1));
        lemma_home(u, b, h - 1);
        if h - 1 == p {
            lemma_s_bucket(u, false, b, q);
            lemma_home(u, b, p + 1);
            assert(shifted_s(u, b, cnt, p));
        }
    }
    assert forall|c: int| 1 <= c <= n && #[trigger] sa[c] < EMPTY implies c != p && seat_s(
        u,
        b2,
        cnt,
        c,
    ) == seat_s(u, b, cnt, c) by {
        if c + 1 <= n {
            lemma_home(u, b, c + 1);
        }
    }
}

/// The layout after the first suffix of a bucket has been written before
/// its count.
#[verifier::rlimit(100)]
#[verifier::spinoff_prover]
pub proof fn lemma_start_count_s(
    u: Seq<int>,
    b: Seq<Span>,
    sa: Seq<u32>,
    log: Seq<u32>,
    pos: Seq<int>,
    cnt: Seq<bool>,
    w: int,
)
    requires
        kept_s(u, b, sa, log, pos, cnt),
        snug_s(u, b, cnt),
        pending_s(u, pos, w),
        sa[u[w]] == EMPTY,
        u[w] >= 2,
        sa[u[w] - 1] == EMPTY,
    ensures
        kept_s(
            u,
            push_back_spans(b, u[w]),
            sa.update(u[w], 0xffff_ffffu32).update(u[w] - 1, w as u32),
            log.update(u[w], w as u32),
            pos.update(w, u[w]),
            cnt.update(u[w], true),
        ),
        snug_s(u, push_back_spans(b, u[w]), cnt.update(u[w], true)),
        b[u[w]].j == u[w] + 1,
        forall|c: int|
            1 <= c <= u.len() && #[trigger] sa[c] < EMPTY ==> c != u[w] && c != u[w] - 1 && seat_s(
                u,
                push_back_spans(b, u[w]),
                cnt.update(u[w], true),
                c,
            ) == seat_s(u, b, cnt, c),
{
    reveal(kept_s);
    let n = u.len() as int;
    let p = u[w];
    lemma_pending_s(u, b, sa, log, pos, cnt, w);
    let b2 = push_back_spans(b, p);
    let sa2 = sa.update(p, 0xffff_ffffu32).update(p - 1, w as u32);
    let log2 = log.update(p, w as u32);
    let pos2 = pos.update(w, p);
    let cnt2 = cnt.update(p, true);
    lemma_cell_s(u, b, sa, log, pos, cnt, p);
    lemma_cell_s(u, b, sa, log, pos, cnt, p - 1);
    lemma_home(u, b, p);
    lemma_home(u, b, p - 1);
    assert(tally(1) == 0xffff_ffffu32);
    assert forall|z: int| 1 <= z <= n implies #[trigger] sa2[z] == drawn_s(u, b2, log2, cnt2, z) by {
        lemma_cell_s(u, b, sa, log, pos, cnt, z);
        if z + 1 <= n {
            lemma_home(u, b, z + 1);
        }
        lemma_home(u, b, z);
    }
    assert forall|q: int|
        0 <= q <= n && #[trigger] cnt2[q] && b2[q].j == b2[q].head implies b2[q].head >= 2 && !filled(
        u,
        b2,
        b2[q].head - 1,
    ) && !counts_s(u, cnt2, b2[q].head - 1) by {
        let h = b[q].head as int;
        if q != p {
            assert(cnt[q]);
            assert(h >= 2 && !filled(u, b, h - 1) && !counts_s(u, cnt, h - 1));
            lemma_home(u, b, h - 1);
            lemma_s_bucket(u, false, b, q);
            if h - 1 == p {
                lemma_home(u, b, p + 1);
                assert(shifted_s(u, b, cnt, p));
            }
        } else {
            assert(h == p);
            lemma_home(u, b, h - 1);
        }
    }
    assert forall|c: int|
        1 <= c <= n && #[trigger] sa[c] < EMPTY implies c != p && c != p - 1 && seat_s(
        u,
        b2,
        cnt2,
        c,
    ) == seat_s(u, b, cnt, c) by {
        if c + 1 <= n {
            lemma_home(u, b, c + 1);
        }
    }
}

/// The layout after a suffix has been written before the others of its
/// bucket, which is kept before its count.
#[verifier::rlimit(100)]
#[verifier::spinoff_prover]
pub proof fn lemma_append_s(
    u: Seq<int>,
    b: Seq<Span>,
    sa: Seq<u32>,
    log: Seq<u32>,
    pos: Seq<int>,
    cnt: Seq<bool>,
    w: int,
)
    requires
        kept_s(u, b, sa, log, pos, cnt),
        snug_s(u, b, cnt),
        pending_s(u, pos, w),
        sa[u[w]] > EMPTY,
        b[u[w]].j - 2 >= 1,
        sa[b[u[w]].j - 2] == EMPTY,
    ensures
        sa[u[w]] == tally(u[w] + 1 - b[u[w]].j),
        sa[u[w]] - 1 > EMPTY,
        kept_s(
            u,
            push_back_spans(b, u[w]),
            sa.update(b[u[w]].j - 2, w as u32).update(u[w], (sa[u[w]] - 1) as u32),
            log.update(b[u[w]].j - 1, w as u32),
            pos.update(w, b[u[w]].j - 1),
            cnt,
        ),
        snug_s(u, push_back_spans(b, u[w]), cnt),
        forall|c: int|
            1 <= c <= u.len() && #[trigger] sa[c] < EMPTY ==> c != u[w] && c != b[u[w]].j - 2
                && seat_s(u, push_back_spans(b, u[w]), cnt, c) == seat_s(u, b, cnt, c),
{
    reveal(kept_s);
    let n = u.len() as int;
    let p = u[w];
    let k = p + 1 - b[p].j;
    lemma_pending_s(u, b, sa, log, pos, cnt, w);
    let b2 = push_back_spans(b, p);
    let sa2 = sa.update(p - k - 1, w as u32).update(p, (sa[p] - 1) as u32);
    let log2 = log.update(p - k, w as u32);
    let pos2 = pos.update(w, p - k);
    lemma_cell_s(u, b, sa, log, pos, cnt, p);
    lemma_cell_s(u, b, sa, log, pos, cnt, p - k - 1);
    lemma_home(u, b, p - k);
    lemma_home(u, b, p - k - 1);
    assert(cnt[p]);
    assert(tally(k + 1) == sa[p] - 1);
    assert forall|z: int| 1 <= z <= n implies #[trigger] sa2[z] == drawn_s(u, b2, log2, cnt, z) by {
        lemma_cell_s(u, b, sa, log, pos, cnt, z);
        if z + 1 <= n {
            lemma_home(u, b, z + 1);
        }
        lemma_home(u, b, z);
    }
    assert forall|q: int|
        0 <= q <= n && #[trigger] cnt[q] && b2[q].j == b2[q].head implies b2[q].head >= 2 && !filled(
        u,
        b2,
        b2[q].head - 1,
    ) && !counts_s(u, cnt, b2[q].head - 1) by {
        let h = b[q].head as int;
        lemma_s_bucket(u, false, b, q);
        if q != p {
            assert(h >= 2 && !filled(u, b, h - 1) && !counts_s(u, cnt, h - 1));
            lemma_home(u, b, h - 1);
            lemma_home(u, b, h);
        } else {
            lemma_home(u, b, h - 1);
        }
    }
    assert forall|c: int|
        1 <= c <= n && #[trigger] sa[c] < EMPTY implies c != p && c != p - k - 1 && seat_s(
        u,
        b2,
        cnt,
        c,
    ) == seat_s(u, b, cnt, c) by {
        if c + 1 <= n {
            lemma_home(u, b, c + 1);
        }
    }
}

/// The layout after a suffix has been written to the first place of its
/// bucket, whose suffixes move from before their count to their own
/// places.
#[verifier::rlimit(100)]
#[verifier::spinoff_prover]
pub proof fn lemma_flush_s(
    u: Seq<int>,
    b: Seq<Span>,
    sa: Seq<u32>,
    log: Seq<u32>,
    pos: Seq<int>,
    cnt: Seq<bool>,
    w: int,
)
    requires
        kept_s(u, b, sa, log, pos, cnt),
        snug_s(u, b, cnt),
        pending_s(u, pos, w),
        sa[u[w]] > EMPTY,
        b[u[w]].j - 2 < 1 || sa[b[u[w]].j - 2] != EMPTY,
    ensures
        sa[u[w]] == tally(u[w] + 1 - b[u[w]].j),
        1 <= u[w] + 1 - b[u[w]].j,
        b[u[w]].j >= 2,
        kept_s(
            u,
            push_back_spans(b, u[w]),
            pushed(sa, u[w], u[w] + 1 - b[u[w]].j, w as u32),
            log.update(b[u[w]].j - 1, w as u32),
            pos.update(w, b[u[w]].j - 1),
            cnt.update(u[w], false),
        ),
        snug_s(u, push_back_spans(b, u[w]), cnt.update(u[w], false)),
        forall|c: int|
            1 <= c <= u.len() && #[trigger] sa[c] < EMPTY ==> pushed(
                sa,
                u[w],
                u[w] + 1 - b[u[w]].j,
                w as u32,
            )[pushed_at(u[w], u[w] + 1 - b[u[w]].j, c)] == sa[c] && seat_s(
                u,
                push_back_spans(b, u[w]),
                cnt.update(u[w], false),
                pushed_at(u[w], u[w] + 1 - b[u[w]].j, c),
            ) == seat_s(u, b, cnt, c),
{
    reveal(kept_s);
    let n = u.len() as int;
    let p = u[w];
    let k = p + 1 - b[p].j;
    lemma_pending_s(u, b, sa, log, pos, cnt, w);
    let b2 = push_back_spans(b, p);
    let sa2 = pushed(sa, p, k, w as u32);
    let log2 = log.update(p - k, w as u32);
    let pos2 = pos.update(w, p - k);
    let cnt2 = cnt.update(p, false);
    lemma_cell_s(u, b, sa, log, pos, cnt, p);
    lemma_home(u, b, p - k);
    assert(cnt[p]);
    // the bucket has no place before the new suffix
    if k + 1 < size(u, p) {
        lemma_s_bucket(u, false, b, p);
        lemma_cell_s(u, b, sa, log, pos, cnt, p - k - 1);
        lemma_home(u, b, p - k - 1);
        lemma_no_tail_inside(u, false, b, p, p - k - 1);
        assert(!in_front(b, p, p - k - 1) && !in_back(b, p, p - k - 1));
        assert(false);
    }
    assert(b2[p].j == b2[p].head);
    assert forall|z: int| p - k <= z <= p implies home(u, z) == p by {
        lemma_home(u, b, z);
    }
    assert forall|z: int| 1 <= z <= n implies #[trigger] sa2[z] == drawn_s(u, b2, log2, cnt2, z) by {
        lemma_cell_s(u, b, sa, log, pos, cnt, z);
        if z >= 2 {
            lemma_cell_s(u, b, sa, log, pos, cnt, z - 1);
        }
        if z + 1 <= n {
            lemma_home(u, b, z + 1);
        }
        lemma_home(u, b, z);
        if p - k < z <= p {
            assert(in_back(b, p, z));
            assert(in_back(b2, p, z));
            assert(shifted_s(u, b, cnt, z - 1));
            if z < p {
                assert(!has_tail(u, false, z)) by {
                    lemma_no_tail_inside(u, false, b, p, z);
                }
            }
        }
        if z == p - k {
            assert(in_back(b2, p, z));
            if z < p {
                assert(!has_tail(u, false, z)) by {
                    lemma_no_tail_inside(u, false, b, p, z);
                }
            }
        }
    }
    assert forall|q: int|
        0 <= q <= n && #[trigger] cnt2[q] && b2[q].j == b2[q].head implies b2[q].head >= 2 && !filled(
        u,
        b2,
        b2[q].head - 1,
    ) && !counts_s(u, cnt2, b2[q].head - 1) by {
        assert(q != p);
        assert(cnt[q]);
        let h = b[q].head as int;
        assert(h >= 2 && !filled(u, b, h - 1) && !counts_s(u, cnt, h - 1));
        lemma_s_bucket(u, false, b, q);
        lemma_home(u, b, h - 1);
        lemma_home(u, b, h);
    }
    assert forall|c: int| 1 <= c <= n && #[trigger] sa[c] < EMPTY implies sa2[pushed_at(p, k, c)]
        == sa[c] && seat_s(u, b2, cnt2, pushed_at(p, k, c)) == seat_s(u, b, cnt, c) by {
        lemma_cell_s(u, b, sa, log, pos, cnt, c);
        if c + 1 <= n {
            lemma_home(u, b, c + 1);
        }
        if c + 2 <= n {
            lemma_home(u, b, c + 2);
        }
        if p - k <= c < p {
            assert(shifted_s(u, b, cnt, c));
            if c + 1 == p {
                if shifted_s(u, b2, cnt2, p) {
                    let q = home(u, p + 1);
                    assert(cnt[q]);
                    lemma_s_bucket(u, false, b, q);
                }
            }
        }
    }
}

/// What the workspace holds where the last place of the bucket of a
/// suffix that can be placed holds a suffix: the bucket behind is full and
/// kept before its count, and its first suffix stands there.
pub proof fn lemma_borrowed_s(
    u: Seq<int>,
    b: Seq<Span>,
    sa: Seq<u32>,
    log: Seq<u32>,
    pos: Seq<int>,
    cnt: Seq<bool>,
    w: int,
)
    requires
        kept_s(u, b, sa, log, pos, cnt),
        snug_s(u, b, cnt),
        pending_s(u, pos, w),
        sa[u[w]] < EMPTY,
    ensures
        u[w] + 1 <= u.len(),
        u[w] < home(u, u[w] + 1) <= u.len(),
        counts_s(u, cnt, home(u, u[w] + 1)),
        b[home(u, u[w] + 1)].j == u[w] + 1,
        b[home(u, u[w] + 1)].head == u[w] + 1,
        sa[home(u, u[w] + 1)] > EMPTY,
        forall|z: int|
            u[w] <= z < home(u, u[w] + 1) ==> #[trigger] sa[z] < u.len() && u[sa[z] as int] == home(
                u,
                u[w] + 1,
            ),
{
    reveal(kept_s);
    let n = u.len() as int;
    let p = u[w];
    lemma_pending_s(u, b, sa, log, pos, cnt, w);
    lemma_cell_s(u, b, sa, log, pos, cnt, p);
    assert(shifted_s(u, b, cnt, p));
    let q = home(u, p + 1);
    lemma_shift_end_s(u, b, sa, log, pos, cnt, p);
    lemma_home(u, b, p + 1);
    lemma_home(u, b, p);
    lemma_s_bucket(u, false, b, q);
    lemma_cell_s(u, b, sa, log, pos, cnt, q);
    assert(cnt[q]);
    assert(q != p);
    assert(b[q].head > p);
    assert forall|z: int| p <= z < q implies #[trigger] sa[z] < n && u[sa[z] as int] == q by {
        lemma_home(u, b, z + 1);
        lemma_cell_s(u, b, sa, log, pos, cnt, z);
        assert(shifted_s(u, b, cnt, z));
        if z > p {
            lemma_no_tail_inside(u, false, b, q, z);
        }
        assert(in_back(b, q, z + 1));
        assert(occupied(b, q, z + 1));
    }
}

/// An L-type suffix finds a suffix of its own bucket in the first place of
/// the bucket, when the buckets of the L-type symbols are full.
pub proof fn lemma_ignored_s(
    u: Seq<int>,
    b: Seq<Span>,
    sa: Seq<u32>,
    log: Seq<u32>,
    pos: Seq<int>,
    cnt: Seq<bool>,
    w: int,
)
    requires
        kept_s(u, b, sa, log, pos, cnt),
        fronts_full(u, b),
        0 <= w < u.len(),
        !is_s(u, w),
    ensures
        1 <= u[w] <= u.len(),
        sa[u[w]] < u.len(),
        u[sa[u[w]] as int] == u[w],
{
    reveal(kept_s);
    let n = u.len() as int;
    let p = u[w];
    assert(l_at(u, p, w));
    lemma_l_bucket(u, b, p);
    assert(b[p].i == p + size(u, p));
    assert(in_front(b, p, p));
    assert(occupied(b, p, p));
    lemma_home(u, b, p);
    assert(filled(u, b, p));
    lemma_cell_s(u, b, sa, log, pos, cnt, p);
    if has_tail(u, false, p) {
        lemma_s_symbol(u, false, p, w);
    }
    if shifted_s(u, b, cnt, p) {
        lemma_shift_end_s(u, b, sa, log, pos, cnt, p);
        let q = home(u, p + 1);
        lemma_s_symbol(u, false, q, w);
    }
    lemma_filled_holds(u, b, log, pos, p);
}

/// With nothing in the backs of the buckets, the pass can begin.
pub proof fn lemma_begin_s(u: Seq<int>, b: Seq<Span>, sa: Seq<u32>, log: Seq<u32>, pos: Seq<int>)
    requires
        flat(u, b, log, pos),
        u.len() < EMPTY,
        sa.len() == u.len() + 1,
        forall|z: int| 1 <= z <= u.len() ==> #[trigger] sa[z] <= EMPTY && lift(sa)[z] == log[z],
        forall|p: int| 0 <= p < b.len() ==> (#[trigger] b[p]).j == b[p].tail,
    ensures
        kept_s(u, b, sa, log, pos, none(u.len() as int)),
        snug_s(u, b, none(u.len() as int)),
{
    reveal(kept_s);
    let n = u.len() as int;
    let cnt = none(n);
    assert forall|z: int| 1 <= z <= n implies #[trigger] sa[z] == drawn_s(u, b, log, cnt, z) by {
        assert(sa[z] <= EMPTY);
        lemma_home(u, b, z);
        let c = home(u, z);
        if !occupied(b, c, z) {
            assert(in_gap(b, c, z));
        }
    }
    assert forall|t: int|
        1 <= t <= n && has_tail(u, false, t) && !#[trigger] cnt[t] && b[t].j <= t implies b[t].j
        == b[t].head by {
        lemma_s_bucket(u, false, b, t);
    }
}

/// With every bucket kept without a count, each suffix that is placed
/// stands in its own place.
pub proof fn lemma_end_s(
    u: Seq<int>,
    b: Seq<Span>,
    sa: Seq<u32>,
    log: Seq<u32>,
    pos: Seq<int>,
    cnt: Seq<bool>,
)
    requires
        kept_s(u, b, sa, log, pos, cnt),
        forall|p: int| 0 <= p <= u.len() ==> !#[trigger] cnt[p],
        sa[0] == u.len(),
    ensures
        level(u, b, sa, pos),
        placed(u, b, lift(sa), pos),
{
    reveal(kept_s);
    let n = u.len() as int;
    let sa2 = lift(sa);
    assert forall|z: int| 1 <= z <= n implies #[trigger] sa[z] <= EMPTY && (filled(u, b, z)
        ==> sa2[z] == log[z]) && (!filled(u, b, z) ==> sa2[z] == crate::construct::sacak::EMPTY) by {
        lemma_cell_s(u, b, sa, log, pos, cnt, z);
        if z + 1 <= n {
            assert(!cnt[home(u, z + 1)]) by {
                lemma_home(u, b, z + 1);
            }
        }
    }
    assert(tidy(sa)) by {
        assert forall|z: int| 0 <= z < sa.len() implies #[trigger] sa[z] <= EMPTY by {
            if z >= 1 {
                assert(sa[z] <= EMPTY);
            }
        }
    }
    assert forall|v: int| 0 <= v < n && #[trigger] pos[v] >= 0 implies sa2[pos[v]] == v by {
        lemma_filled(u, b, log, pos, v);
    }
    assert forall|c: int, x: int| 0 <= c < b.len() && #[trigger] occupied(b, c, x) implies {
        &&& sa2[x] < n
        &&& u[sa2[x] as int] == c
        &&& pos[sa2[x] as int] == x
    } by {
        let v = log[x] as int;
        assert(pos[v] == x);
        lemma_filled(u, b, log, pos, v);
    }
    assert forall|c: int, x: int| 0 <= c < b.len() && #[trigger] in_gap(b, c, x) implies sa2[x]
        == crate::construct::sacak::EMPTY by {
        assert(b[c].head == bucket_head(u, c));
        lemma_bucket_head_mono(u, c, c + 1);
        lemma_bucket_head_mono(u, c + 1, n + 1);
        lemma_bucket_head_end(u, n + 1, n);
        lemma_home(u, b, x);
    }
}

/// What the scan finds where the workspace holds a suffix.
pub proof fn lemma_seen_s(
    u: Seq<int>,
    by_suffix: bool,
    b: Seq<Span>,
    sa: Seq<u32>,
    log: Seq<u32>,
    pos: Seq<int>,
    cnt: Seq<bool>,
    c: int,
)
    requires
        kept_s(u, b, sa, log, pos, cnt),
        1 <= c <= u.len(),
        sa[c] < EMPTY,
    ensures
        sa[c] < u.len(),
        pos[sa[c] as int] == seat_s(u, b, cnt, c),
        seat_s(u, b, cnt, c) >= 1,
        0 < sa[c] ==> ((u[sa[c] - 1] <= u[sa[c] as int]) <==> (is_s(u, sa[c] - 1) || (u[sa[c] - 1]
            == u[sa[c] as int] && !is_s(u, sa[c] as int)))),
{
    lemma_cell_s(u, b, sa, log, pos, cnt, c);
    lemma_kept_s(u, b, sa, log, pos, cnt);
    let v = sa[c] as int;
    if 0 < v {
        assert(crate::sais::model::sym(u, v - 1) == u[v - 1]);
        assert(crate::sais::model::sym(u, v) == u[v]);
    }
}

/// The scan goes on to the place before.
pub proof fn lemma_pass_s(
    u: Seq<int>,
    by_suffix: bool,
    b: Seq<Span>,
    sa: Seq<u32>,
    log: Seq<u32>,
    pos: Seq<int>,
    cnt: Seq<bool>,
    c: int,
    x: int,
)
    requires
        kept_s(u, b, sa, log, pos, cnt),
        1 <= c <= u.len(),
        s_inv(u, by_suffix, b, log, pos, x),
        x == (if sa[c] < EMPTY {
            seat_s(u, b, cnt, c)
        } else {
            seat_s(u, b, cnt, c) + 1
        }),
    ensures
        s_inv(
            u,
            by_suffix,
            b,
            log,
            pos,
            if c - 1 >= 1 {
                seat_s(u, b, cnt, c - 1) + 1
            } else {
                1
            },
        ),
        1 <= (if c - 1 >= 1 {
            seat_s(u, b, cnt, c - 1) + 1
        } else {
            1
        }) <= x,
{
    reveal(kept_s);
    let n = u.len() as int;
    let y = if c - 1 >= 1 {
        seat_s(u, b, cnt, c - 1) + 1
    } else {
        1
    };
    lemma_cell_s(u, b, sa, log, pos, cnt, c);
    if c - 1 >= 1 {
        lemma_cell_s(u, b, sa, log, pos, cnt, c - 1);
        lemma_home(u, b, c - 1);
    }
    lemma_home(u, b, c);
    if c + 1 <= n {
        lemma_home(u, b, c + 1);
        if shifted_s(u, b, cnt, c) {
            lemma_shift_end_s(u, b, sa, log, pos, cnt, c);
        }
    }
    if c - 1 >= 1 && shifted_s(u, b, cnt, c - 1) {
        lemma_shift_end_s(u, b, sa, log, pos, cnt, c - 1);
    }
    assert(y <= x);
    assert forall|v: int| 1 <= v < n && y <= #[trigger] pos[v] < x implies !is_s(u, v - 1) || pos[v
        - 1] >= 0 by {
        lemma_filled(u, b, log, pos, v);
        assert(pos[v] == c);
        assert(filled(u, b, c));
        if shifted_s(u, b, cnt, c) {
            let q = home(u, c + 1);
            assert(cnt[q]);
            lemma_s_bucket(u, false, b, q);
        }
    }
    lemma_advance_s(u, by_suffix, b, log, pos, x, y);
}

/// The workspace stands for the same, whatever its first place holds.
pub proof fn lemma_kept_first(
    u: Seq<int>,
    b: Seq<Span>,
    sa: Seq<u32>,
    sa2: Seq<u32>,
    log: Seq<u32>,
    pos: Seq<int>,
    cnt: Seq<bool>,
)
    requires
        kept_s(u, b, sa, log, pos, cnt),
        sa2.len() == sa.len(),
        forall|x: int| 1 <= x < sa.len() ==> sa2[x] == sa[x],
    ensures
        kept_s(u, b, sa2, log, pos, cnt),
{
    reveal(kept_s);
}

} // verus!
