//! How the workspace holds the buckets while L-type suffixes are placed:
//! a bucket that is being filled keeps the number of its suffixes in its
//! first place, and the suffixes one place behind their own.
use vstd::prelude::*;
use crate::construct::llhsais::layout::{
    has_l, l_at, lemma_l_bucket, lemma_l_bucket_back, lemma_no_head_inside,
};
use crate::construct::llhsais::pointers::{pointered, size};
use crate::construct::sacak::sacak_u32s::plain::{level, lift};
use crate::construct::sacak::sacak_u32s::EMPTY;
use crate::construct::sacak::scan::in_gap;
use crate::sais::induce::{l_inv, lemma_advance_l};
use crate::sais::model::{is_lms, lemma_last_is_l};
use crate::construct::sacak::scan::{find_bucket, lemma_find_bucket};
use crate::sais::model::{bucket_head, is_s, lemma_bucket_head_end, lemma_bucket_head_mono};
use crate::sais::state::{
    in_back, in_front, lemma_buckets_apart, lemma_place_front, occupied, placed,
    push_front_spans, spans_wf,
};
use crate::sais::utils::Span;

verus! {

/// The word that stands for a count of `k` suffixes.
pub open spec fn tally(k: int) -> u32 {
    (0x1_0000_0000 - k) as u32
}

/// The bucket in which the place `x` lies.
pub open spec fn home(u: Seq<int>, x: int) -> int {
    find_bucket(u, x, u.len() as int)
}

/// Whether the bucket of the L-type symbol `p` is kept behind its count.
pub open spec fn counts_l(u: Seq<int>, cnt: Seq<bool>, p: int) -> bool {
    1 <= p <= u.len() && has_l(u, p) && cnt[p]
}

/// Whether the place `z` holds the suffix of the place before it, whose
/// bucket is kept behind its count.
pub open spec fn shifted_l(u: Seq<int>, b: Seq<Span>, cnt: Seq<bool>, z: int) -> bool {
    2 <= z <= u.len() && counts_l(u, cnt, home(u, z - 1)) && z - 1 < b[home(u, z - 1)].i
}

/// Whether a suffix belongs to the place `z` already.
pub open spec fn filled(u: Seq<int>, b: Seq<Span>, z: int) -> bool {
    z == 0 || (1 <= z <= u.len() && occupied(b, home(u, z), z))
}

/// What the place `z` of the workspace holds.
pub open spec fn drawn_l(u: Seq<int>, b: Seq<Span>, log: Seq<u32>, cnt: Seq<bool>, z: int) -> u32 {
    if counts_l(u, cnt, z) {
        tally(b[z].i - z)
    } else if shifted_l(u, b, cnt, z) {
        log[z - 1]
    } else if filled(u, b, z) {
        log[z]
    } else {
        EMPTY
    }
}

/// The place for whose suffix the place `z` of the workspace stands.
pub open spec fn seat_l(u: Seq<int>, b: Seq<Span>, cnt: Seq<bool>, z: int) -> int {
    if shifted_l(u, b, cnt, z) {
        z - 1
    } else {
        z
    }
}

/// Whether the workspace `sa` holds the suffixes that `log` has in their
/// final places, while the L-type suffixes are placed in the buckets `b`
/// of the pointers `u`, where `cnt` tells the buckets that are kept behind
/// their counts.
#[verifier::opaque]
pub open spec fn kept_l(
    u: Seq<int>,
    b: Seq<Span>,
    sa: Seq<u32>,
    log: Seq<u32>,
    pos: Seq<int>,
    cnt: Seq<bool>,
) -> bool {
    let n = u.len() as int;
    &&& pointered(u)
    &&& n < EMPTY
    &&& b.len() == n + 1
    &&& sa.len() == n + 1
    &&& cnt.len() == n + 1
    &&& placed(u, b, log, pos)
    &&& forall|p: int| 0 <= p <= n && #[trigger] cnt[p] ==> has_l(u, p) && b[p].i > p
    &&& forall|p: int|
        0 <= p <= n && #[trigger] cnt[p] && b[p].i == b[p].tail ==> b[p].tail <= n && !filled(
            u,
            b,
            b[p].tail as int,
        ) && !counts_l(u, cnt, b[p].tail as int)
    &&& forall|p: int|
        1 <= p <= n && has_l(u, p) && !#[trigger] cnt[p] && b[p].i > p ==> b[p].i == b[p].tail
    &&& forall|z: int| 0 <= z <= n ==> #[trigger] sa[z] == drawn_l(u, b, log, cnt, z)
}

/// What the invariant says of every workspace.
pub proof fn lemma_kept_l(
    u: Seq<int>,
    b: Seq<Span>,
    sa: Seq<u32>,
    log: Seq<u32>,
    pos: Seq<int>,
    cnt: Seq<bool>,
)
    requires
        kept_l(u, b, sa, log, pos, cnt),
    ensures
        pointered(u),
        u.len() < EMPTY,
        b.len() == u.len() + 1,
        sa.len() == u.len() + 1,
        cnt.len() == u.len() + 1,
        log.len() == u.len() + 1,
        pos.len() == u.len() + 1,
        placed(u, b, log, pos),
        sa[0] == u.len(),
        forall|p: int| 0 <= p <= u.len() && #[trigger] cnt[p] ==> counts_l(u, cnt, p),
{
    reveal(kept_l);
    assert forall|p: int| 0 <= p <= u.len() && #[trigger] cnt[p] implies counts_l(u, cnt, p) by {
        lemma_l_bucket(u, b, p);
    }
    assert(sa[0] == drawn_l(u, b, log, cnt, 0));
    if has_l(u, 0) {
        lemma_l_bucket(u, b, 0);
    }
}

/// A place lies in one bucket.
pub proof fn lemma_home(u: Seq<int>, b: Seq<Span>, x: int)
    requires
        pointered(u),
        spans_wf(u, b),
        b.len() == u.len() + 1,
        1 <= x <= u.len(),
    ensures
        0 <= home(u, x) <= u.len(),
        b[home(u, x)].head <= x < b[home(u, x)].tail,
        forall|c: int| 0 <= c <= u.len() && (#[trigger] b[c]).head <= x < b[c].tail ==> c == home(u, x),
{
    let n = u.len() as int;
    lemma_bucket_head_end(u, n + 1, n);
    lemma_find_bucket(u, x, n);
    let d = home(u, x);
    assert(b[d].head == bucket_head(u, d));
    assert forall|c: int| 0 <= c <= n && (#[trigger] b[c]).head <= x < b[c].tail implies c == d by {
        assert(b[c].head == bucket_head(u, c));
        if c != d {
            lemma_buckets_apart(u, c, d, x, x);
        }
    }
}

/// A suffix that stands in a bucket makes its place a filled one.
pub proof fn lemma_filled(u: Seq<int>, b: Seq<Span>, log: Seq<u32>, pos: Seq<int>, v: int)
    requires
        pointered(u),
        b.len() == u.len() + 1,
        placed(u, b, log, pos),
        0 <= v <= u.len(),
        pos[v] >= 0,
    ensures
        0 <= pos[v] <= u.len(),
        filled(u, b, pos[v]),
        log[pos[v]] == v,
        v < u.len() ==> pos[v] >= 1 && home(u, pos[v]) == u[v],
{
    let n = u.len() as int;
    if v < n {
        let c = u[v];
        assert(b[c].head == bucket_head(u, c));
        lemma_bucket_head_mono(u, c, c + 1);
        lemma_home(u, b, pos[v]);
    }
}

/// What a filled place holds.
pub proof fn lemma_filled_holds(u: Seq<int>, b: Seq<Span>, log: Seq<u32>, pos: Seq<int>, z: int)
    requires
        pointered(u),
        b.len() == u.len() + 1,
        placed(u, b, log, pos),
        0 <= z <= u.len(),
        filled(u, b, z),
    ensures
        log[z] <= u.len(),
        pos[log[z] as int] == z,
        z == 0 <==> log[z] == u.len(),
        z >= 1 ==> u[log[z] as int] == home(u, z),
{
    if z >= 1 {
        lemma_home(u, b, z);
    }
}

/// What one place of the workspace holds.
pub proof fn lemma_cell_l(
    u: Seq<int>,
    b: Seq<Span>,
    sa: Seq<u32>,
    log: Seq<u32>,
    pos: Seq<int>,
    cnt: Seq<bool>,
    z: int,
)
    requires
        kept_l(u, b, sa, log, pos, cnt),
        0 <= z <= u.len(),
    ensures
        sa[z] == drawn_l(u, b, log, cnt, z),
        sa[z] > EMPTY <==> counts_l(u, cnt, z),
        counts_l(u, cnt, z) ==> 1 <= b[z].i - z <= size(u, z) && b[z].head == z && b[z].tail == z
            + size(u, z) && b[z].j == b[z].tail && !shifted_l(u, b, cnt, z) && z + (b[z].i - z)
            <= u.len(),
        sa[z] < EMPTY <==> !counts_l(u, cnt, z) && (shifted_l(u, b, cnt, z) || filled(u, b, z)),
        sa[z] < EMPTY ==> sa[z] == log[seat_l(u, b, cnt, z)] && filled(
            u,
            b,
            seat_l(u, b, cnt, z),
        ) && sa[z] <= u.len() && pos[sa[z] as int] == seat_l(u, b, cnt, z),
        shifted_l(u, b, cnt, z) ==> !filled(u, b, z) || z < b[home(u, z - 1)].i,
{
    reveal(kept_l);
    let n = u.len() as int;
    assert(sa[z] == drawn_l(u, b, log, cnt, z));
    if counts_l(u, cnt, z) {
        lemma_l_bucket(u, b, z);
        lemma_l_bucket_back(u, b, log, pos, z);
        assert(cnt[z]);
        // no bucket before this one reaches over its first place
        if shifted_l(u, b, cnt, z) {
            lemma_shift_end(u, b, sa, log, pos, cnt, z);
        }
        if b[z].i == b[z].tail {
            assert(b[z].tail <= n);
        }
    }
    if shifted_l(u, b, cnt, z) {
        let p = home(u, z - 1);
        lemma_home(u, b, z - 1);
        assert(in_front(b, p, z - 1));
        assert(occupied(b, p, z - 1));
        lemma_filled_holds(u, b, log, pos, z - 1);
        lemma_shift_end(u, b, sa, log, pos, cnt, z);
    } else if filled(u, b, z) {
        lemma_filled_holds(u, b, log, pos, z);
    }
}

/// The place behind the last suffix of a bucket that is kept behind its
/// count is a place of the bucket, or the one behind the bucket, where
/// no suffix belongs yet and no count stands.
pub proof fn lemma_shift_end(
    u: Seq<int>,
    b: Seq<Span>,
    sa: Seq<u32>,
    log: Seq<u32>,
    pos: Seq<int>,
    cnt: Seq<bool>,
    z: int,
)
    requires
        kept_l(u, b, sa, log, pos, cnt),
        shifted_l(u, b, cnt, z),
    ensures
        !counts_l(u, cnt, z),
        home(u, z - 1) < z <= b[home(u, z - 1)].i,
        b[home(u, z - 1)].i <= b[home(u, z - 1)].tail,
        filled(u, b, z) ==> z < b[home(u, z - 1)].i && home(u, z) == home(u, z - 1),
        z < b[home(u, z - 1)].tail ==> home(u, z) == home(u, z - 1),
{
    reveal(kept_l);
    let n = u.len() as int;
    let p = home(u, z - 1);
    lemma_home(u, b, z - 1);
    lemma_home(u, b, z);
    lemma_l_bucket(u, b, p);
    lemma_l_bucket_back(u, b, log, pos, p);
    assert(cnt[p]);
    if z < b[p].tail {
        assert(home(u, z) == p);
        if has_l(u, z) {
            lemma_no_head_inside(u, b, p, z);
        }
    } else {
        assert(b[p].i == b[p].tail);
        assert(z == b[p].tail);
    }
}

/// Whether the suffix `w` is an L-type suffix that can be placed.
pub open spec fn pending_l(u: Seq<int>, pos: Seq<int>, w: int) -> bool {
    0 <= w < u.len() && !is_s(u, w) && pos[w] < 0
}

/// What the first place of the bucket of a suffix that can be placed
/// tells.
pub proof fn lemma_pending_l(
    u: Seq<int>,
    b: Seq<Span>,
    sa: Seq<u32>,
    log: Seq<u32>,
    pos: Seq<int>,
    cnt: Seq<bool>,
    w: int,
)
    requires
        kept_l(u, b, sa, log, pos, cnt),
        pending_l(u, pos, w),
    ensures
        1 <= u[w] <= u.len(),
        has_l(u, u[w]),
        b[u[w]].head == u[w],
        b[u[w]].tail == u[w] + size(u, u[w]),
        b[u[w]].j == b[u[w]].tail,
        u[w] <= b[u[w]].i < b[u[w]].tail,
        sa[u[w]] > EMPTY <==> cnt[u[w]],
        cnt[u[w]] ==> sa[u[w]] == tally(b[u[w]].i - u[w]) && 1 <= b[u[w]].i - u[w],
        !cnt[u[w]] ==> b[u[w]].i == u[w] && !filled(u, b, u[w]),
        sa[u[w]] < EMPTY <==> shifted_l(u, b, cnt, u[w]),
        placed(
            u,
            push_front_spans(b, u[w]),
            log.update(b[u[w]].i as int, w as u32),
            pos.update(w, b[u[w]].i as int),
        ),
{
    reveal(kept_l);
    let p = u[w];
    assert(l_at(u, p, w));
    lemma_l_bucket(u, b, p);
    lemma_l_bucket_back(u, b, log, pos, p);
    lemma_place_front(u, b, log, pos, w);
    lemma_cell_l(u, b, sa, log, pos, cnt, p);
    lemma_home(u, b, p);
    if !cnt[p] {
        if b[p].i > p {
            assert(b[p].i == b[p].tail);
        }
        assert(!in_front(b, p, p));
        assert(!in_back(b, p, p));
    }
}

/// The workspace after the suffixes behind the count in the place `p` have
/// moved to their own places, with `last` behind them.
pub open spec fn pulled(sa: Seq<u32>, p: int, k: int, last: u32) -> Seq<u32> {
    Seq::new(
        sa.len(),
        |z: int|
            if p <= z < p + k {
                sa[z + 1]
            } else if z == p + k {
                last
            } else {
                sa[z]
            },
    )
}

/// Where the scan stands after such a move, when it stood at `c`.
pub open spec fn pulled_at(p: int, k: int, c: int) -> int {
    if p < c <= p + k {
        c - 1
    } else {
        c
    }
}

/// A full bucket that is kept behind its count can be kept without it.
#[verifier::rlimit(100)]
#[verifier::spinoff_prover]
pub proof fn lemma_settle_l(
    u: Seq<int>,
    b: Seq<Span>,
    sa: Seq<u32>,
    log: Seq<u32>,
    pos: Seq<int>,
    cnt: Seq<bool>,
    p: int,
)
    requires
        kept_l(u, b, sa, log, pos, cnt),
        counts_l(u, cnt, p),
        b[p].i == b[p].tail,
    ensures
        sa[p] == tally(b[p].i - p),
        1 <= b[p].i - p,
        b[p].i <= u.len(),
        kept_l(u, b, pulled(sa, p, b[p].i - p, EMPTY), log, pos, cnt.update(p, false)),
        forall|c: int|
            0 <= c <= u.len() && #[trigger] sa[c] < EMPTY ==> pulled(sa, p, b[p].i - p, EMPTY)[pulled_at(
                p,
                b[p].i - p,
                c,
            )] == sa[c] && seat_l(u, b, cnt.update(p, false), pulled_at(p, b[p].i - p, c)) == seat_l(
                u,
                b,
                cnt,
                c,
            ),
{
    reveal(kept_l);
    let n = u.len() as int;
    let k = b[p].i - p;
    let sa2 = pulled(sa, p, k, EMPTY);
    let cnt2 = cnt.update(p, false);
    lemma_cell_l(u, b, sa, log, pos, cnt, p);
    lemma_l_bucket(u, b, p);
    lemma_l_bucket_back(u, b, log, pos, p);
    assert(cnt[p]);
    let t = b[p].tail as int;
    assert(t <= n && !filled(u, b, t) && !counts_l(u, cnt, t));
    assert forall|z: int| p <= z < t implies home(u, z) == p by {
        lemma_home(u, b, z);
    }
    assert forall|z: int| 0 <= z <= n implies #[trigger] sa2[z] == drawn_l(u, b, log, cnt2, z) by {
        lemma_cell_l(u, b, sa, log, pos, cnt, z);
        if z + 1 <= n {
            lemma_cell_l(u, b, sa, log, pos, cnt, z + 1);
        }
        if z >= 2 {
            lemma_home(u, b, z - 1);
        }
        if z >= 1 {
            lemma_home(u, b, z);
        }
        if p <= z < t {
            assert(in_front(b, p, z));
            assert(occupied(b, p, z));
            assert(shifted_l(u, b, cnt, z + 1));
            if z > p {
                assert(!has_l(u, z)) by {
                    lemma_no_head_inside(u, b, p, z);
                }
            }
        }
    }
    assert forall|q: int|
        0 <= q <= n && #[trigger] cnt2[q] && b[q].i == b[q].tail implies b[q].tail <= n && !filled(
        u,
        b,
        b[q].tail as int,
    ) && !counts_l(u, cnt2, b[q].tail as int) by {
        assert(cnt[q]);
    }
    assert forall|c: int| 0 <= c <= n && #[trigger] sa[c] < EMPTY implies sa2[pulled_at(p, k, c)]
        == sa[c] && seat_l(u, b, cnt2, pulled_at(p, k, c)) == seat_l(u, b, cnt, c) by {
        lemma_cell_l(u, b, sa, log, pos, cnt, c);
        if c >= 2 {
            lemma_home(u, b, c - 1);
        }
        if c >= 3 {
            lemma_home(u, b, c - 2);
        }
        if p < c <= p + k {
            assert(shifted_l(u, b, cnt, c));
            // the place before the first of the bucket belongs to another bucket
            if c - 1 == p {
                if shifted_l(u, b, cnt2, p) {
                    let q = home(u, p - 1);
                    assert(cnt[q]);
                    lemma_l_bucket(u, b, q);
                }
            }
        }
    }
}

/// The layout after a suffix has been written to the place where it
/// belongs, in a bucket that holds nothing yet and has one place, or none
/// behind its first that is free.
#[verifier::rlimit(100)]
#[verifier::spinoff_prover]
pub proof fn lemma_single_l(
    u: Seq<int>,
    b: Seq<Span>,
    sa: Seq<u32>,
    log: Seq<u32>,
    pos: Seq<int>,
    cnt: Seq<bool>,
    w: int,
)
    requires
        kept_l(u, b, sa, log, pos, cnt),
        pending_l(u, pos, w),
        sa[u[w]] == EMPTY,
        u[w] + 1 > u.len() || sa[u[w] + 1] != EMPTY,
    ensures
        kept_l(
            u,
            push_front_spans(b, u[w]),
            sa.update(u[w], w as u32),
            log.update(u[w], w as u32),
            pos.update(w, u[w]),
            cnt,
        ),
        b[u[w]].i == u[w],
        forall|c: int|
            0 <= c <= u.len() && #[trigger] sa[c] < EMPTY ==> c != u[w] && seat_l(
                u,
                push_front_spans(b, u[w]),
                cnt,
                c,
            ) == seat_l(u, b, cnt, c),
{
    reveal(kept_l);
    let n = u.len() as int;
    let p = u[w];
    lemma_pending_l(u, b, sa, log, pos, cnt, w);
    let b2 = push_front_spans(b, p);
    let sa2 = sa.update(p, w as u32);
    let log2 = log.update(p, w as u32);
    let pos2 = pos.update(w, p);
    lemma_cell_l(u, b, sa, log, pos, cnt, p);
    lemma_home(u, b, p);
    // the bucket has one place
    if size(u, p) >= 2 {
        lemma_l_bucket(u, b, p);
        lemma_cell_l(u, b, sa, log, pos, cnt, p + 1);
        lemma_home(u, b, p + 1);
        lemma_no_head_inside(u, b, p, p + 1);
        assert(!in_front(b, p, p + 1) && !in_back(b, p, p + 1));
        assert(false);
    }
    assert(b2[p].i == b2[p].tail);
    assert forall|z: int| 0 <= z <= n implies #[trigger] sa2[z] == drawn_l(u, b2, log2, cnt, z) by {
        lemma_cell_l(u, b, sa, log, pos, cnt, z);
        if z >= 2 {
            lemma_home(u, b, z - 1);
        }
        if z >= 1 {
            lemma_home(u, b, z);
        }
        if z == p {
            assert(in_front(b2, p, p));
        }
    }
    assert forall|q: int|
        0 <= q <= n && #[trigger] cnt[q] && b2[q].i == b2[q].tail implies b2[q].tail <= n && !filled(
        u,
        b2,
        b2[q].tail as int,
    ) && !counts_l(u, cnt, b2[q].tail as int) by {
        assert(q != p);
        let t = b[q].tail as int;
        assert(t <= n && !filled(u, b, t) && !counts_l(u, cnt, t));
        lemma_home(u, b, t);
        if t == p {
            lemma_l_bucket(u, b, q);
            lemma_home(u, b, p - 1);
            assert(shifted_l(u, b, cnt, p));
        }
    }
    assert forall|c: int| 0 <= c <= n && #[trigger] sa[c] < EMPTY implies c != p && seat_l(
        u,
        b2,
        cnt,
        c,
    ) == seat_l(u, b, cnt, c) by {
        if c >= 2 {
            lemma_home(u, b, c - 1);
        }
    }
}

/// The layout after the first suffix of a bucket has been written behind
/// its count.
#[verifier::rlimit(100)]
#[verifier::spinoff_prover]
pub proof fn lemma_start_count_l(
    u: Seq<int>,
    b: Seq<Span>,
    sa: Seq<u32>,
    log: Seq<u32>,
    pos: Seq<int>,
    cnt: Seq<bool>,
    w: int,
)
    requires
        kept_l(u, b, sa, log, pos, cnt),
        pending_l(u, pos, w),
        sa[u[w]] == EMPTY,
        u[w] + 1 <= u.len(),
        sa[u[w] + 1] == EMPTY,
    ensures
        kept_l(
            u,
            push_front_spans(b, u[w]),
            sa.update(u[w], 0xffff_ffffu32).update(u[w] + 1, w as u32),
            log.update(u[w], w as u32),
            pos.update(w, u[w]),
            cnt.update(u[w], true),
        ),
        b[u[w]].i == u[w],
        forall|c: int|
            0 <= c <= u.len() && #[trigger] sa[c] < EMPTY ==> c != u[w] && c != u[w] + 1 && seat_l(
                u,
                push_front_spans(b, u[w]),
                cnt.update(u[w], true),
                c,
            ) == seat_l(u, b, cnt, c),
{
    reveal(kept_l);
    let n = u.len() as int;
    let p = u[w];
    lemma_pending_l(u, b, sa, log, pos, cnt, w);
    let b2 = push_front_spans(b, p);
    let sa2 = sa.update(p, 0xffff_ffffu32).update(p + 1, w as u32);
    let log2 = log.update(p, w as u32);
    let pos2 = pos.update(w, p);
    let cnt2 = cnt.update(p, true);
    lemma_cell_l(u, b, sa, log, pos, cnt, p);
    lemma_cell_l(u, b, sa, log, pos, cnt, p + 1);
    lemma_home(u, b, p);
    lemma_home(u, b, p + 1);
    assert(tally(1) == 0xffff_ffffu32);
    assert forall|z: int| 0 <= z <= n implies #[trigger] sa2[z] == drawn_l(u, b2, log2, cnt2, z) by {
        lemma_cell_l(u, b, sa, log, pos, cnt, z);
        if z >= 2 {
            lemma_home(u, b, z - 1);
        }
        if z >= 1 {
            lemma_home(u, b, z);
        }
    }
    assert forall|q: int|
        0 <= q <= n && #[trigger] cnt2[q] && b2[q].i == b2[q].tail implies b2[q].tail <= n && !filled(
        u,
        b2,
        b2[q].tail as int,
    ) && !counts_l(u, cnt2, b2[q].tail as int) by {
        let t = b[q].tail as int;
        if q != p {
            assert(cnt[q]);
            assert(t <= n && !filled(u, b, t) && !counts_l(u, cnt, t));
            lemma_home(u, b, t);
            lemma_l_bucket(u, b, q);
            if t == p {
                lemma_home(u, b, p - 1);
                assert(shifted_l(u, b, cnt, p));
            }
        } else {
            assert(t == p + 1);
            lemma_home(u, b, t);
        }
    }
    assert forall|c: int|
        0 <= c <= n && #[trigger] sa[c] < EMPTY implies c != p && c != p + 1 && seat_l(
        u,
        b2,
        cnt2,
        c,
    ) == seat_l(u, b, cnt, c) by {
        if c >= 2 {
            lemma_home(u, b, c - 1);
        }
    }
}

/// The layout after a suffix has been written behind the others of its
/// bucket, which is kept behind its count.
#[verifier::rlimit(100)]
#[verifier::spinoff_prover]
pub proof fn lemma_append_l(
    u: Seq<int>,
    b: Seq<Span>,
    sa: Seq<u32>,
    log: Seq<u32>,
    pos: Seq<int>,
    cnt: Seq<bool>,
    w: int,
)
    requires
        kept_l(u, b, sa, log, pos, cnt),
        pending_l(u, pos, w),
        sa[u[w]] > EMPTY,
        b[u[w]].i + 1 <= u.len(),
        sa[b[u[w]].i + 1] == EMPTY,
    ensures
        sa[u[w]] == tally(b[u[w]].i - u[w]),
        sa[u[w]] - 1 > EMPTY,
        kept_l(
            u,
            push_front_spans(b, u[w]),
            sa.update(b[u[w]].i + 1, w as u32).update(u[w], (sa[u[w]] - 1) as u32),
            log.update(b[u[w]].i as int, w as u32),
            pos.update(w, b[u[w]].i as int),
            cnt,
        ),
        forall|c: int|
            0 <= c <= u.len() && #[trigger] sa[c] < EMPTY ==> c != u[w] && c != b[u[w]].i + 1
                && seat_l(u, push_front_spans(b, u[w]), cnt, c) == seat_l(u, b, cnt, c),
{
    reveal(kept_l);
    let n = u.len() as int;
    let p = u[w];
    let k = b[p].i - p;
    lemma_pending_l(u, b, sa, log, pos, cnt, w);
    let b2 = push_front_spans(b, p);
    let sa2 = sa.update(p + k + 1, w as u32).update(p, (sa[p] - 1) as u32);
    let log2 = log.update(p + k, w as u32);
    let pos2 = pos.update(w, p + k);
    lemma_cell_l(u, b, sa, log, pos, cnt, p);
    lemma_cell_l(u, b, sa, log, pos, cnt, p + k + 1);
    lemma_home(u, b, p + k);
    lemma_home(u, b, p + k + 1);
    assert(cnt[p]);
    assert(tally(k + 1) == sa[p] - 1);
    assert forall|z: int| 0 <= z <= n implies #[trigger] sa2[z] == drawn_l(u, b2, log2, cnt, z) by {
        lemma_cell_l(u, b, sa, log, pos, cnt, z);
        if z >= 2 {
            lemma_home(u, b, z - 1);
        }
        if z >= 1 {
            lemma_home(u, b, z);
        }
    }
    assert forall|q: int|
        0 <= q <= n && #[trigger] cnt[q] && b2[q].i == b2[q].tail implies b2[q].tail <= n && !filled(
        u,
        b2,
        b2[q].tail as int,
    ) && !counts_l(u, cnt, b2[q].tail as int) by {
        let t = b[q].tail as int;
        lemma_l_bucket(u, b, q);
        if q != p {
            assert(t <= n && !filled(u, b, t) && !counts_l(u, cnt, t));
            lemma_home(u, b, t);
            lemma_home(u, b, t - 1);
        } else {
            lemma_home(u, b, t);
        }
    }
    assert forall|c: int|
        0 <= c <= n && #[trigger] sa[c] < EMPTY implies c != p && c != p + k + 1 && seat_l(
        u,
        b2,
        cnt,
        c,
    ) == seat_l(u, b, cnt, c) by {
        if c >= 2 {
            lemma_home(u, b, c - 1);
        }
    }
}

/// The layout after a suffix has been written to the last place of its
/// bucket, whose suffixes move from behind their count to their own
/// places.
#[verifier::rlimit(100)]
#[verifier::spinoff_prover]
pub proof fn lemma_flush_l(
    u: Seq<int>,
    b: Seq<Span>,
    sa: Seq<u32>,
    log: Seq<u32>,
    pos: Seq<int>,
    cnt: Seq<bool>,
    w: int,
)
    requires
        kept_l(u, b, sa, log, pos, cnt),
        pending_l(u, pos, w),
        sa[u[w]] > EMPTY,
        b[u[w]].i + 1 > u.len() || sa[b[u[w]].i + 1] != EMPTY,
    ensures
        sa[u[w]] == tally(b[u[w]].i - u[w]),
        1 <= b[u[w]].i - u[w],
        b[u[w]].i <= u.len(),
        kept_l(
            u,
            push_front_spans(b, u[w]),
            pulled(sa, u[w], b[u[w]].i - u[w], w as u32),
            log.update(b[u[w]].i as int, w as u32),
            pos.update(w, b[u[w]].i as int),
            cnt.update(u[w], false),
        ),
        forall|c: int|
            0 <= c <= u.len() && #[trigger] sa[c] < EMPTY ==> pulled(
                sa,
                u[w],
                b[u[w]].i - u[w],
                w as u32,
            )[pulled_at(u[w], b[u[w]].i - u[w], c)] == sa[c] && seat_l(
                u,
                push_front_spans(b, u[w]),
                cnt.update(u[w], false),
                pulled_at(u[w], b[u[w]].i - u[w], c),
            ) == seat_l(u, b, cnt, c),
{
    reveal(kept_l);
    let n = u.len() as int;
    let p = u[w];
    let k = b[p].i - p;
    lemma_pending_l(u, b, sa, log, pos, cnt, w);
    let b2 = push_front_spans(b, p);
    let sa2 = pulled(sa, p, k, w as u32);
    let log2 = log.update(p + k, w as u32);
    let pos2 = pos.update(w, p + k);
    let cnt2 = cnt.update(p, false);
    lemma_cell_l(u, b, sa, log, pos, cnt, p);
    lemma_home(u, b, p + k);
    assert(cnt[p]);
    // the bucket has no place behind the new suffix
    if k + 1 < size(u, p) {
        lemma_l_bucket(u, b, p);
        lemma_cell_l(u, b, sa, log, pos, cnt, p + k + 1);
        lemma_home(u, b, p + k + 1);
        lemma_no_head_inside(u, b, p, p + k + 1);
        assert(!in_front(b, p, p + k + 1) && !in_back(b, p, p + k + 1));
        assert(false);
    }
    assert(b2[p].i == b2[p].tail);
    assert forall|z: int| p <= z < p + k + 1 implies home(u, z) == p by {
        lemma_home(u, b, z);
    }
    assert forall|z: int| 0 <= z <= n implies #[trigger] sa2[z] == drawn_l(u, b2, log2, cnt2, z) by {
        lemma_cell_l(u, b, sa, log, pos, cnt, z);
        if z + 1 <= n {
            lemma_cell_l(u, b, sa, log, pos, cnt, z + 1);
        }
        if z >= 2 {
            lemma_home(u, b, z - 1);
        }
        if z >= 1 {
            lemma_home(u, b, z);
        }
        if p <= z < p + k {
            assert(in_front(b, p, z));
            assert(in_front(b2, p, z));
            assert(shifted_l(u, b, cnt, z + 1));
            if z > p {
                assert(!has_l(u, z)) by {
                    lemma_no_head_inside(u, b, p, z);
                }
            }
        }
        if z == p + k {
            assert(in_front(b2, p, z));
            if z > p {
                assert(!has_l(u, z)) by {
                    lemma_no_head_inside(u, b, p, z);
                }
            }
        }
    }
    assert forall|q: int|
        0 <= q <= n && #[trigger] cnt2[q] && b2[q].i == b2[q].tail implies b2[q].tail <= n && !filled(
        u,
        b2,
        b2[q].tail as int,
    ) && !counts_l(u, cnt2, b2[q].tail as int) by {
        assert(q != p);
        assert(cnt[q]);
        let t = b[q].tail as int;
        assert(t <= n && !filled(u, b, t) && !counts_l(u, cnt, t));
        lemma_l_bucket(u, b, q);
        lemma_home(u, b, t);
        lemma_home(u, b, t - 1);
    }
    assert forall|c: int| 0 <= c <= n && #[trigger] sa[c] < EMPTY implies sa2[pulled_at(p, k, c)]
        == sa[c] && seat_l(u, b2, cnt2, pulled_at(p, k, c)) == seat_l(u, b, cnt, c) by {
        lemma_cell_l(u, b, sa, log, pos, cnt, c);
        if c >= 2 {
            lemma_home(u, b, c - 1);
        }
        if c >= 3 {
            lemma_home(u, b, c - 2);
        }
        if p < c <= p + k {
            assert(shifted_l(u, b, cnt, c));
            if c - 1 == p {
                if shifted_l(u, b2, cnt2, p) {
                    let q = home(u, p - 1);
                    assert(cnt[q]);
                    lemma_l_bucket(u, b, q);
                }
            }
        }
    }
}

/// What the workspace holds where the first place of the bucket of a
/// suffix that can be placed holds a suffix: the bucket before is full and
/// kept behind its count, and its last suffix stands there.
pub proof fn lemma_borrowed_l(
    u: Seq<int>,
    b: Seq<Span>,
    sa: Seq<u32>,
    log: Seq<u32>,
    pos: Seq<int>,
    cnt: Seq<bool>,
    w: int,
)
    requires
        kept_l(u, b, sa, log, pos, cnt),
        pending_l(u, pos, w),
        sa[u[w]] < EMPTY,
    ensures
        2 <= u[w],
        1 <= home(u, u[w] - 1) < u[w],
        counts_l(u, cnt, home(u, u[w] - 1)),
        b[home(u, u[w] - 1)].i == u[w],
        b[home(u, u[w] - 1)].tail == u[w],
        sa[home(u, u[w] - 1)] > EMPTY,
        forall|z: int|
            home(u, u[w] - 1) < z <= u[w] ==> #[trigger] sa[z] < u.len() && u[sa[z] as int] == home(
                u,
                u[w] - 1,
            ),
{
    reveal(kept_l);
    let n = u.len() as int;
    let p = u[w];
    lemma_pending_l(u, b, sa, log, pos, cnt, w);
    lemma_cell_l(u, b, sa, log, pos, cnt, p);
    assert(shifted_l(u, b, cnt, p));
    let q = home(u, p - 1);
    lemma_shift_end(u, b, sa, log, pos, cnt, p);
    lemma_home(u, b, p - 1);
    lemma_home(u, b, p);
    lemma_l_bucket(u, b, q);
    lemma_cell_l(u, b, sa, log, pos, cnt, q);
    assert(cnt[q]);
    assert(q != p);
    assert(b[q].tail <= p);
    assert forall|z: int| q < z <= p implies #[trigger] sa[z] < n && u[sa[z] as int] == q by {
        lemma_home(u, b, z - 1);
        lemma_cell_l(u, b, sa, log, pos, cnt, z);
        assert(shifted_l(u, b, cnt, z));
        if z < p {
            lemma_no_head_inside(u, b, q, z);
        }
        assert(in_front(b, q, z - 1));
        assert(occupied(b, q, z - 1));
    }
}

/// No bucket is kept behind its count.
pub open spec fn none(n: int) -> Seq<bool> {
    Seq::new((n + 1) as nat, |p: int| false)
}

/// With nothing in the fronts of the buckets, the pass can begin.
pub proof fn lemma_begin_l(u: Seq<int>, b: Seq<Span>, sa: Seq<u32>, pos: Seq<int>)
    requires
        level(u, b, sa, pos),
        forall|p: int| 0 <= p < b.len() ==> (#[trigger] b[p]).i == b[p].head,
    ensures
        kept_l(u, b, sa, lift(sa), pos, none(u.len() as int)),
{
    reveal(kept_l);
    let n = u.len() as int;
    let log = lift(sa);
    let cnt = none(n);
    assert forall|z: int| 0 <= z <= n implies #[trigger] sa[z] == drawn_l(u, b, log, cnt, z) by {
        assert(sa[z] <= EMPTY);
        if z >= 1 {
            lemma_home(u, b, z);
            let c = home(u, z);
            if !occupied(b, c, z) {
                assert(in_gap(b, c, z));
            }
        }
    }
}

/// With every bucket kept without a count, each suffix that is placed
/// stands in its own place.
pub proof fn lemma_end_l(
    u: Seq<int>,
    b: Seq<Span>,
    sa: Seq<u32>,
    log: Seq<u32>,
    pos: Seq<int>,
    cnt: Seq<bool>,
)
    requires
        kept_l(u, b, sa, log, pos, cnt),
        forall|p: int| 0 <= p <= u.len() ==> !#[trigger] cnt[p],
    ensures
        level(u, b, sa, pos),
        placed(u, b, lift(sa), pos),
{
    reveal(kept_l);
    let n = u.len() as int;
    let sa2 = lift(sa);
    assert forall|z: int| 0 <= z <= n implies #[trigger] sa[z] <= EMPTY && (filled(u, b, z)
        ==> sa2[z] == log[z]) && (!filled(u, b, z) ==> sa2[z] == crate::construct::sacak::EMPTY) by {
        lemma_cell_l(u, b, sa, log, pos, cnt, z);
        if z >= 2 {
            assert(!cnt[home(u, z - 1)]) by {
                lemma_home(u, b, z - 1);
            }
        }
    }
    assert forall|v: int| 0 <= v < n && #[trigger] pos[v] >= 0 implies sa2[pos[v]] == v by {
        lemma_filled(u, b, log, pos, v);
    }
    assert forall|c: int, x: int| 0 <= c < b.len() && #[trigger] occupied(b, c, x) implies {
        &&& sa2[x] < n
        &&& u[sa2[x] as int] == c
        &&& pos[sa2[x] as int] == x
    } by {
        let v = log[x] as int;
        assert(pos[v] == x);
        lemma_filled(u, b, log, pos, v);
    }
    assert forall|c: int, x: int| 0 <= c < b.len() && #[trigger] in_gap(b, c, x) implies sa2[x]
        == crate::construct::sacak::EMPTY by {
        assert(b[c].head == bucket_head(u, c));
        lemma_bucket_head_mono(u, c, c + 1);
        lemma_bucket_head_mono(u, c + 1, n + 1);
        lemma_bucket_head_end(u, n + 1, n);
        lemma_home(u, b, x);
    }
}

/// What the scan finds where the workspace holds a suffix.
pub proof fn lemma_seen_l(
    u: Seq<int>,
    by_suffix: bool,
    b: Seq<Span>,
    sa: Seq<u32>,
    log: Seq<u32>,
    pos: Seq<int>,
    cnt: Seq<bool>,
    c: int,
)
    requires
        kept_l(u, b, sa, log, pos, cnt),
        l_inv(u, by_suffix, b, log, pos, seat_l(u, b, cnt, c)),
        0 <= c <= u.len(),
        sa[c] < EMPTY,
    ensures
        sa[c] <= u.len(),
        pos[sa[c] as int] == seat_l(u, b, cnt, c),
        seat_l(u, b, cnt, c) >= 0,
        sa[c] == u.len() ==> !is_s(u, sa[c] - 1),
        0 < sa[c] < u.len() ==> ((u[sa[c] - 1] >= u[sa[c] as int]) <==> !is_s(u, sa[c] - 1)),
{
    let n = u.len() as int;
    lemma_cell_l(u, b, sa, log, pos, cnt, c);
    lemma_kept_l(u, b, sa, log, pos, cnt);
    let v = sa[c] as int;
    lemma_last_is_l(u);
    if 0 < v < n {
        if is_s(u, v) {
            assert(is_lms(u, v));
        }
    }
}

/// The scan goes on to the next place of the workspace.
pub proof fn lemma_pass_l(
    u: Seq<int>,
    by_suffix: bool,
    b: Seq<Span>,
    sa: Seq<u32>,
    log: Seq<u32>,
    pos: Seq<int>,
    cnt: Seq<bool>,
    c: int,
    x: int,
)
    requires
        kept_l(u, b, sa, log, pos, cnt),
        0 <= c <= u.len(),
        l_inv(u, by_suffix, b, log, pos, x),
        x == (if sa[c] < EMPTY {
            seat_l(u, b, cnt, c) + 1
        } else {
            seat_l(u, b, cnt, c)
        }),
    ensures
        l_inv(
            u,
            by_suffix,
            b,
            log,
            pos,
            if c + 1 <= u.len() {
                seat_l(u, b, cnt, c + 1)
            } else {
                u.len() as int + 1
            },
        ),
        x <= (if c + 1 <= u.len() {
            seat_l(u, b, cnt, c + 1)
        } else {
            u.len() as int + 1
        }) <= u.len() + 1,
{
    reveal(kept_l);
    let n = u.len() as int;
    let y = if c + 1 <= n {
        seat_l(u, b, cnt, c + 1)
    } else {
        n + 1
    };
    lemma_cell_l(u, b, sa, log, pos, cnt, c);
    if c + 1 <= n {
        lemma_cell_l(u, b, sa, log, pos, cnt, c + 1);
        lemma_home(u, b, c + 1);
    }
    if c >= 1 {
        lemma_home(u, b, c);
    }
    if c >= 2 {
        lemma_home(u, b, c - 1);
        if shifted_l(u, b, cnt, c) {
            lemma_shift_end(u, b, sa, log, pos, cnt, c);
        }
    }
    if c + 1 <= n && shifted_l(u, b, cnt, c + 1) {
        lemma_shift_end(u, b, sa, log, pos, cnt, c + 1);
    }
    assert(x <= y);
    assert forall|v: int| 1 <= v <= n && x <= #[trigger] pos[v] < y implies is_s(u, v - 1) || pos[v
        - 1] >= 0 by {
        lemma_filled(u, b, log, pos, v);
        assert(pos[v] == c);
        assert(filled(u, b, c));
        if shifted_l(u, b, cnt, c) {
            let q = home(u, c - 1);
            assert(cnt[q]);
            lemma_l_bucket(u, b, q);
        }
    }
    lemma_advance_l(u, by_suffix, b, log, pos, x, y);
}

} // verus!
