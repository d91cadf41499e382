//! Placing the sorted LMS suffixes at the ends of their buckets, a run of
//! suffixes with one pointer at a time.
use vstd::prelude::*;
use crate::construct::llhsais::layout::flat;
use crate::construct::llhsais::pointers::pointered;
use crate::construct::llhsais::seeding::{bare, fresh_spans, lemma_bare, nowhere};
use crate::construct::llhsais::{get_ptr, EMPTY, MULTI};
use crate::construct::utils::text_of;
use crate::construct::sacak::scan::{cleared, find_bucket, in_gap, lemma_find_bucket};
use crate::order::{lemma_lex_asymmetric, lemma_lex_irreflexive, occurs_in, suf_lt};
use crate::sais::induce::{l_inv, lemma_seeded, ordered};
use crate::sais::model::{
    bucket_head, is_lms, is_s, lemma_bucket_head_end, lemma_bucket_head_mono,
};
use crate::sais::naming::{lemma_sorted_first, lemma_sorted_room, lms_sorted};
use crate::sais::state::{
    in_back, lemma_buckets_apart, lemma_place_back, placed, push_back_spans,
};
use crate::sais::utils::Span;

verus! {

/// The buckets when the sorted LMS suffixes `xs` from the `i`-th on have
/// been placed, the last of them first.
pub open spec fn seed_spans(u: Seq<int>, xs: Seq<u32>, i: int) -> Seq<Span>
    decreases xs.len() - i,
{
    if i >= xs.len() {
        fresh_spans(u)
    } else {
        push_back_spans(seed_spans(u, xs, i + 1), u[xs[i] as int])
    }
}

/// The place to which the `i`-th of the sorted LMS suffixes goes.
pub open spec fn seed_place(u: Seq<int>, xs: Seq<u32>, i: int) -> int {
    seed_spans(u, xs, i + 1)[u[xs[i] as int]].j - 1
}

/// The workspace then.
pub open spec fn seed_log(u: Seq<int>, xs: Seq<u32>, i: int) -> Seq<u32>
    decreases xs.len() - i,
{
    if i >= xs.len() {
        bare(u.len() as int)
    } else {
        seed_log(u, xs, i + 1).update(seed_place(u, xs, i), xs[i])
    }
}

/// The places of the suffixes then.
pub open spec fn seed_pos(u: Seq<int>, xs: Seq<u32>, i: int) -> Seq<int>
    decreases xs.len() - i,
{
    if i >= xs.len() {
        nowhere(u.len() as int)
    } else {
        seed_pos(u, xs, i + 1).update(xs[i] as int, seed_place(u, xs, i))
    }
}

/// What holds when the sorted LMS suffixes from the `i`-th on have been
/// placed.
#[verifier::opaque]
pub open spec fn seeded(u: Seq<int>, xs: Seq<u32>, i: int) -> bool {
    let n = u.len() as int;
    let b = seed_spans(u, xs, i);
    let log = seed_log(u, xs, i);
    let pos = seed_pos(u, xs, i);
    &&& b.len() == n + 1
    &&& placed(u, b, log, pos)
    &&& cleared(b, log)
    &&& forall|c: int| 0 <= c <= n ==> (#[trigger] b[c]).i == b[c].head
    &&& forall|v: int| 0 <= v < n && #[trigger] pos[v] >= 0 ==> is_lms(u, v)
    &&& forall|v: int, k: int|
        0 <= v < n && #[trigger] pos[v] >= 0 && 0 <= k < i ==> suf_lt(u, #[trigger] xs[k] as int, v)
    &&& forall|k: int| i <= k < xs.len() ==> pos[#[trigger] xs[k] as int] >= 0
    &&& forall|v: int, w: int|
        0 <= v <= n && 0 <= w <= n ==> #[trigger] ordered(u, true, false, pos, v, w)
    &&& forall|c: int| 0 <= c <= n && (#[trigger] b[c]).j < b[c].tail ==> b[c].j >= i
    &&& forall|c: int|
        0 <= c <= n && (i >= xs.len() || c < u[xs[i] as int]) ==> (#[trigger] b[c]).j == b[c].tail
}

/// Sorted suffixes begin with symbols in ascending order.
pub proof fn lemma_first_symbols(u: Seq<int>, v: int, w: int)
    requires
        0 <= v < u.len(),
        0 <= w < u.len(),
        suf_lt(u, v, w),
    ensures
        u[v] <= u[w],
{
}

/// The sorted LMS suffixes can be placed one by one, from the last.
#[verifier::rlimit(100)]
#[verifier::spinoff_prover]
pub proof fn lemma_seeds(u: Seq<int>, xs: Seq<u32>, i: int)
    requires
        pointered(u),
        u.len() < MULTI,
        lms_sorted(u, xs),
        1 <= i <= xs.len(),
    ensures
        seeded(u, xs, i),
    decreases xs.len() - i,
{
    reveal(seeded);
    let n = u.len() as int;
    let m = xs.len() as int;
    lemma_sorted_first(u, xs);
    if i >= m {
        lemma_bare(u);
        let b = fresh_spans(u);
        assert forall|c: int| 0 <= c <= n && (#[trigger] b[c]).j < b[c].tail implies b[c].j
            >= i by {}
    } else {
        lemma_seeds(u, xs, i + 1);
        let b = seed_spans(u, xs, i + 1);
        let log = seed_log(u, xs, i + 1);
        let pos = seed_pos(u, xs, i + 1);
        let j = xs[i] as int;
        let c = u[j];
        let q = b[c].j - 1;
        let b2 = seed_spans(u, xs, i);
        let log2 = seed_log(u, xs, i);
        let pos2 = seed_pos(u, xs, i);
        assert(b2 == push_back_spans(b, c));
        assert(log2 == log.update(q, xs[i]));
        assert(pos2 == pos.update(j, q));
        assert(is_lms(u, j) && j < n);
        if pos[j] >= 0 {
            assert(suf_lt(u, xs[i] as int, j));
            lemma_lex_irreflexive(u, j);
        }
        lemma_place_back(u, b, log, pos, j);
        lemma_sorted_room(u, xs, i);
        lemma_bucket_head_mono(u, c, c + 1);
        assert(b[c].tail == bucket_head(u, c + 1));
        assert(q >= i);
        assert(cleared(b2, log2)) by {
            assert forall|d: int, p: int| 0 <= d < b2.len() && #[trigger] in_gap(b2, d, p) implies log2[p]
                == EMPTY by {
                assert(in_gap(b, d, p));
                assert(b[d].head == bucket_head(u, d));
                lemma_bucket_head_mono(u, d, d + 1);
                if d != c {
                    lemma_buckets_apart(u, c, d, q, p);
                }
            }
        }
        assert forall|v: int, k: int|
            0 <= v < n && #[trigger] pos2[v] >= 0 && 0 <= k < i implies suf_lt(
            u,
            #[trigger] xs[k] as int,
            v,
        ) by {
            if v != j {
                assert(pos[v] >= 0);
            }
        }
        assert forall|k: int| i <= k < m implies pos2[#[trigger] xs[k] as int] >= 0 by {
            if k > i {
                assert(xs[i] != xs[k]);
                assert(pos[xs[k] as int] >= 0);
            }
        }
        assert forall|v: int, w: int| 0 <= v <= n && 0 <= w <= n implies #[trigger] ordered(
            u,
            true,
            false,
            pos2,
            v,
            w,
        ) by {
            assert(ordered(u, true, false, pos, v, w));
            if v == j && w != j && pos[w] >= 0 && w < n {
                assert(suf_lt(u, xs[i] as int, w));
                lemma_lex_asymmetric(u, j, u, w);
            }
            if w == j && v != j && pos[v] >= 0 && v < n {
                assert(suf_lt(u, xs[i] as int, v));
                let d = u[v];
                assert(b[d].head == bucket_head(u, d));
                lemma_first_symbols(u, j, v);
                if d != c {
                    lemma_buckets_apart(u, c, d, q, pos[v]);
                }
            }
        }
        assert forall|d: int| 0 <= d <= n && (#[trigger] b2[d]).j < b2[d].tail implies b2[d].j
            >= i by {
            if d != c {
                assert(b[d].j < b[d].tail);
            }
        }
        assert forall|d: int| 0 <= d <= n && d < u[xs[i] as int] implies (#[trigger] b2[d]).j
            == b2[d].tail by {
            if i + 1 < m {
                assert(suf_lt(u, xs[i] as int, xs[i + 1] as int));
                lemma_first_symbols(u, xs[i] as int, xs[i + 1] as int);
            }
            assert(b[d].j == b[d].tail);
        }
    }
}

/// With every sorted LMS suffix placed, the first pass can begin.
pub proof fn lemma_seeds_done(u: Seq<int>, xs: Seq<u32>)
    requires
        pointered(u),
        u.len() < MULTI,
        lms_sorted(u, xs),
    ensures
        flat(u, seed_spans(u, xs, 1), seed_log(u, xs, 1), seed_pos(u, xs, 1)),
        l_inv(u, true, seed_spans(u, xs, 1), seed_log(u, xs, 1), seed_pos(u, xs, 1), 0),
        forall|c: int|
            0 <= c < seed_spans(u, xs, 1).len() ==> (#[trigger] seed_spans(u, xs, 1)[c]).i
                == seed_spans(u, xs, 1)[c].head,
{
    reveal(seeded);
    let n = u.len() as int;
    lemma_sorted_first(u, xs);
    lemma_seeds(u, xs, 1);
    let pos = seed_pos(u, xs, 1);
    assert forall|v: int| 0 < v < n && #[trigger] is_lms(u, v) implies pos[v] >= 0 by {
        assert(occurs_in(xs, v));
        let k = choose|k: int| 0 <= k < xs.len() && #[trigger] xs[k] == v;
        assert(pos[xs[k] as int] >= 0);
    }
    lemma_seeded(u, true, seed_spans(u, xs, 1), seed_log(u, xs, 1), pos);
}

/// The sizes of the workspace, and where the filled parts of the buckets
/// begin, when the sorted LMS suffixes from the `i`-th on have been placed.
pub proof fn lemma_seed_bounds(u: Seq<int>, xs: Seq<u32>, i: int)
    requires
        pointered(u),
        u.len() < MULTI,
        lms_sorted(u, xs),
        1 <= i <= xs.len(),
    ensures
        seed_spans(u, xs, i).len() == u.len() + 1,
        seed_log(u, xs, i).len() == u.len() + 1,
        seed_log(u, xs, i)[0] == u.len(),
        cleared(seed_spans(u, xs, i), seed_log(u, xs, i)),
        forall|c: int|
            0 <= c <= u.len() ==> {
                &&& (#[trigger] seed_spans(u, xs, i)[c]).head == bucket_head(u, c)
                &&& seed_spans(u, xs, i)[c].tail == bucket_head(u, c + 1)
                &&& seed_spans(u, xs, i)[c].head == seed_spans(u, xs, i)[c].i
                &&& seed_spans(u, xs, i)[c].i <= seed_spans(u, xs, i)[c].j <= seed_spans(
                    u,
                    xs,
                    i,
                )[c].tail
                &&& seed_spans(u, xs, i)[c].j < seed_spans(u, xs, i)[c].tail ==> seed_spans(
                    u,
                    xs,
                    i,
                )[c].j >= i
                &&& (i >= xs.len() || c < u[xs[i] as int]) ==> seed_spans(u, xs, i)[c].j
                    == seed_spans(u, xs, i)[c].tail
            },
{
    reveal(seeded);
    lemma_seeds(u, xs, i);
}

/// What placing a run of suffixes with the pointer `q` does to the
/// workspace.
#[verifier::rlimit(100)]
#[verifier::spinoff_prover]
pub proof fn lemma_seed_run(u: Seq<int>, xs: Seq<u32>, l: int, r: int, q: int)
    requires
        pointered(u),
        u.len() < MULTI,
        lms_sorted(u, xs),
        1 <= l <= r <= xs.len(),
        forall|k: int| l <= k < r ==> u[#[trigger] xs[k] as int] == q,
        0 <= q <= u.len(),
        seed_spans(u, xs, r)[q].j == q + 1,
    ensures
        seed_spans(u, xs, l)[q].j == q + 1 - (r - l),
        l < r ==> q + 1 - (r - l) >= l,
        seed_log(u, xs, l).len() == u.len() + 1,
        forall|x: int|
            0 <= x <= u.len() ==> #[trigger] seed_log(u, xs, l)[x] == (if q + 1 - (r - l) <= x
                <= q {
                xs[r - 1 - (q - x)]
            } else {
                seed_log(u, xs, r)[x]
            }),
    decreases r - l,
{
    lemma_seed_bounds(u, xs, l);
    lemma_seed_bounds(u, xs, r);
    if l < r {
        lemma_seed_run(u, xs, l + 1, r, q);
        lemma_seed_bounds(u, xs, l + 1);
        assert(u[xs[l] as int] == q);
        let b = seed_spans(u, xs, l + 1);
        assert(seed_spans(u, xs, l) == push_back_spans(b, q));
        let b2 = seed_spans(u, xs, l);
        assert(b2[q].j < b2[q].tail);
    }
}

/// A place before the `r`-th that is in no run is empty, when the sorted
/// LMS suffixes from the `r`-th on have been placed.
#[verifier::rlimit(100)]
#[verifier::spinoff_prover]
pub proof fn lemma_seed_before(u: Seq<int>, xs: Seq<u32>, r: int, x: int)
    requires
        pointered(u),
        u.len() < MULTI,
        lms_sorted(u, xs),
        1 <= r <= xs.len(),
        1 <= x < r,
    ensures
        seed_log(u, xs, r)[x] == EMPTY,
{
    let n = u.len() as int;
    lemma_seed_bounds(u, xs, r);
    lemma_sorted_first(u, xs);
    crate::sais::reduce::lemma_lms_density(u, n + 1);
    lemma_bucket_head_end(u, n + 1, n);
    lemma_find_bucket(u, x, n);
    let b = seed_spans(u, xs, r);
    let d = find_bucket(u, x, n);
    assert(b[d].head == bucket_head(u, d));
    assert(b[d].tail == bucket_head(u, d + 1));
    if in_back(b, d, x) {
        assert(b[d].j < b[d].tail);
    }
    assert(in_gap(b, d, x));
}

/// Move the run `sa[l..r]` to the places from `t` on, behind it, and empty
/// the places that it leaves.
fn move_run(sa: &mut [u32], l: usize, r: usize, t: usize)
    requires
        l < r,
        l <= t,
        t + (r - l) <= old(sa).len(),
    ensures
        final(sa).len() == old(sa).len(),
        forall|x: int|
            0 <= x < old(sa).len() ==> #[trigger] final(sa)@[x] == (if t <= x < t + (r - l) {
                old(sa)@[x - t + l]
            } else if l <= x < r {
                EMPTY
            } else {
                old(sa)@[x]
            }),
{
    let cnt = r - l;
    let mut d: usize = cnt;
    while d > 0
        invariant
            cnt == r - l,
            d <= cnt,
            l <= t,
            t + cnt <= sa.len(),
            sa.len() == old(sa).len(),
            forall|x: int| t + d <= x < t + cnt ==> #[trigger] sa@[x] == old(sa)@[x - t + l],
            forall|x: int|
                0 <= x < sa.len() && !(t + d <= x < t + cnt) ==> #[trigger] sa@[x] == old(sa)@[x],
        decreases d,
    {
        d -= 1;
        sa[t + d] = sa[l + d];
    }
    let e = if r < t {
        r
    } else {
        t
    };
    let mut x: usize = l;
    while x < e
        invariant
            cnt == r - l,
            l <= x <= e,
            e <= r,
            e <= t,
            t + cnt <= sa.len(),
            sa.len() == old(sa).len(),
            forall|z: int| t <= z < t + cnt ==> #[trigger] sa@[z] == old(sa)@[z - t + l],
            forall|z: int| l <= z < x ==> #[trigger] sa@[z] == EMPTY,
            forall|z: int|
                0 <= z < sa.len() && !(t <= z < t + cnt) && !(l <= z < x) ==> #[trigger] sa@[z]
                    == old(sa)@[z],
        decreases e - x,
    {
        sa[x] = EMPTY;
        x += 1;
    }
}

/// The pointer of the suffix `v`; that of the empty suffix is below all.
pub open spec fn ptr_at(u: Seq<int>, v: int) -> int {
    if v < u.len() {
        u[v]
    } else {
        0
    }
}

/// The workspace after the run `sa[l..r]` has moved to the places from `t`
/// on.
pub open spec fn moved(sa: Seq<u32>, l: int, r: int, t: int) -> Seq<u32> {
    Seq::new(
        sa.len(),
        |x: int|
            if t <= x < t + (r - l) {
                sa[x - t + l]
            } else if l <= x < r {
                EMPTY
            } else {
                sa[x]
            },
    )
}

/// Whether the sorted LMS suffixes from the `r`-th on stand in their
/// buckets and the others at the front of the workspace, where those from
/// `l - 1` to `r` have the pointer `q`.
#[verifier::opaque]
pub open spec fn standing(u: Seq<int>, xs: Seq<u32>, sa: Seq<u32>, l: int, r: int, q: int) -> bool {
    let n = u.len() as int;
    &&& pointered(u)
    &&& n < MULTI
    &&& lms_sorted(u, xs)
    &&& sa.len() == n + 1
    &&& 1 <= l <= r <= xs.len() <= n + 1
    &&& forall|k: int| l - 1 <= k < r ==> ptr_at(u, #[trigger] xs[k] as int) == q
    &&& forall|k: int| 0 <= k < r ==> sa[k] == #[trigger] xs[k]
    &&& forall|z: int| r <= z <= n ==> #[trigger] sa[z] == seed_log(u, xs, r)[z]
    &&& r < xs.len() ==> q < u[xs[r] as int]
}

/// Before any run has moved.
pub proof fn lemma_standing_start(u: Seq<int>, xs: Seq<u32>, sa: Seq<u32>)
    requires
        pointered(u),
        u.len() < MULTI,
        lms_sorted(u, xs),
        sa.len() == u.len() + 1,
        xs.len() <= sa.len(),
        forall|k: int| 0 <= k < xs.len() ==> sa[k] == #[trigger] xs[k],
        forall|z: int| xs.len() <= z < sa.len() ==> sa[z] == EMPTY,
    ensures
        xs.len() >= 1,
        xs[xs.len() - 1] <= u.len(),
        standing(
            u,
            xs,
            sa,
            xs.len() as int,
            xs.len() as int,
            ptr_at(u, xs[xs.len() - 1] as int),
        ),
{
    reveal(standing);
    lemma_sorted_first(u, xs);
}

/// What the scan reads below a run.
pub proof fn lemma_standing_read(u: Seq<int>, xs: Seq<u32>, sa: Seq<u32>, l: int, r: int, q: int)
    requires
        standing(u, xs, sa, l, r, q),
        l >= 2,
    ensures
        sa.len() == u.len() + 1,
        r <= xs.len() <= sa.len(),
        sa[l - 2] == xs[l - 2],
        sa[l - 2] <= u.len(),
        0 <= q <= u.len(),
        q + 1 >= r,
{
    reveal(standing);
    lemma_sorted_first(u, xs);
    assert(ptr_at(u, xs[l - 1] as int) == q);
    lemma_sorted_room(u, xs, r - 1);
    let v = xs[r - 1] as int;
    assert(ptr_at(u, v) == q);
    assert(is_lms(u, v) && is_s(u, v));
}

/// The run grows by a suffix with the same pointer.
pub proof fn lemma_standing_keep(u: Seq<int>, xs: Seq<u32>, sa: Seq<u32>, l: int, r: int, q: int)
    requires
        standing(u, xs, sa, l, r, q),
        l >= 2,
        ptr_at(u, xs[l - 2] as int) == q,
    ensures
        standing(u, xs, sa, l - 1, r, q),
{
    reveal(standing);
}

/// The run moves to the end of its bucket when a suffix with another
/// pointer is met.
#[verifier::rlimit(100)]
#[verifier::spinoff_prover]
pub proof fn lemma_standing_move(u: Seq<int>, xs: Seq<u32>, sa: Seq<u32>, l: int, r: int, q: int)
    requires
        standing(u, xs, sa, l, r, q),
        l >= 2,
        ptr_at(u, xs[l - 2] as int) != q,
    ensures
        l - 1 <= q + 1 - (r - (l - 1)),
        q <= u.len(),
        standing(
            u,
            xs,
            moved(sa, l - 1, r, q + 1 - (r - (l - 1))),
            l - 1,
            l - 1,
            ptr_at(u, xs[l - 2] as int),
        ),
{
    reveal(standing);
    let n = u.len() as int;
    let lo = l - 1;
    let t = q + 1 - (r - lo);
    let sa2 = moved(sa, lo, r, t);
    let p = ptr_at(u, xs[lo - 1] as int);
    lemma_sorted_first(u, xs);
    assert(ptr_at(u, xs[lo] as int) == q);
    let v = xs[lo] as int;
    assert(is_lms(u, v) && is_s(u, v));
    assert(bucket_head(u, u[v] + 1) == u[v] + 1);
    lemma_seed_bounds(u, xs, r);
    let b = seed_spans(u, xs, r);
    assert(b[q].j == b[q].tail);
    lemma_seed_run(u, xs, lo, r, q);
    assert forall|z: int| lo <= z < r implies seed_log(u, xs, r)[z] == EMPTY by {
        lemma_seed_before(u, xs, r, z);
    }
    if lo >= 2 {
        assert(suf_lt(u, xs[lo - 1] as int, xs[lo] as int));
        lemma_first_symbols(u, xs[lo - 1] as int, xs[lo] as int);
    }
    assert forall|z: int| lo <= z <= n implies #[trigger] sa2[z] == seed_log(u, xs, lo)[z] by {
        if t <= z <= q {
            assert(sa[z - t + lo] == xs[z - t + lo]);
        }
    }
    assert forall|k: int| 0 <= k < lo implies sa2[k] == #[trigger] xs[k] by {}
}

/// When the scan has met the empty suffix, every run has moved.
pub proof fn lemma_standing_end(u: Seq<int>, xs: Seq<u32>, sa: Seq<u32>, r: int, q: int)
    requires
        standing(u, xs, sa, 1, r, q),
    ensures
        sa == seed_log(u, xs, 1),
{
    reveal(standing);
    lemma_sorted_first(u, xs);
    assert(ptr_at(u, xs[0] as int) == q);
    if r > 1 {
        assert(ptr_at(u, xs[1] as int) == q);
    }
    lemma_seed_bounds(u, xs, 1);
    assert(sa =~= seed_log(u, xs, 1));
}

/// Place the sorted lms suffixes, which stand at the front of the
/// workspace, to the ends of their buckets, with nothing else in the
/// workspace.
pub(crate) fn place_sorted(s: &[u32], sa: &mut [u32], m: usize) -> (seeds: Ghost<
    (Seq<Span>, Seq<int>),
>)
    requires
        pointered(text_of(s@)),
        s.len() < MULTI,
        old(sa).len() == s.len() + 1,
        m <= old(sa).len(),
        lms_sorted(text_of(s@), old(sa)@.take(m as int)),
    ensures
        final(sa).len() == old(sa).len(),
        flat(text_of(s@), seeds@.0, final(sa)@, seeds@.1),
        l_inv(text_of(s@), true, seeds@.0, final(sa)@, seeds@.1, 0),
        forall|c: int| 0 <= c < seeds@.0.len() ==> (#[trigger] seeds@.0[c]).i == seeds@.0[c].head,
{
    let ghost u = text_of(s@);
    let ghost xs = sa@.take(m as int);
    let n = s.len();
    let len = sa.len();
    proof {
        lemma_sorted_first(u, xs);
    }
    let mut x: usize = m;
    while x < len
        invariant
            m <= x <= len,
            len == sa.len(),
            sa@.take(m as int) == xs,
            forall|z: int| m <= z < x ==> sa@[z] == EMPTY,
        decreases len - x,
    {
        let ghost before = sa@;
        sa[x] = EMPTY;
        assert(sa@.take(m as int) =~= before.take(m as int));
        x += 1;
    }
    proof {
        assert forall|k: int| 0 <= k < m implies sa@[k] == #[trigger] xs[k] by {
            assert(sa@.take(m as int)[k] == sa@[k]);
        }
    }
    if m > 1 {
        proof {
            lemma_standing_start(u, xs, sa@);
        }
        let mut r: usize = m;
        let mut q: usize = get_ptr(s, sa[m - 1] as usize);
        let mut l: usize = m;
        while l > 1
            invariant
                u == text_of(s@),
                n == s.len(),
                len == n + 1,
                sa.len() == len,
                xs.len() == m,
                1 <= l <= r <= m,
                standing(u, xs, sa@, l as int, r as int, q as int),
            decreases l,
        {
            proof {
                lemma_standing_read(u, xs, sa@, l as int, r as int, q as int);
            }
            l -= 1;
            let i = sa[l - 1] as usize;
            let p = get_ptr(s, i);
            if p != q {
                let cnt = r - l;
                let ghost before = sa@;
                proof {
                    lemma_standing_move(u, xs, before, l + 1, r as int, q as int);
                }
                if cnt == 1 {
                    let tmp = sa[l];
                    sa[l] = EMPTY;
                    sa[q] = tmp;
                } else {
                    let t = q + 1 - cnt;
                    move_run(sa, l, r, t);
                }
                assert(sa@ =~= moved(before, l as int, r as int, q + 1 - cnt));
                r = l;
                q = p;
            } else {
                proof {
                    lemma_standing_keep(u, xs, sa@, l + 1, r as int, q as int);
                }
            }
        }
        proof {
            lemma_standing_end(u, xs, sa@, r as int, q as int);
        }
    } else {
        proof {
            lemma_seed_bounds(u, xs, 1);
            assert(sa@ =~= seed_log(u, xs, 1));
        }
    }
    proof {
        lemma_seeds_done(u, xs);
    }
    Ghost((seed_spans(u, xs, 1), seed_pos(u, xs, 1)))
}

} // verus!
