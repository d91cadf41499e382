//! Placing the LMS suffixes in their buckets: by their first symbols
//! before the LMS substrings are sorted, and in their order after.
use vstd::prelude::*;
use crate::construct::llhsais::placing::{
    lemma_seed_bounds, lemma_seeds_done, lemma_standing_end, lemma_standing_keep,
    lemma_standing_move, lemma_standing_read, lemma_standing_start, moved, seed_log, seed_pos,
    seed_spans, standing,
};
use crate::construct::llhsais::pointers::pointered;
use crate::construct::llhsais::seeding::{bare, fresh_spans, lemma_bare, nowhere};
use crate::construct::sacak::sacak_u32s::heads::none;
use crate::construct::sacak::sacak_u32s::plain::{level, lift, tidy};
use crate::construct::sacak::sacak_u32s::tails::{
    kept_s, lemma_begin_s, lemma_kept_s, lemma_kept_first, snug_s,
};
use crate::construct::sacak::sacak_u32s::{finish_tail, get_ptr, insert_tail, EMPTY};
use crate::construct::utils::{for_each_lms, text_of};
use crate::sais::induce::{l_inv, lemma_seeded, lemma_seeds_ordered, ordered};
use crate::sais::model::{is_lms, lemma_last_is_l};
use crate::sais::naming::{lemma_sorted_first, lms_sorted};
use crate::sais::state::{lemma_place_back, push_back_spans};
use crate::sais::utils::Span;

verus! {

/// Place the lms characters at the ends of their buckets, in the order of
/// the text, with nothing else in the workspace.
pub(crate) fn place_lms(s: &[u32], sa: &mut [u32]) -> (r: Ghost<(Seq<Span>, Seq<int>)>)
    requires
        pointered(text_of(s@)),
        s.len() < EMPTY,
        old(sa).len() == s.len() + 1,
    ensures
        final(sa).len() == old(sa).len(),
        level(text_of(s@), r@.0, final(sa)@, r@.1),
        l_inv(text_of(s@), false, r@.0, lift(final(sa)@), r@.1, 0),
        forall|p: int| 0 <= p < r@.0.len() ==> (#[trigger] r@.0[p]).i == r@.0[p].head,
{
    let ghost u = text_of(s@);
    let n = s.len();
    let mut x: usize = 0;
    while x < sa.len()
        invariant
            x <= sa.len(),
            sa.len() == old(sa).len(),
            forall|p: int| 0 <= p < x ==> sa@[p] == EMPTY,
        decreases sa.len() - x,
    {
        sa[x] = EMPTY;
        x += 1;
    }
    let ghost mut b = fresh_spans(u);
    let ghost mut log = bare(n as int);
    let ghost mut pos = nowhere(n as int);
    let ghost mut cnt = none(n as int);
    proof {
        lemma_bare(u);
        lemma_begin_s(u, b, sa@, log, pos);
        assert(is_lms(u, n as int)) by {
            lemma_last_is_l(u);
        }
    }
    let mut scan = for_each_lms(s, false);
    loop
        invariant
            u == text_of(s@),
            n == s.len(),
            n >= 1,
            sa.len() == n + 1,
            old(sa).len() == n + 1,
            scan.wf(u),
            scan.bound(n as int) <= n,
            pos.len() == n + 1,
            kept_s(u, b, sa@, log, pos, cnt),
            snug_s(u, b, cnt),
            forall|p: int| 0 <= p < b.len() ==> (#[trigger] b[p]).i == b[p].head,
            forall|v: int|
                0 <= v < n && #[trigger] pos[v] >= 0 ==> is_lms(u, v) && v >= scan.bound(n as int),
            forall|v: int| scan.bound(n as int) <= v < n && #[trigger] is_lms(u, v) ==> pos[v] >= 0,
        ensures
            sa.len() == n + 1,
            kept_s(u, b, sa@, log, pos, cnt),
            forall|p: int| 0 <= p < b.len() ==> (#[trigger] b[p]).i == b[p].head,
            forall|v: int| 0 <= v < n && #[trigger] pos[v] >= 0 ==> is_lms(u, v),
            forall|v: int| 0 < v < n && #[trigger] is_lms(u, v) ==> pos[v] >= 0,
        decreases scan.bound(n as int),
    {
        match scan.next(s) {
            Some((i, _)) => {
                proof {
                    lemma_kept_s(u, b, sa@, log, pos, cnt);
                    lemma_place_back(u, b, log, pos, i as int);
                }
                let r = insert_tail(s, sa, 0, i, Ghost(b), Ghost(log), Ghost(pos), Ghost(cnt));
                proof {
                    let q = b[u[i as int]].j - 1;
                    log = log.update(q, i as u32);
                    pos = pos.update(i as int, q);
                    b = push_back_spans(b, u[i as int]);
                    cnt = r.1@;
                }
            },
            None => {
                break ;
            },
        }
    }
    let ghost seeded = sa@;
    sa[0] = n as u32;
    proof {
        lemma_kept_first(u, b, seeded, sa@, log, pos, cnt);
    }
    finish_tail(sa, Ghost(u), Ghost(b), Ghost(log), Ghost(pos), Ghost(cnt));
    proof {
        assert forall|v: int, w: int| 0 <= v <= n && 0 <= w <= n implies #[trigger] ordered(
            u,
            false,
            false,
            pos,
            v,
            w,
        ) by {
            lemma_seeds_ordered(u, b, lift(sa@), pos, v, w);
        }
        lemma_seeded(u, false, b, lift(sa@), pos);
    }
    Ghost((b, pos))
}

/// Move the run `sa[l..r]` to the places from `t` on, behind it, and empty
/// the places that it leaves.
fn move_run(sa: &mut [u32], l: usize, r: usize, t: usize)
    requires
        l < r,
        l <= t,
        t + (r - l) <= old(sa).len(),
    ensures
        final(sa).len() == old(sa).len(),
        forall|x: int|
            0 <= x < old(sa).len() ==> #[trigger] final(sa)@[x] == (if t <= x < t + (r - l) {
                old(sa)@[x - t + l]
            } else if l <= x < r {
                EMPTY
            } else {
                old(sa)@[x]
            }),
{
    let cnt = r - l;
    let mut d: usize = cnt;
    while d > 0
        invariant
            cnt == r - l,
            d <= cnt,
            l <= t,
            t + cnt <= sa.len(),
            sa.len() == old(sa).len(),
            forall|x: int| t + d <= x < t + cnt ==> #[trigger] sa@[x] == old(sa)@[x - t + l],
            forall|x: int|
                0 <= x < sa.len() && !(t + d <= x < t + cnt) ==> #[trigger] sa@[x] == old(sa)@[x],
        decreases d,
    {
        d -= 1;
        sa[t + d] = sa[l + d];
    }
    let e = if r < t {
        r
    } else {
        t
    };
    let mut x: usize = l;
    while x < e
        invariant
            cnt == r - l,
            l <= x <= e,
            e <= r,
            e <= t,
            t + cnt <= sa.len(),
            sa.len() == old(sa).len(),
            forall|z: int| t <= z < t + cnt ==> #[trigger] sa@[z] == old(sa)@[z - t + l],
            forall|z: int| l <= z < x ==> #[trigger] sa@[z] == EMPTY,
            forall|z: int|
                0 <= z < sa.len() && !(t <= z < t + cnt) && !(l <= z < x) ==> #[trigger] sa@[z]
                    == old(sa)@[z],
        decreases e - x,
    {
        sa[x] = EMPTY;
        x += 1;
    }
}

/// Place the sorted lms suffixes, which stand at the front of the
/// workspace, to the ends of their buckets, with nothing else in the
/// workspace.
pub(crate) fn place_sorted(s: &[u32], sa: &mut [u32], m: usize) -> (seeds: Ghost<
    (Seq<Span>, Seq<int>),
>)
    requires
        pointered(text_of(s@)),
        s.len() < EMPTY,
        old(sa).len() == s.len() + 1,
        m <= old(sa).len(),
        lms_sorted(text_of(s@), old(sa)@.take(m as int)),
    ensures
        final(sa).len() == old(sa).len(),
        level(text_of(s@), seeds@.0, final(sa)@, seeds@.1),
        l_inv(text_of(s@), true, seeds@.0, lift(final(sa)@), seeds@.1, 0),
        forall|c: int| 0 <= c < seeds@.0.len() ==> (#[trigger] seeds@.0[c]).i == seeds@.0[c].head,
{
    let ghost u = text_of(s@);
    let ghost xs = sa@.take(m as int);
    let n = s.len();
    let len = sa.len();
    proof {
        lemma_sorted_first(u, xs);
    }
    let mut x: usize = m;
    while x < len
        invariant
            m <= x <= len,
            len == sa.len(),
            sa@.take(m as int) == xs,
            forall|z: int| m <= z < x ==> sa@[z] == EMPTY,
        decreases len - x,
    {
        let ghost before = sa@;
        sa[x] = EMPTY;
        assert(sa@.take(m as int) =~= before.take(m as int));
        x += 1;
    }
    proof {
        assert forall|k: int| 0 <= k < m implies lift(sa@)[k] == #[trigger] xs[k] && sa@[k]
            == xs[k] by {
            assert(sa@.take(m as int)[k] == sa@[k]);
        }
        assert forall|z: int| 0 <= z < sa@.len() implies #[trigger] sa@[z] <= EMPTY by {
            if z < m {
                assert(sa@[z] == xs[z]);
            }
        }
    }
    if m > 1 {
        proof {
            lemma_standing_start(u, xs, lift(sa@));
        }
        let mut r: usize = m;
        let mut q: usize = get_ptr(s, sa[m - 1] as usize);
        let mut l: usize = m;
        while l > 1
            invariant
                u == text_of(s@),
                n == s.len(),
                n < EMPTY,
                len == n + 1,
                sa.len() == len,
                xs.len() == m,
                1 <= l <= r <= m,
                tidy(sa@),
                standing(u, xs, lift(sa@), l as int, r as int, q as int),
            decreases l,
        {
            proof {
                lemma_standing_read(u, xs, lift(sa@), l as int, r as int, q as int);
                assert(sa@[l - 2] <= EMPTY);
            }
            l -= 1;
            let i = sa[l - 1] as usize;
            let p = get_ptr(s, i);
            if p != q {
                let cnt = r - l;
                let ghost before = sa@;
                proof {
                    lemma_standing_move(u, xs, lift(before), l + 1, r as int, q as int);
                }
                if cnt == 1 {
                    let tmp = sa[l];
                    sa[l] = EMPTY;
                    sa[q] = tmp;
                } else {
                    let t = q + 1 - cnt;
                    move_run(sa, l, r, t);
                }
                proof {
                    assert(lift(sa@) =~= moved(lift(before), l as int, r as int, q + 1 - cnt));
                    assert forall|z: int| 0 <= z < sa@.len() implies #[trigger] sa@[z] <= EMPTY by {
                        if q + 1 - cnt <= z < q + 1 {
                            assert(before[z - (q + 1 - cnt) + l] <= EMPTY);
                        } else {
                            assert(before[z] <= EMPTY);
                        }
                    }
                }
                r = l;
                q = p;
            } else {
                proof {
                    lemma_standing_keep(u, xs, lift(sa@), l + 1, r as int, q as int);
                }
            }
        }
        proof {
            lemma_standing_end(u, xs, lift(sa@), r as int, q as int);
        }
    } else {
        proof {
            lemma_seed_bounds(u, xs, 1);
            assert(lift(sa@) =~= seed_log(u, xs, 1));
        }
    }
    proof {
        lemma_seeds_done(u, xs);
    }
    Ghost((seed_spans(u, xs, 1), seed_pos(u, xs, 1)))
}

} // verus!
