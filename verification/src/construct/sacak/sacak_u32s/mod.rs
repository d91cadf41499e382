//! O(n) time and O(1) space SAIS algorithm for writable integer string,
//! as described in the recursion level 1 of [Ge Nong. 2013.
//! Practical linear-time O(1)-workspace suffix sorting for constant
//! alphabets.](https://dl.acm.org/citation.cfm?doid=2493175.2493180).
use vstd::prelude::*;
use crate::construct::llhsais::layout::{has_l, lemma_l_bucket, lemma_l_full, lemma_l_inv_frame};
use crate::construct::sacak::sacak_u32s::heads::{
    kept_l, lemma_append_l, lemma_begin_l, lemma_borrowed_l, lemma_cell_l, lemma_end_l,
    lemma_flush_l, lemma_kept_l, lemma_pass_l, lemma_pending_l, lemma_seen_l, lemma_settle_l,
    lemma_single_l, lemma_start_count_l, none, pending_l, pulled, pulled_at, seat_l, tally, home,
};
use crate::construct::llhsais::layout_s::{fronts_full, lemma_s_inv_frame};
use crate::construct::sacak::sacak_u32s::plain::{level, lift};
use crate::construct::sacak::sacak_u32s::tails::{
    counts_s, kept_s, lemma_append_s, lemma_begin_s, lemma_borrowed_s, lemma_cell_s, lemma_end_s,
    lemma_flush_s, lemma_ignored_s, lemma_kept_s, lemma_pass_s, lemma_pending_s, lemma_seen_s,
    lemma_settle_s, lemma_single_s, lemma_start_count_s, pushed, pushed_at, seat_s, snug_s,
};
use crate::construct::llhsais::pointers::{pointered, pointers};
use crate::construct::sacak::sacak_u32s::clearing::{
    count_put, counted, emptied, lemma_count_put, lemma_counted_gap, lemma_emptied_all,
    lemma_emptied_start, lemma_emptied_step,
};
use crate::construct::utils::{for_each_lms, reduce_substrs, restore_suffixes};
use crate::order::is_suffix_array;
use crate::sais::induce::{drop_s, lemma_advance_s, lemma_induced, lemma_push_s, reset_back_spans, s_inv};
use crate::sais::model::lemma_last_is_l;
use crate::sais::state::push_back_spans;
use crate::construct::utils::text_of;
use crate::sais::induce::{l_inv, lemma_advance_l, lemma_push_l};
use crate::sais::model::is_s;
use crate::sais::state::{placed, push_front_spans};
use crate::sais::utils::Span;

pub mod clearing;
pub mod heads;
pub mod plain;
pub mod sorting;
pub mod tails;

verus! {

/// Special symbol.
pub const EMPTY: u32 = 0x8000_0000;

/// Maximum length of the input string.
pub const MAX_LENGTH: usize = 0x7fff_ffff;

/// Safely get the bucket head/tail pointer (i <= s.len()).
#[inline]
pub(crate) fn get_ptr(s: &[u32], i: usize) -> (p: usize)
    requires
        i <= s.len(),
    ensures
        p == (if i == s.len() {
            0
        } else {
            text_of(s@)[i as int]
        }),
{
    if i == s.len() {
        0
    } else {
        assert(text_of(s@)[i as int] == s@[i as int]);
        s[i] as usize
    }
}

/// The number of suffixes that a count stands for.
#[inline]
fn count_of(x: u32) -> (k: usize)
    requires
        x > EMPTY,
    ensures
        1 <= k < 0x8000_0000,
        tally(k as int) == x,
{
    (u32::MAX - x) as usize + 1
}

/// Move slice of workspace forward or backward.
/// Returns where the cursor stands then.
fn sa_move(sa: &mut [u32], src: usize, dst: usize, n: usize, cursor: usize) -> (moved: usize)
    requires
        src + n <= old(sa).len(),
        dst + n <= old(sa).len(),
    ensures
        final(sa).len() == old(sa).len(),
        forall|z: int| dst <= z < dst + n ==> #[trigger] final(sa)@[z] == old(sa)@[z - dst + src],
        forall|z: int|
            0 <= z < old(sa).len() && !(dst <= z < dst + n) ==> #[trigger] final(sa)@[z] == old(
                sa,
            )@[z],
        moved == (if src <= cursor < src + n {
            cursor + dst - src
        } else {
            cursor as int
        }),
{
    if dst <= src {
        let mut m: usize = 0;
        while m < n
            invariant
                m <= n,
                dst <= src,
                src + n <= sa.len(),
                sa.len() == old(sa).len(),
                forall|z: int| dst <= z < dst + m ==> #[trigger] sa@[z] == old(sa)@[z - dst + src],
                forall|z: int|
                    0 <= z < sa.len() && !(dst <= z < dst + m) ==> #[trigger] sa@[z] == old(sa)@[z],
            decreases n - m,
        {
            sa[dst + m] = sa[src + m];
            m += 1;
        }
    } else {
        let mut m: usize = n;
        while m > 0
            invariant
                m <= n,
                src < dst,
                dst + n <= sa.len(),
                sa.len() == old(sa).len(),
                forall|z: int|
                    dst + m <= z < dst + n ==> #[trigger] sa@[z] == old(sa)@[z - dst + src],
                forall|z: int|
                    0 <= z < sa.len() && !(dst + m <= z < dst + n) ==> #[trigger] sa@[z] == old(
                        sa,
                    )@[z],
            decreases m,
        {
            m -= 1;
            sa[dst + m] = sa[src + m];
        }
    }
    if cursor >= src && cursor < src + n {
        if dst >= src {
            cursor + (dst - src)
        } else {
            cursor - (src - dst)
        }
    } else {
        cursor
    }
}

/// Insert l-type characters in corresponding bucket head.
/// The cursor for suffix array scanning would be modified, when data chunk
/// containing the cursor is moved.
#[inline]
#[verifier::rlimit(100)]
#[verifier::spinoff_prover]
fn insert_head(
    s: &[u32],
    sa: &mut [u32],
    cursor: usize,
    i: usize,
    Ghost(b): Ghost<Seq<Span>>,
    Ghost(log): Ghost<Seq<u32>>,
    Ghost(pos): Ghost<Seq<int>>,
    Ghost(cnt): Ghost<Seq<bool>>,
) -> (r: (usize, Ghost<Seq<bool>>))
    requires
        kept_l(text_of(s@), b, old(sa)@, log, pos, cnt),
        pending_l(text_of(s@), pos, i as int),
        cursor <= s.len(),
        old(sa)@[cursor as int] < EMPTY,
    ensures
        final(sa).len() == old(sa).len(),
        kept_l(
            text_of(s@),
            push_front_spans(b, text_of(s@)[i as int]),
            final(sa)@,
            log.update(b[text_of(s@)[i as int]].i as int, i as u32),
            pos.update(i as int, b[text_of(s@)[i as int]].i as int),
            r.1@,
        ),
        r.0 <= s.len(),
        final(sa)@[r.0 as int] == old(sa)@[cursor as int],
        seat_l(text_of(s@), push_front_spans(b, text_of(s@)[i as int]), r.1@, r.0 as int) == seat_l(
            text_of(s@),
            b,
            cnt,
            cursor as int,
        ),
{
    let ghost u = text_of(s@);
    let ghost given = sa@;
    let len = sa.len();
    let p = s[i] as usize;
    let mut cur = cursor;
    let ghost mut cnt = cnt;
    proof {
        lemma_kept_l(u, b, sa@, log, pos, cnt);
        lemma_pending_l(u, b, sa@, log, pos, cnt, i as int);
        assert(u[i as int] == p);
    }

    if sa[p] < EMPTY {
        proof {
            lemma_borrowed_l(u, b, sa@, log, pos, cnt, i as int);
        }
        let lp = get_ptr(s, sa[p] as usize);
        if p > 0 && p != lp {
            // (-n, indexes[..-1]), <borrowed-by-left-indexes> => (indexes), E
            let mut q = p;
            loop
                invariant
                    u == text_of(s@),
                    sa@ == given,
                    sa.len() == len,
                    len == s.len() + 1,
                    u.len() < EMPTY,
                    lp == home(u, p - 1),
                    lp <= q <= p,
                    p < len,
                    given[lp as int] > EMPTY,
                    forall|z: int| lp < z <= p ==> #[trigger] given[z] < u.len() && u[given[z] as int] == lp,
                ensures
                    q == lp,
                decreases q,
            {
                if !(q < sa.len() && sa[q] < EMPTY) {
                    break ;
                }
                if get_ptr(s, sa[q] as usize) != lp {
                    break ;
                }
                q -= 1;
            }
            if sa[q] > EMPTY {
                let k = count_of(sa[q]);
                proof {
                    lemma_settle_l(u, b, given, log, pos, cnt, q as int);
                    assert(k == p - q);
                }
                cur = sa_move(sa, q + 1, q, k, cur);
                sa[p] = EMPTY;
                proof {
                    assert(sa@ =~= pulled(given, q as int, k as int, EMPTY));
                    assert(cur == pulled_at(q as int, k as int, cursor as int));
                    cnt = cnt.update(q as int, false);
                }
            }
        }
    }
    let ghost mid = sa@;
    let ghost mid_cursor = cur;
    proof {
        lemma_kept_l(u, b, mid, log, pos, cnt);
        lemma_pending_l(u, b, mid, log, pos, cnt, i as int);
    }

    if sa[p] == EMPTY {
        if p + 1 >= sa.len() || sa[p + 1] != EMPTY {
            // E, <bound> => i, <bound>
            proof {
                lemma_single_l(u, b, mid, log, pos, cnt, i as int);
            }
            sa[p] = i as u32;
        } else {
            // E, E => -1, i
            proof {
                lemma_start_count_l(u, b, mid, log, pos, cnt, i as int);
                cnt = cnt.update(p as int, true);
            }
            sa[p] = 0xffff_ffff;
            sa[p + 1] = i as u32;
        }
    } else if sa[p] > EMPTY {
        let k = count_of(sa[p]);
        assert(k == b[p as int].i - p);
        if p + 1 + k >= sa.len() || sa[p + 1 + k] != EMPTY {
            // -n, indexes, <bound> => indexes, i, <bound>
            proof {
                lemma_flush_l(u, b, mid, log, pos, cnt, i as int);
            }
            cur = sa_move(sa, p + 1, p, k, cur);
            sa[p + k] = i as u32;
            proof {
                assert(sa@ =~= pulled(mid, p as int, k as int, i as u32));
                cnt = cnt.update(p as int, false);
            }
        } else {
            // -n, indexes, E => -(n+1), indexes, i
            proof {
                lemma_append_l(u, b, mid, log, pos, cnt, i as int);
            }
            sa[p + 1 + k] = i as u32;
            sa[p] -= 1;
        }
    }
    (cur, Ghost(cnt))
}

/// Clean up the remaining counts in the bucket head.
#[inline]
fn finish_head(
    sa: &mut [u32],
    Ghost(u): Ghost<Seq<int>>,
    Ghost(b): Ghost<Seq<Span>>,
    Ghost(log): Ghost<Seq<u32>>,
    Ghost(pos): Ghost<Seq<int>>,
    Ghost(cnt): Ghost<Seq<bool>>,
)
    requires
        kept_l(u, b, old(sa)@, log, pos, cnt),
        forall|q: int| has_l(u, q) ==> (#[trigger] b[q]).i == b[q].tail,
    ensures
        final(sa).len() == old(sa).len(),
        level(u, b, final(sa)@, pos),
        placed(u, b, lift(final(sa)@), pos),
{
    let ghost mut cnt = cnt;
    let len = sa.len();
    proof {
        lemma_kept_l(u, b, sa@, log, pos, cnt);
    }
    let mut p: usize = 1;
    while p < len
        invariant
            1 <= p <= len,
            len == sa.len(),
            len == u.len() + 1,
            sa.len() == old(sa).len(),
            kept_l(u, b, sa@, log, pos, cnt),
            cnt.len() == len,
            forall|q: int| has_l(u, q) ==> (#[trigger] b[q]).i == b[q].tail,
            forall|q: int| 0 <= q < p ==> !#[trigger] cnt[q],
        decreases len - p,
    {
        proof {
            lemma_kept_l(u, b, sa@, log, pos, cnt);
            lemma_cell_l(u, b, sa@, log, pos, cnt, p as int);
        }
        if sa[p] > EMPTY {
            let k = count_of(sa[p]);
            let ghost before = sa@;
            proof {
                lemma_settle_l(u, b, before, log, pos, cnt, p as int);
            }
            sa_move(sa, p + 1, p, k, 0);
            sa[p + k] = EMPTY;
            proof {
                assert(sa@ =~= pulled(before, p as int, k as int, EMPTY));
                cnt = cnt.update(p as int, false);
            }
        }
        p += 1;
    }
    proof {
        lemma_kept_l(u, b, sa@, log, pos, cnt);
        lemma_end_l(u, b, sa@, log, pos, cnt);
    }
}

/// Induce l-type characters by lms characters.
#[verifier::rlimit(100)]
#[verifier::spinoff_prover]
fn induce_l(
    s: &[u32],
    sa: &mut [u32],
    Ghost(by_suffix): Ghost<bool>,
    Ghost(b): Ghost<Seq<Span>>,
    Ghost(pos): Ghost<Seq<int>>,
) -> (r: Ghost<(Seq<Span>, Seq<int>)>)
    requires
        level(text_of(s@), b, old(sa)@, pos),
        l_inv(text_of(s@), by_suffix, b, lift(old(sa)@), pos, 0),
        forall|p: int| 0 <= p < b.len() ==> (#[trigger] b[p]).i == b[p].head,
    ensures
        final(sa).len() == old(sa).len(),
        level(text_of(s@), r@.0, final(sa)@, r@.1),
        l_inv(text_of(s@), by_suffix, r@.0, lift(final(sa)@), r@.1, s.len() + 1),
{
    let ghost u = text_of(s@);
    let n = s.len();
    let len = sa.len();
    let ghost mut b = b;
    let ghost mut log = lift(sa@);
    let ghost mut pos = pos;
    let ghost mut cnt = none(n as int);
    let ghost mut xlog: int = 0;
    proof {
        lemma_begin_l(u, b, sa@, pos);
        lemma_kept_l(u, b, sa@, log, pos, cnt);
    }
    let mut p: usize = 0;
    while p < len
        invariant
            u == text_of(s@),
            n == s.len(),
            len == n + 1,
            sa.len() == len,
            p <= len,
            kept_l(u, b, sa@, log, pos, cnt),
            l_inv(u, by_suffix, b, log, pos, xlog),
            0 <= xlog <= n + 1,
            xlog == (if p <= n {
                seat_l(u, b, cnt, p as int)
            } else {
                n + 1
            }),
        decreases n + 1 - xlog, len - p,
    {
        proof {
            lemma_kept_l(u, b, sa@, log, pos, cnt);
            lemma_cell_l(u, b, sa@, log, pos, cnt, p as int);
        }
        if sa[p] < EMPTY {
            // if i == s.len(), i-1 must be l-type.
            // if s[i-1] >= s[i], i-1 must be l-type.
            let i = sa[p] as usize;
            proof {
                lemma_seen_l(u, by_suffix, b, sa@, log, pos, cnt, p as int);
                if 0 < i < n {
                    assert(u[i - 1] == s@[i - 1] && u[i as int] == s@[i as int]);
                }
            }
            if i == n || (i > 0 && s[i - 1] >= s[i]) {
                proof {
                    lemma_push_l(u, by_suffix, b, log, pos, xlog, i - 1);
                }
                let (cursor, next) = insert_head(
                    s,
                    sa,
                    p,
                    i - 1,
                    Ghost(b),
                    Ghost(log),
                    Ghost(pos),
                    Ghost(cnt),
                );
                p = cursor;
                proof {
                    let q = b[u[i - 1]].i as int;
                    log = log.update(q, (i - 1) as u32);
                    pos = pos.update(i - 1, q);
                    b = push_front_spans(b, u[i - 1]);
                    cnt = next@;
                }
            } else {
                proof {
                    assert forall|v: int|
                        1 <= v <= n && xlog <= #[trigger] pos[v] < xlog + 1 implies is_s(u, v - 1)
                        || pos[v - 1] >= 0 by {
                        crate::construct::sacak::sacak_u32s::heads::lemma_filled(u, b, log, pos, v);
                    }
                    lemma_advance_l(u, by_suffix, b, log, pos, xlog, xlog + 1);
                }
            }
            proof {
                lemma_kept_l(u, b, sa@, log, pos, cnt);
                lemma_pass_l(u, by_suffix, b, sa@, log, pos, cnt, p as int, xlog + 1);
                xlog = if p + 1 <= n {
                    seat_l(u, b, cnt, p + 1)
                } else {
                    n + 1
                };
            }
        } else {
            proof {
                lemma_pass_l(u, by_suffix, b, sa@, log, pos, cnt, p as int, xlog);
                xlog = if p + 1 <= n {
                    seat_l(u, b, cnt, p + 1)
                } else {
                    n + 1
                };
            }
        }
        p += 1;
    }
    proof {
        assert forall|q: int| has_l(u, q) implies (#[trigger] b[q]).i == b[q].tail by {
            lemma_kept_l(u, b, sa@, log, pos, cnt);
            lemma_l_full(u, by_suffix, b, log, pos, q);
            lemma_l_bucket(u, b, q);
        }
    }
    finish_head(sa, Ghost(u), Ghost(b), Ghost(log), Ghost(pos), Ghost(cnt));
    proof {
        lemma_l_inv_frame(u, by_suffix, b, log, lift(sa@), pos, n + 1);
    }
    Ghost((b, pos))
}

/// Insert s-type characters in corresponding bucket tail.
/// Invalid insertion would be ignored (assuming that the bucket head of l-type
/// characters is not in working state).
/// The cursor for suffix array scanning would be modified, when data chunk
/// containing the cursor is moved.
#[inline]
#[verifier::rlimit(100)]
#[verifier::spinoff_prover]
pub(crate) fn insert_tail(
    s: &[u32],
    sa: &mut [u32],
    cursor: usize,
    i: usize,
    Ghost(b): Ghost<Seq<Span>>,
    Ghost(log): Ghost<Seq<u32>>,
    Ghost(pos): Ghost<Seq<int>>,
    Ghost(cnt): Ghost<Seq<bool>>,
) -> (r: (usize, Ghost<Seq<bool>>))
    requires
        kept_s(text_of(s@), b, old(sa)@, log, pos, cnt),
        snug_s(text_of(s@), b, cnt),
        i < s.len(),
        cursor <= s.len(),
        is_s(text_of(s@), i as int) ==> pos[i as int] < 0,
        !is_s(text_of(s@), i as int) ==> fronts_full(text_of(s@), b),
    ensures
        final(sa).len() == old(sa).len(),
        final(sa)@[0] == old(sa)@[0],
        r.0 <= s.len(),
        is_s(text_of(s@), i as int) ==> {
            &&& kept_s(
                text_of(s@),
                push_back_spans(b, text_of(s@)[i as int]),
                final(sa)@,
                log.update(b[text_of(s@)[i as int]].j - 1, i as u32),
                pos.update(i as int, b[text_of(s@)[i as int]].j - 1),
                r.1@,
            )
            &&& snug_s(text_of(s@), push_back_spans(b, text_of(s@)[i as int]), r.1@)
            &&& cursor >= 1 && old(sa)@[cursor as int] < EMPTY ==> r.0 >= 1 && final(sa)@[r.0 as int]
                == old(sa)@[cursor as int] && seat_s(
                text_of(s@),
                push_back_spans(b, text_of(s@)[i as int]),
                r.1@,
                r.0 as int,
            ) == seat_s(text_of(s@), b, cnt, cursor as int)
            &&& cursor == 0 ==> r.0 == 0
        },
        !is_s(text_of(s@), i as int) ==> final(sa)@ == old(sa)@ && r.1@ == cnt && r.0 == cursor,
{
    let ghost u = text_of(s@);
    let ghost given = sa@;
    let ghost valid = is_s(u, i as int);
    let len = sa.len();
    let p = s[i] as usize;
    let mut cur = cursor;
    let ghost mut cnt = cnt;
    proof {
        lemma_kept_s(u, b, sa@, log, pos, cnt);
        assert(u[i as int] == p);
        if valid {
            lemma_pending_s(u, b, sa@, log, pos, cnt, i as int);
        } else {
            lemma_ignored_s(u, b, sa@, log, pos, cnt, i as int);
        }
    }

    if sa[p] < EMPTY {
        proof {
            if valid {
                lemma_borrowed_s(u, b, sa@, log, pos, cnt, i as int);
            }
        }
        let rp = get_ptr(s, sa[p] as usize);
        if p > 0 && p != rp {
            // <borrowed-by-left-indexes>, (indexes[1..], -n) => i, (indexes)
            let mut q = p;
            loop
                invariant
                    u == text_of(s@),
                    sa@ == given,
                    sa.len() == len,
                    len == s.len() + 1,
                    u.len() < EMPTY,
                    valid,
                    rp == home(u, p + 1),
                    p <= q <= rp,
                    rp < len,
                    given[rp as int] > EMPTY,
                    forall|z: int| p <= z < rp ==> #[trigger] given[z] < u.len() && u[given[z] as int] == rp,
                ensures
                    q == rp,
                decreases rp - q,
            {
                if !(q < sa.len() && sa[q] < EMPTY) {
                    break ;
                }
                if get_ptr(s, sa[q] as usize) != rp {
                    break ;
                }
                q += 1;
            }
            if sa[q] > EMPTY {
                let k = count_of(sa[q]);
                proof {
                    lemma_settle_s(u, b, given, log, pos, cnt, q as int);
                    assert(k == q - p);
                }
                cur = sa_move(sa, p, p + 1, k, cur);
                sa[p] = EMPTY;
                proof {
                    assert(sa@ =~= pushed(given, q as int, k as int, EMPTY));
                    assert(cur == pushed_at(q as int, k as int, cursor as int));
                    cnt = cnt.update(q as int, false);
                }
            }
        }
    }
    let ghost mid = sa@;
    proof {
        if valid {
            lemma_kept_s(u, b, mid, log, pos, cnt);
            lemma_pending_s(u, b, mid, log, pos, cnt, i as int);
        }
    }

    if sa[p] == EMPTY {
        if p <= 1 || sa[p - 1] != EMPTY {
            // <bound>, E =>  <bound>, i
            proof {
                lemma_single_s(u, b, mid, log, pos, cnt, i as int);
            }
            sa[p] = i as u32;
        } else {
            // E, E => i, -1
            proof {
                lemma_start_count_s(u, b, mid, log, pos, cnt, i as int);
                cnt = cnt.update(p as int, true);
            }
            sa[p] = 0xffff_ffff;
            sa[p - 1] = i as u32;
        }
    } else if sa[p] > EMPTY {
        let k = count_of(sa[p]);
        assert(k == p + 1 - b[p as int].j);
        if p - 1 <= k || sa[p - k - 1] != EMPTY {
            // <bound>, indexes, -n => <bound>, i, indexes
            proof {
                lemma_flush_s(u, b, mid, log, pos, cnt, i as int);
            }
            cur = sa_move(sa, p - k, p - k + 1, k, cur);
            sa[p - k] = i as u32;
            proof {
                assert(sa@ =~= pushed(mid, p as int, k as int, i as u32));
                cnt = cnt.update(p as int, false);
            }
        } else {
            // E, indexes, -n => i, indexes, -(n+1)
            proof {
                lemma_append_s(u, b, mid, log, pos, cnt, i as int);
            }
            sa[p - k - 1] = i as u32;
            sa[p] -= 1;
        }
    }
    (cur, Ghost(cnt))
}

/// Clean up the remaining counts in the bucket tail.
#[inline]
pub(crate) fn finish_tail(
    sa: &mut [u32],
    Ghost(u): Ghost<Seq<int>>,
    Ghost(b): Ghost<Seq<Span>>,
    Ghost(log): Ghost<Seq<u32>>,
    Ghost(pos): Ghost<Seq<int>>,
    Ghost(cnt): Ghost<Seq<bool>>,
)
    requires
        kept_s(u, b, old(sa)@, log, pos, cnt),
        old(sa)@[0] == u.len(),
    ensures
        final(sa).len() == old(sa).len(),
        level(u, b, final(sa)@, pos),
        placed(u, b, lift(final(sa)@), pos),
{
    let ghost mut cnt = cnt;
    let len = sa.len();
    proof {
        lemma_kept_s(u, b, sa@, log, pos, cnt);
    }
    let mut p: usize = len;
    while p > 1
        invariant
            1 <= p <= len,
            len == sa.len(),
            len == u.len() + 1,
            sa.len() == old(sa).len(),
            sa@[0] == u.len(),
            kept_s(u, b, sa@, log, pos, cnt),
            cnt.len() == len,
            forall|q: int| p <= q < len ==> !#[trigger] cnt[q],
        decreases p,
    {
        p -= 1;
        proof {
            lemma_kept_s(u, b, sa@, log, pos, cnt);
            lemma_cell_s(u, b, sa@, log, pos, cnt, p as int);
        }
        if sa[p] > EMPTY {
            let k = count_of(sa[p]);
            let ghost before = sa@;
            proof {
                lemma_settle_s(u, b, before, log, pos, cnt, p as int);
            }
            sa_move(sa, p - k, p - k + 1, k, 0);
            sa[p - k] = EMPTY;
            proof {
                assert(sa@ =~= pushed(before, p as int, k as int, EMPTY));
                cnt = cnt.update(p as int, false);
            }
        }
    }
    proof {
        lemma_kept_s(u, b, sa@, log, pos, cnt);
        assert forall|q: int| 0 <= q <= u.len() implies !#[trigger] cnt[q] by {
            if q == 0 && cnt[q] {
                assert(counts_s(u, cnt, q));
            }
        }
        lemma_end_s(u, b, sa@, log, pos, cnt);
    }
}

/// Induce s-type characters by l-type characters.
#[verifier::rlimit(100)]
#[verifier::spinoff_prover]
fn induce_s(
    s: &[u32],
    sa: &mut [u32],
    Ghost(by_suffix): Ghost<bool>,
    Ghost(b): Ghost<Seq<Span>>,
    Ghost(pos): Ghost<Seq<int>>,
) -> (r: Ghost<(Seq<Span>, Seq<int>)>)
    requires
        level(text_of(s@), b, old(sa)@, pos),
        s_inv(text_of(s@), by_suffix, b, lift(old(sa)@), pos, s.len() + 1),
        fronts_full(text_of(s@), b),
        forall|p: int| 0 <= p < b.len() ==> (#[trigger] b[p]).j == b[p].tail,
    ensures
        final(sa).len() == old(sa).len(),
        level(text_of(s@), r@.0, final(sa)@, r@.1),
        s_inv(text_of(s@), by_suffix, r@.0, lift(final(sa)@), r@.1, 1),
{
    let ghost u = text_of(s@);
    let n = s.len();
    let len = sa.len();
    let ghost mut b = b;
    let ghost mut log = lift(sa@);
    let ghost mut pos = pos;
    let ghost mut cnt = none(n as int);
    let ghost mut xlog: int = n + 1;
    proof {
        lemma_begin_s(u, b, sa@, log, pos);
        lemma_kept_s(u, b, sa@, log, pos, cnt);
    }
    let mut p: usize = len - 1;
    while p > 0
        invariant
            u == text_of(s@),
            n == s.len(),
            len == n + 1,
            sa.len() == len,
            p < len,
            sa@[0] == n,
            kept_s(u, b, sa@, log, pos, cnt),
            snug_s(u, b, cnt),
            fronts_full(u, b),
            s_inv(u, by_suffix, b, log, pos, xlog),
            1 <= xlog <= n + 1,
            xlog == (if p >= 1 {
                seat_s(u, b, cnt, p as int) + 1
            } else {
                1
            }),
        decreases xlog, p,
    {
        proof {
            lemma_kept_s(u, b, sa@, log, pos, cnt);
            lemma_cell_s(u, b, sa@, log, pos, cnt, p as int);
        }
        if sa[p] < EMPTY {
            let i = sa[p] as usize;
            proof {
                lemma_seen_s(u, by_suffix, b, sa@, log, pos, cnt, p as int);
                if 0 < i {
                    assert(u[i - 1] == s@[i - 1] && u[i as int] == s@[i as int]);
                }
            }
            if i > 0 && get_ptr(s, i - 1) <= get_ptr(s, i) {
                let ghost valid = is_s(u, i - 1);
                proof {
                    if valid {
                        lemma_push_s(u, by_suffix, b, log, pos, xlog, i - 1);
                    } else {
                        assert forall|v: int|
                            1 <= v < n && xlog - 1 <= #[trigger] pos[v] < xlog implies !is_s(
                            u,
                            v - 1,
                        ) || pos[v - 1] >= 0 by {
                            crate::construct::sacak::sacak_u32s::heads::lemma_filled(
                                u,
                                b,
                                log,
                                pos,
                                v,
                            );
                        }
                        lemma_advance_s(u, by_suffix, b, log, pos, xlog, xlog - 1);
                    }
                }
                let (cursor, next) = insert_tail(
                    s,
                    sa,
                    p,
                    i - 1,
                    Ghost(b),
                    Ghost(log),
                    Ghost(pos),
                    Ghost(cnt),
                );
                p = cursor;
                proof {
                    if valid {
                        let q = b[u[i - 1]].j - 1;
                        assert forall|c: int| has_l(u, c) implies (#[trigger] push_back_spans(
                            b,
                            u[i - 1],
                        )[c]).i == c + crate::construct::llhsais::pointers::size(u, c) by {
                            assert(b[c].i == c + crate::construct::llhsais::pointers::size(u, c));
                        }
                        log = log.update(q, (i - 1) as u32);
                        pos = pos.update(i - 1, q);
                        b = push_back_spans(b, u[i - 1]);
                        cnt = next@;
                    }
                }
            } else {
                proof {
                    assert forall|v: int|
                        1 <= v < n && xlog - 1 <= #[trigger] pos[v] < xlog implies !is_s(u, v - 1)
                        || pos[v - 1] >= 0 by {
                        crate::construct::sacak::sacak_u32s::heads::lemma_filled(u, b, log, pos, v);
                    }
                    lemma_advance_s(u, by_suffix, b, log, pos, xlog, xlog - 1);
                }
            }
            proof {
                lemma_kept_s(u, b, sa@, log, pos, cnt);
                lemma_pass_s(u, by_suffix, b, sa@, log, pos, cnt, p as int, xlog - 1);
                xlog = if p - 1 >= 1 {
                    seat_s(u, b, cnt, p - 1) + 1
                } else {
                    1
                };
            }
        } else {
            proof {
                lemma_pass_s(u, by_suffix, b, sa@, log, pos, cnt, p as int, xlog);
                xlog = if p - 1 >= 1 {
                    seat_s(u, b, cnt, p - 1) + 1
                } else {
                    1
                };
            }
        }
        p -= 1;
    }
    finish_tail(sa, Ghost(u), Ghost(b), Ghost(log), Ghost(pos), Ghost(cnt));
    proof {
        lemma_s_inv_frame(u, by_suffix, b, log, lift(sa@), pos, 1);
    }
    Ghost((b, pos))
}

/// Clear all the lms characters in bucket tail, keep the sentinel untouched.
#[inline]
#[verifier::rlimit(100)]
#[verifier::spinoff_prover]
fn clear_lms(
    s: &[u32],
    sa: &mut [u32],
    Ghost(by_suffix): Ghost<bool>,
    Ghost(b): Ghost<Seq<Span>>,
    Ghost(pos): Ghost<Seq<int>>,
)
    requires
        level(text_of(s@), b, old(sa)@, pos),
        l_inv(text_of(s@), by_suffix, b, lift(old(sa)@), pos, s.len() + 1),
    ensures
        final(sa).len() == old(sa).len(),
        level(text_of(s@), reset_back_spans(b), final(sa)@, drop_s(text_of(s@), pos)),
        s_inv(
            text_of(s@),
            by_suffix,
            reset_back_spans(b),
            lift(final(sa)@),
            drop_s(text_of(s@), pos),
            s.len() + 1,
        ),
{
    let ghost u = text_of(s@);
    let ghost given = sa@;
    let n = s.len();
    let len = sa.len();

    // mark and count lms characters
    let mut scan = for_each_lms(s, false);
    proof {
        lemma_last_is_l(u);
        assert forall|x: int| 0 <= x <= n implies sa@[x] == counted(u, given, n - 1, x) by {
            lemma_counted_gap(u, given, n - 1, n as int, x);
        }
    }
    loop
        invariant
            u == text_of(s@),
            n == s.len(),
            n >= 1,
            len == n + 1,
            sa.len() == len,
            given.len() == len,
            level(u, b, given, pos),
            scan.wf(u),
            0 <= scan.bound(n as int) <= n,
            forall|x: int|
                0 <= x <= n ==> #[trigger] sa@[x] == counted(u, given, scan.bound(n as int), x),
        ensures
            sa.len() == len,
            forall|x: int| 0 <= x <= n ==> #[trigger] sa@[x] == counted(u, given, 0, x),
        decreases scan.bound(n as int),
    {
        let ghost before = scan.bound(n as int);
        let ghost held = sa@;
        match scan.next(s) {
            Some((i, c)) => {
                let p = c as usize;
                proof {
                    lemma_count_put(
                        u,
                        given,
                        i as int,
                        before,
                        scan.bound(n as int),
                        held,
                    );
                }
                if sa[p] > EMPTY {
                    sa[p] -= 1;
                } else {
                    sa[p] = 0xffff_ffff;
                }
                assert(sa@ == count_put(held, p as int));
            },
            None => {
                proof {
                    assert forall|x: int| 0 <= x <= n implies #[trigger] sa@[x] == counted(
                        u,
                        given,
                        0,
                        x,
                    ) by {
                        if before >= 1 {
                            lemma_counted_gap(u, given, 1, before, x);
                        }
                        assert(!crate::sais::model::is_lms(u, 0));
                        lemma_counted_gap(u, given, 0, 1, x);
                    }
                }
                break ;
            },
        }
    }

    // fill EMPTY
    proof {
        assert forall|x: int| 0 <= x <= n implies #[trigger] sa@[x] == emptied(
            u,
            given,
            n as int,
            x,
        ) by {
            lemma_emptied_start(u, b, given, x);
        }
    }
    let mut p: usize = len;
    while p > 1
        invariant
            u == text_of(s@),
            n == s.len(),
            len == n + 1,
            sa.len() == len,
            given.len() == len,
            1 <= p <= len,
            level(u, b, given, pos),
            forall|x: int| 0 <= x <= n ==> #[trigger] sa@[x] == emptied(u, given, p - 1, x),
        decreases p,
    {
        p -= 1;
        let ghost held = sa@;
        proof {
            lemma_emptied_step(u, b, given, p as int, p as int);
            assert(held[p as int] == emptied(u, given, p as int, p as int));
        }
        if sa[p] > EMPTY {
            let k = count_of(sa[p]);
            let mut x: usize = p + 1 - k;
            while x < p + 1
                invariant
                    p + 1 - k <= x <= p + 1,
                    1 <= k <= p,
                    p < sa.len(),
                    sa.len() == len,
                    forall|z: int| 0 <= z < len && !(p + 1 - k <= z < x) ==> sa@[z] == held[z],
                    forall|z: int| p + 1 - k <= z < x ==> sa@[z] == EMPTY,
                decreases p + 1 - x,
            {
                sa[x] = EMPTY;
                x += 1;
            }
        }
        proof {
            assert forall|x: int| 0 <= x <= n implies #[trigger] sa@[x] == emptied(
                u,
                given,
                p - 1,
                x,
            ) by {
                lemma_emptied_step(u, b, given, p as int, x);
                assert(held[x] == emptied(u, given, p as int, x));
            }
        }
    }
    proof {
        lemma_emptied_all(u, by_suffix, b, given, pos, sa@);
    }
}

/// Induce the entire suffix array by sorted lms suffixes.
/// Or induce the order of lms substrings by the sorted lms characters.
fn induce_by_lms(
    s: &[u32],
    sa: &mut [u32],
    Ghost(by_suffix): Ghost<bool>,
    Ghost(b): Ghost<Seq<Span>>,
    Ghost(pos): Ghost<Seq<int>>,
) -> (r: Ghost<(Seq<Span>, Seq<int>)>)
    requires
        level(text_of(s@), b, old(sa)@, pos),
        l_inv(text_of(s@), by_suffix, b, lift(old(sa)@), pos, 0),
        forall|p: int| 0 <= p < b.len() ==> (#[trigger] b[p]).i == b[p].head,
    ensures
        final(sa).len() == old(sa).len(),
        level(text_of(s@), r@.0, final(sa)@, r@.1),
        s_inv(text_of(s@), by_suffix, r@.0, lift(final(sa)@), r@.1, 1),
{
    let ghost u = text_of(s@);
    // 1. induce l-type characters by lms characters
    let filled = induce_l(s, sa, Ghost(by_suffix), Ghost(b), Ghost(pos));
    let ghost mid = sa@;

    // 2. clear lms characters, except the sentinel
    clear_lms(s, sa, Ghost(by_suffix), Ghost(filled@.0), Ghost(filled@.1));
    proof {
        assert forall|q: int| has_l(u, q) implies (#[trigger] reset_back_spans(filled@.0)[q]).i == q
            + crate::construct::llhsais::pointers::size(u, q) by {
            lemma_l_full(u, by_suffix, filled@.0, lift(mid), filled@.1, q);
            lemma_l_bucket(u, filled@.0, q);
        }
    }

    // 3. symmetrically induce s-type characters by l-type characters
    induce_s(
        s,
        sa,
        Ghost(by_suffix),
        Ghost(reset_back_spans(filled@.0)),
        Ghost(drop_s(u, filled@.1)),
    )
}

/// The workspace holds what it stands for, when it holds every suffix.
proof fn lemma_lift_full(u: Seq<int>, sa: Seq<u32>)
    requires
        u.len() < EMPTY,
        crate::order::is_permutation(u.len() as int, lift(sa)),
    ensures
        lift(sa) == sa,
{
    assert forall|z: int| 0 <= z < sa.len() implies lift(sa)[z] == sa[z] by {
        assert(lift(sa)[z] <= u.len());
    }
    assert(lift(sa) =~= sa);
}

/// Sort all the lms suffixes in the workspace.
fn sort_lms_suffixes(s: &[u32], sa: &mut [u32]) -> (seeds: Ghost<(Seq<Span>, Seq<int>)>)
    requires
        pointered(text_of(s@)),
        s.len() < EMPTY,
        old(sa).len() == s.len() + 1,
    ensures
        final(sa).len() == old(sa).len(),
        level(text_of(s@), seeds@.0, final(sa)@, seeds@.1),
        l_inv(text_of(s@), true, seeds@.0, lift(final(sa)@), seeds@.1, 0),
        forall|p: int| 0 <= p < seeds@.0.len() ==> (#[trigger] seeds@.0[p]).i == seeds@.0[p].head,
    decreases old(sa)@.len(), 0int,
{
    let ghost u = text_of(s@);
    // 1. place lms characters
    let placed = crate::construct::sacak::sacak_u32s::sorting::place_lms(s, sa);

    // 2. sort lms substrings by lms characters
    let all = induce_by_lms(s, sa, Ghost(false), Ghost(placed@.0), Ghost(placed@.1));
    proof {
        lemma_induced(u, false, all@.0, lift(sa@), all@.1);
        lemma_lift_full(u, sa@);
    }

    // 3. collect the sorted lms substrings into the tail of workspace
    let h = crate::construct::llhsais::collect::collect_lms(s, sa, Ghost(all@.0), Ghost(all@.1));

    // 4. get the sorted lms suffixes from sorted lms substrings
    let ghost listed = sa@;
    let (head, tail) = sa.split_at_mut(h);
    assert(tail@ == listed.subrange(h as int, listed.len() as int));
    let m = tail.len();
    let (k, t1, name_of) = reduce_substrs(s, head, tail);
    let unique = k + 1 == m;
    let ghost reduced = text_of(head@.subrange(0, t1 as int));
    if !unique {
        let (s1, _) = head.split_at_mut(t1);
        sacak_u32s(s1, k, tail);
    }
    restore_suffixes(s, head, tail, unique, name_of, Ghost(reduced));
    let ghost sorted = head@.take(m as int);

    // 5. place sorted lms suffixes to the bucket respectively
    assert(sa@.take(m as int) =~= sorted);
    crate::construct::sacak::sacak_u32s::sorting::place_sorted(s, sa, m)
}

/// O(n) time and O(1) space SAIS algorithm for writable integer string (s),
/// whose alphabet scale (k) is usually large enough comparing to the string
/// length.
pub fn sacak_u32s(s: &mut [u32], k: usize, sa: &mut [u32])
    requires
        old(s).len() <= MAX_LENGTH,
        old(s).len() + 1 == old(sa).len(),
        old(s).len() > 0 ==> k <= old(s).len(),
        forall|i: int| 0 <= i < old(s).len() ==> #[trigger] old(s)@[i] < k,
    ensures
        final(s).len() == old(s).len(),
        final(sa).len() == old(sa).len(),
        is_suffix_array(text_of(old(s)@), final(sa)@),
        text_of(final(s)@) == pointers(text_of(old(s)@)),
    decreases old(sa)@.len(), 1int,
{
    let ghost t = text_of(s@);
    if s.len() == 0 {
        sa[0] = 0;
        assert(t.len() == 0);
        assert(text_of(s@) =~= pointers(t));
        return ;
    }
    crate::construct::llhsais::transform_string(s, k, sa);
    let ghost u = text_of(s@);
    proof {
        crate::construct::utils::lemma_text_range(old(s)@);
        crate::construct::llhsais::pointers::lemma_pointered(t);
    }
    let seeds = sort_lms_suffixes(s, sa);
    let all = induce_by_lms(s, sa, Ghost(true), Ghost(seeds@.0), Ghost(seeds@.1));
    proof {
        lemma_induced(u, true, all@.0, lift(sa@), all@.1);
        lemma_lift_full(u, sa@);
        assert forall|i: int, j: int| 0 <= i < j < sa@.len() implies crate::order::suf_lt(
            u,
            #[trigger] sa@[i] as int,
            #[trigger] sa@[j] as int,
        ) by {
            crate::order::lemma_suf_total(u, sa@[i] as int, sa@[j] as int);
        }
        crate::construct::llhsais::pointers::lemma_ptr_suffix_array(t, sa@);
    }
}

} // verus!
