//! Gathering the sorted LMS substrings at the end of the workspace, with
//! the types of the suffixes read from the pointers alone.
use vstd::prelude::*;
use crate::construct::llhsais::layout::flat;
use crate::construct::llhsais::layout_s::{lemma_s_bucket, tail_at};
use crate::construct::llhsais::pointers::{lemma_pure, pointered};
use crate::construct::utils::text_of;
use crate::order::is_permutation;
use crate::sais::induce::{lemma_induced, lemma_s_present, ordered, s_inv};
use crate::sais::model::{is_lms, is_s, kle, le, lemma_last_is_l, sym, tkey};
use crate::sais::naming::{
    collected, lemma_collect_done, lemma_collect_skip, lemma_collect_take, lms_listed,
    sorted_by_substring,
};
use crate::sais::reduce::lms_count;
use crate::sais::state::{in_back, occupied};
use crate::sais::utils::Span;

verus! {

/// Of two neighbouring S-type positions with one symbol, the substring at
/// the second is not at most the one at the first.
pub proof fn lemma_run_order(t: Seq<int>, v: int, first: bool)
    requires
        forall|i: int| 0 <= i < t.len() ==> 0 <= #[trigger] t[i],
        0 <= v < t.len(),
        is_s(t, v),
        sym(t, v) == sym(t, v + 1),
        first || !is_lms(t, v),
    ensures
        v + 1 < t.len(),
        is_s(t, v + 1),
        !kle(t, v + 1, v, first),
    decreases t.len() - v,
{
    assert(v + 1 < t.len()) by {
        if v + 1 >= t.len() {
            assert(sym(t, v + 1) == -1);
            assert(t[v] >= 0);
        }
    }
    assert(is_s(t, v + 1));
    assert(tkey(t, v + 1) == tkey(t, v));
    assert(!is_lms(t, v + 1));
    assert(t[v + 1] >= 0);
    if sym(t, v + 1) == sym(t, v + 2) {
        lemma_run_order(t, v + 1, false);
        assert(!is_lms(t, v + 2));
    } else {
        assert(sym(t, v + 1) < sym(t, v + 2));
        assert(v + 2 < t.len());
        assert(tkey(t, v + 2) > tkey(t, v + 1));
    }
    assert(!kle(t, v + 2, v + 1, false));
}

/// The last suffix of a run of suffixes with one pointer shows the type of
/// the run: it is S-type where its pointer is below the next.
#[verifier::rlimit(100)]
#[verifier::spinoff_prover]
pub proof fn lemma_group_type(u: Seq<int>, b: Seq<Span>, sorted: Seq<u32>, pos: Seq<int>, p: int)
    requires
        pointered(u),
        s_inv(u, false, b, sorted, pos, 1),
        1 <= p <= u.len(),
        p < u.len() ==> sorted[p + 1] < u.len() && u[sorted[p + 1] as int] != u[sorted[p] as int],
        sorted[p] < u.len(),
    ensures
        is_s(u, sorted[p] as int) == (sorted[p] + 1 < u.len() && u[sorted[p] as int] < u[sorted[p]
            + 1]),
{
    let n = u.len() as int;
    let i = sorted[p] as int;
    lemma_induced(u, false, b, sorted, pos);
    lemma_s_present(u, false, b, sorted, pos, i);
    assert(pos[i] == p);
    if is_s(u, i) && !(i + 1 < n && u[i] < u[i + 1]) {
        assert(sym(u, i) == sym(u, i + 1));
        lemma_run_order(u, i, true);
        let c = u[i];
        assert(tail_at(u, false, c, i));
        lemma_s_bucket(u, false, b, c);
        assert(in_back(b, c, p));
        if p < c {
            assert(in_back(b, c, p + 1));
            assert(occupied(b, c, p + 1));
        }
        assert(p == c);
        lemma_s_present(u, false, b, sorted, pos, i + 1);
        assert(in_back(b, c, pos[i + 1]));
        assert(pos[i + 1] != p);
        assert(ordered(u, false, true, pos, i + 1, i));
    }
}

/// Whether `sorted` is the workspace after the LMS substrings have been
/// sorted.
#[verifier::opaque]
pub open spec fn gathering(u: Seq<int>, b: Seq<Span>, sorted: Seq<u32>, pos: Seq<int>) -> bool {
    &&& pointered(u)
    &&& s_inv(u, false, b, sorted, pos, 1)
    &&& is_permutation(u.len() as int, sorted)
    &&& sorted[0] == u.len()
}

/// What the pointers around the suffix at the place `p` say of it, when
/// `q` and `t` are the pointer and the type of the suffix at the next
/// place.
#[verifier::rlimit(100)]
#[verifier::spinoff_prover]
pub proof fn lemma_scan_type(
    u: Seq<int>,
    b: Seq<Span>,
    sorted: Seq<u32>,
    pos: Seq<int>,
    p: int,
    q: int,
    t: bool,
)
    requires
        gathering(u, b, sorted, pos),
        1 <= p <= u.len(),
        p == u.len() ==> q == u.len() + 1,
        p < u.len() ==> sorted[p + 1] < u.len() && q == u[sorted[p + 1] as int] && t == is_s(
            u,
            sorted[p + 1] as int,
        ),
    ensures
        sorted[p] < u.len(),
        1 <= u[sorted[p] as int] <= u.len(),
        is_s(u, sorted[p] as int) == (if u[sorted[p] as int] != q {
            sorted[p] + 1 < u.len() && u[sorted[p] as int] < u[sorted[p] + 1]
        } else {
            t
        }),
        is_lms(u, sorted[p] as int) == (is_s(u, sorted[p] as int) && sorted[p] > 0 && u[sorted[p]
            - 1] > u[sorted[p] as int]),
{
    reveal(gathering);
    let i = sorted[p] as int;
    assert(sorted[p] != sorted[0]);
    if u[i] != q {
        lemma_group_type(u, b, sorted, pos, p);
    } else {
        lemma_pure(u, i, sorted[p + 1] as int);
    }
    if i > 0 {
        assert(sym(u, i - 1) == u[i - 1]);
    }
}

/// Collect the sorted lms substrings into the tail of the workspace, and
/// return where they begin.
pub(crate) fn collect_lms(
    s: &[u32],
    sa: &mut [u32],
    Ghost(b): Ghost<Seq<Span>>,
    Ghost(all): Ghost<Seq<int>>,
) -> (h: usize)
    requires
        flat(text_of(s@), b, old(sa)@, all),
        s_inv(text_of(s@), false, b, old(sa)@, all, 1),
    ensures
        final(sa).len() == old(sa).len(),
        h + lms_count(text_of(s@)) == final(sa).len(),
        lms_listed(text_of(s@), final(sa)@.subrange(h as int, final(sa).len() as int)),
{
    let ghost u = text_of(s@);
    let ghost sorted = sa@;
    let n = s.len();
    let len = sa.len();
    proof {
        lemma_induced(u, false, b, sorted, all);
        lemma_last_is_l(u);
        assert(sorted_by_substring(u, sorted)) by {
            assert forall|p: int, q: int| 0 <= p < q < sorted.len() implies kle(
                u,
                #[trigger] sorted[p] as int,
                #[trigger] sorted[q] as int,
                true,
            ) && sorted[p] != sorted[q] by {
                assert(le(u, false, true, sorted[p] as int, sorted[q] as int));
            }
        }
    }
    proof {
        reveal(gathering);
    }
    let mut h: usize = len;
    let mut q: u32 = n as u32 + 1;
    let mut t = false;
    let mut p: usize = len - 1;
    while p > 0
        invariant
            u == text_of(s@),
            n == s.len(),
            len == n + 1,
            sa.len() == len,
            p <= n,
            h <= len,
            n < crate::construct::llhsais::MULTI,
            gathering(u, b, sorted, all),
            sorted_by_substring(u, sorted),
            collected(u, sorted, sa@, h as int, p + 1),
            p == n ==> q == n + 1,
            p < n ==> sorted[p + 1] < n && q == u[sorted[p + 1] as int] && t == is_s(
                u,
                sorted[p + 1] as int,
            ),
        decreases p,
    {
        let i = sa[p] as usize;
        proof {
            assert(sa@[p as int] == sorted[p as int]);
            lemma_scan_type(u, b, sorted, all, p as int, q as int, t);
            assert(u[i as int] == s@[i as int]);
            if i + 1 < n {
                assert(u[i + 1] == s@[i + 1]);
            }
            if i > 0 {
                assert(u[i - 1] == s@[i - 1]);
            }
        }
        if s[i] != q {
            // (bucket tail) s[i] < s[i+1] <=> here comes a s-type bucket
            t = i < n - 1 && s[i] < s[i + 1];
            q = s[i];
        }
        assert(t == is_s(u, i as int));
        // s[i-1] > s[i] and is s-type <=> this is a lms substring
        if t && i > 0 && s[i - 1] > s[i] {
            proof {
                assert(is_lms(u, i as int));
                lemma_collect_take(u, sorted, sa@, h as int, p + 1);
            }
            h -= 1;
            sa[h] = sa[p];
        } else {
            proof {
                assert(!is_lms(u, i as int));
                lemma_collect_skip(u, sorted, sa@, h as int, p + 1);
            }
        }
        p -= 1;
    }
    proof {
        reveal(gathering);
        lemma_collect_take(u, sorted, sa@, h as int, 1);
    }
    h -= 1;
    sa[h] = sa[0];
    proof {
        lemma_collect_done(u, sorted, sa@, h as int);
    }
    h
}

} // verus!
