//! O(n) time and O(1) space SAIS algorithm for writable integers mentioned in
//! the Section 3 of [Li, Z., Jian, L. and Huo, H. Optimal In-Place Suffix
//! Sorting](https://arxiv.org/abs/1610.08305).
use vstd::prelude::*;
use crate::construct::llhsais::layout::{
    counter, flat_put, flush_put, flushed, has_l, head_ok, l_at, lemma_flat_next_free,
    lemma_flat_put, lemma_flush_put, lemma_front_entry, lemma_l_bucket, lemma_cell,
    lemma_multi_put, lemma_not_next, lemma_rep_l, mark, multi_put, rep_l, Layout,
};
use crate::construct::llhsais::layout::{
    flat, has_s, lemma_l_full, lemma_rep_flat, lemma_scan_at, lemma_scan_end, lemma_scan_next,
    lemma_scan_over, lemma_settle, lemma_start_l, mark_of, marked_l, marked_s, s_at, scanned_l,
    seen, settle, settled, start_l,
};
use crate::construct::llhsais::pointers::{lemma_pure, pointered, pointers, ptr_of, size};
use crate::construct::llhsais::layout_s::{
    flat_put_s, flush_put_s, flushed_s, fronts_full, has_tail, lemma_back_entry, lemma_cell_s,
    lemma_cursor_s, lemma_flat_prev_free, lemma_flat_put_s, lemma_flush_put_s, lemma_multi_put_s,
    lemma_not_written, lemma_rep_s, lemma_s_bucket, multi_put_s, rep_s, tail_at, tail_ok,
};
use crate::construct::llhsais::layout_s::{
    lemma_at_s, lemma_marked_s, lemma_rep_flat_s, lemma_scan_at_s, lemma_scan_end_s,
    lemma_scan_next_s, lemma_scan_over_s, lemma_settle_s, lemma_start_s, lemma_tail_taken,
    scanned_s, settle_s, settled_s, start_s,
};
use crate::construct::llhsais::clearing::{
    count_put, counted, emptied, filled_l, lemma_count_put, lemma_counted_gap, lemma_counted_start,
    lemma_emptied_all, lemma_emptied_step,
};
use crate::construct::utils::{for_each_lms, reduce_substrs, restore_suffixes};
use crate::order::is_suffix_array;
use crate::sais::induce::{drop_s, l_inv, lemma_push_l, lemma_push_s, reset_back_spans, s_inv};
use crate::sais::state::push_back_spans;
use crate::sais::state::push_front_spans;
use crate::sais::utils::Span;
use crate::construct::utils::text_of;
use crate::sais::model::{
    bucket_head, count_below, is_s, lemma_bucket_head_mono, lemma_bucket_not_empty,
    lemma_count_below_bounds, lemma_count_below_none, lemma_last_is_l,
};

pub mod clearing;
pub mod collect;
pub mod layout;
pub mod layout_s;
pub mod placing;
pub mod pointers;
pub mod seeding;

verus! {

/// Special symbols.
pub const EMPTY: u32 = 0xffff_ffff;

pub const UNIQUE: u32 = 0xffff_fffe;

pub const MULTI: u32 = 0xffff_fffd;

/// Smallest symbol value.
pub const MIN_SYMBOL: u32 = 0xffff_fffd;

/// Maximum length of the input string.
pub const MAX_LENGTH: usize = 0xffff_fffc;

/// O(n) time and O(1) space SAIS algorithm for writable integer string (s),
/// whose alphabet scale (k) is usually large enough comparing to the string
/// length.
pub fn llhsais(s: &mut [u32], k: usize, sa: &mut [u32])
    requires
        old(s).len() <= MAX_LENGTH,
        old(s).len() + 1 == old(sa).len(),
        old(s).len() > 0 ==> k <= old(s).len(),
        forall|i: int| 0 <= i < old(s).len() ==> #[trigger] old(s)@[i] < k,
    ensures
        final(s).len() == old(s).len(),
        final(sa).len() == old(sa).len(),
        is_suffix_array(text_of(old(s)@), final(sa)@),
        text_of(final(s)@) == pointers(text_of(old(s)@)),
    decreases old(sa)@.len(), 1int,
{
    let ghost t = text_of(s@);
    if s.len() == 0 {
        sa[0] = 0;
        assert(t.len() == 0);
        assert(text_of(s@) =~= pointers(t));
        return ;
    }
    transform_string(s, k, sa);
    let ghost u = text_of(s@);
    proof {
        crate::construct::utils::lemma_text_range(old(s)@);
        crate::construct::llhsais::pointers::lemma_pointered(t);
    }
    let seeds = sort_lms_suffixes(s, sa);
    let all = induce_by_lms(s, sa, Ghost(true), Ghost(seeds@.0), Ghost(seeds@.1));
    proof {
        crate::sais::induce::lemma_induced(u, true, all@.0, sa@, all@.1);
        assert forall|i: int, j: int| 0 <= i < j < sa@.len() implies crate::order::suf_lt(
            u,
            #[trigger] sa@[i] as int,
            #[trigger] sa@[j] as int,
        ) by {
            crate::order::lemma_suf_total(u, sa@[i] as int, sa@[j] as int);
        }
        crate::construct::llhsais::pointers::lemma_ptr_suffix_array(t, sa@);
    }
}

/// Sort all the lms suffixes in the workspace.
#[verifier::rlimit(100)]
#[verifier::spinoff_prover]
fn sort_lms_suffixes(s: &[u32], sa: &mut [u32]) -> (seeds: Ghost<(Seq<Span>, Seq<int>)>)
    requires
        pointered(text_of(s@)),
        s.len() < MULTI,
        old(sa).len() == s.len() + 1,
    ensures
        final(sa).len() == old(sa).len(),
        flat(text_of(s@), seeds@.0, final(sa)@, seeds@.1),
        l_inv(text_of(s@), true, seeds@.0, final(sa)@, seeds@.1, 0),
        forall|p: int| 0 <= p < seeds@.0.len() ==> (#[trigger] seeds@.0[p]).i == seeds@.0[p].head,
    decreases old(sa)@.len(), 0int,
{
    let ghost u = text_of(s@);
    // 1. place lms characters
    let placed = crate::construct::llhsais::seeding::place_lms(s, sa);

    // 2. sort lms substrings by lms characters
    let all = induce_by_lms(s, sa, Ghost(false), Ghost(placed@.0), Ghost(placed@.1));

    // 3. collect the sorted lms substrings into the tail of workspace
    let h = crate::construct::llhsais::collect::collect_lms(s, sa, Ghost(all@.0), Ghost(all@.1));

    // 4. rename lms substrings and get alphabet scale of the sub-problem
    let ghost listed = sa@;
    let (head, tail) = sa.split_at_mut(h);
    assert(tail@ == listed.subrange(h as int, listed.len() as int));
    let m = tail.len();
    let (k, t1, name_of) = reduce_substrs(s, head, tail);

    // 5. sort then move the lms suffixes into the head of workspace
    let unique = k + 1 == m;
    let ghost reduced = text_of(head@.subrange(0, t1 as int));
    if !unique {
        let (s1, _) = head.split_at_mut(t1);
        llhsais(s1, k, tail);
    }
    restore_suffixes(s, head, tail, unique, name_of, Ghost(reduced));
    let ghost sorted = head@.take(m as int);

    // 6. place sorted lms suffixes to the bucket respectively
    assert(sa@.take(m as int) =~= sorted);
    crate::construct::llhsais::placing::place_sorted(s, sa, m)
}

/// Transform u32 string into an array of pointers to the corresponding bucket
/// head or tail position.
#[verifier::rlimit(100)]
#[verifier::spinoff_prover]
pub(crate) fn transform_string(s: &mut [u32], k: usize, sa: &mut [u32])
    requires
        1 <= old(s).len() <= MAX_LENGTH,
        old(sa).len() == old(s).len() + 1,
        k <= old(s).len(),
        forall|i: int| 0 <= i < old(s).len() ==> #[trigger] old(s)@[i] < k,
    ensures
        final(s).len() == old(s).len(),
        final(sa).len() == old(sa).len(),
        text_of(final(s)@) == pointers(text_of(old(s)@)),
{
    let ghost t = text_of(s@);
    let n = s.len();
    proof {
        assert forall|i: int| 0 <= i < n implies 0 <= #[trigger] t[i] < k by {
            assert(t[i] == s@[i] as int);
        }
    }

    // 1. construct bucket array in the workspace
    let mut c: usize = 0;
    while c < k + 1
        invariant
            c <= k + 1 <= sa.len(),
            sa.len() == old(sa).len(),
            forall|d: int| 0 <= d < c ==> sa@[d] == 0,
        decreases k + 1 - c,
    {
        sa[c] = 0;
        c += 1;
    }
    let mut i: usize = 0;
    while i < n
        invariant
            i <= n,
            n == s.len(),
            n <= MAX_LENGTH,
            s@ == old(s)@,
            t == text_of(s@),
            sa.len() == n + 1,
            k <= n,
            forall|i: int| 0 <= i < n ==> 0 <= #[trigger] t[i] < k,
            forall|d: int|
                0 <= d <= k ==> #[trigger] sa@[d] == count_below(t, d + 1, i as int) - count_below(
                    t,
                    d,
                    i as int,
                ),
        decreases n - i,
    {
        let ch = s[i] as usize;
        proof {
            assert(t[i as int] == ch);
            lemma_count_below_bounds(t, ch as int, i as int);
            lemma_count_below_bounds(t, ch + 1, i as int);
        }
        sa[ch] += 1;
        i += 1;
    }
    let mut sum: u32 = 1;
    let mut c: usize = 0;
    proof {
        lemma_count_below_none(t, n as int);
    }
    while c < k + 1
        invariant
            c <= k + 1,
            n == s.len(),
            n <= MAX_LENGTH,
            s@ == old(s)@,
            t == text_of(s@),
            sa.len() == n + 1,
            k <= n,
            sum == bucket_head(t, c as int),
            forall|d: int|
                c <= d <= k ==> #[trigger] sa@[d] == count_below(t, d + 1, n as int) - count_below(
                    t,
                    d,
                    n as int,
                ),
            forall|d: int| 0 <= d < c ==> #[trigger] sa@[d] == bucket_head(t, d),
        decreases k + 1 - c,
    {
        proof {
            lemma_count_below_bounds(t, c as int, n as int);
            lemma_count_below_bounds(t, c + 1, n as int);
        }
        let count = sa[c];
        sa[c] = sum;
        sum += count;
        c += 1;
    }

    // 2. transform the string into a pointer array, while keep
    // the lexicographical order unchanged
    let mut ty = false;
    let mut r = s[n - 1];
    proof {
        lemma_last_is_l(t);
        assert(t[n - 1] == r);
    }
    s[n - 1] = sa[r as usize];
    let mut p: usize = n - 1;
    while p > 0
        invariant
            p < n,
            n == s.len(),
            n == old(s).len(),
            n <= MAX_LENGTH,
            t == text_of(old(s)@),
            sa.len() == n + 1,
            k <= n,
            forall|i: int| 0 <= i < n ==> 0 <= #[trigger] t[i] < k,
            forall|d: int| 0 <= d <= k ==> #[trigger] sa@[d] == bucket_head(t, d),
            ty == is_s(t, p as int),
            r == t[p as int],
            forall|j: int| 0 <= j < p ==> s@[j] == old(s)@[j],
            forall|j: int| p <= j < n ==> #[trigger] s@[j] == ptr_of(t, j),
        decreases p,
    {
        p -= 1;
        let ch = s[p];
        assert(t[p as int] == ch);
        if ch < r {
            ty = true;
        } else if ch > r {
            ty = false;
        }
        r = ch;
        proof {
            lemma_bucket_not_empty(t, p as int, n as int);
            lemma_bucket_head_mono(t, ch as int, ch + 1);
        }
        if ty {
            // set s-type character to corresponding bucket tail pointer
            s[p] = sa[ch as usize + 1] - 1;
        } else {
            // set l-type character to corresponding bucket head pointer
            s[p] = sa[ch as usize];
        }
    }
    proof {
        assert(text_of(s@) =~= pointers(t)) by {
            assert forall|j: int| 0 <= j < n implies text_of(s@)[j] == pointers(t)[j] by {
                assert(s@[j] == ptr_of(t, j));
            }
        }
    }
}

/// Safely get the bucket head/tail pointer (i <= s.len()).
#[inline]
pub(crate) fn get_ptr(s: &[u32], i: usize) -> (p: usize)
    requires
        i <= s.len(),
    ensures
        p == (if i == s.len() { 0 } else { text_of(s@)[i as int] }),
{
    if i == s.len() {
        0
    } else {
        assert(text_of(s@)[i as int] == s@[i as int]);
        s[i] as usize
    }
}

/// Insert l-type characters in corresponding bucket head.
/// The cursor for suffix array scanning would be modified, when data chunk
/// containing the cursor is moved.
#[inline]
#[verifier::rlimit(100)]
#[verifier::spinoff_prover]
fn insert_head(
    s: &[u32],
    sa: &mut [u32],
    cursor: usize,
    i: usize,
    Ghost(b): Ghost<Seq<Span>>,
    Ghost(y): Ghost<Layout>,
) -> (r: (usize, Ghost<Layout>))
    requires
        rep_l(text_of(s@), b, old(sa)@, y),
        i < s.len(),
        !is_s(text_of(s@), i as int),
        y.pos[i as int] < 0,
        cursor <= s.len(),
    ensures
        final(sa).len() == old(sa).len(),
        rep_l(text_of(s@), push_front_spans(b, text_of(s@)[i as int]), final(sa)@, r.1@),
        r.1@.log == y.log.update(b[text_of(s@)[i as int]].i as int, i as u32),
        r.1@.pos == y.pos.update(i as int, b[text_of(s@)[i as int]].i as int),
        r.0 <= s.len(),
        y.cell[cursor as int] >= 0 ==> r.0 == r.1@.phys[y.cell[cursor as int]],
        y.cell[cursor as int] < 0 ==> r.0 == cursor,
{
    let ghost u = text_of(s@);
    let len = sa.len();
    let p = s[i] as usize;
    let ghost q = b[p as int].i as int;
    let ghost k = q - p;
    proof {
        lemma_rep_l(u, b, sa@, y);
        assert(u[i as int] == p);
        assert(l_at(u, p as int, i as int));
        lemma_l_bucket(u, b, p as int);
        assert(head_ok(u, b, sa@, y, p as int));
        crate::sais::state::lemma_place_front(u, b, y.log, y.pos, i as int);
        if k >= 1 {
            lemma_front_entry(u, b, sa@, y, p as int, p as int);
            lemma_cell(u, b, sa@, y, y.phys[p as int]);
        }
        lemma_cell(u, b, sa@, y, cursor as int);
        lemma_cell(u, b, sa@, y, p as int);
        if p + 1 <= s.len() {
            lemma_cell(u, b, sa@, y, p + 1);
        }
        if y.cell[cursor as int] >= 0 {
            let lp = y.cell[cursor as int];
            lemma_not_next(u, b, sa@, y, p as int, lp);
            if p <= lp < q {
                lemma_front_entry(u, b, sa@, y, p as int, lp);
            }
        }
        assert forall|z: int| p <= z < q implies #[trigger] y.log[z] < s.len() && sa@[y.phys[z]]
            == y.log[z] && y.phys[z] == z + if y.multi[p as int] { 2int } else { 0int } by {
            lemma_front_entry(u, b, sa@, y, p as int, z);
        }
    }

    if sa[p] == UNIQUE {
        // U => i
        proof {
            lemma_flat_put(u, b, sa@, y, i as int);
        }
        sa[p] = i as u32;
        (cursor, Ghost(flat_put(u, b, y, i as int)))
    } else if sa[p] == MULTI && sa[p + 1] == EMPTY {
        if p + 2 < len && sa[p + 2] == EMPTY {
            // M, E, E => M, 1, i
            proof {
                lemma_multi_put(u, b, sa@, y, i as int);
            }
            sa[p + 1] = 1;
            sa[p + 2] = i as u32;
            (cursor, Ghost(multi_put(u, b, y, i as int)))
        } else {
            // M, E <bound> => i, E
            proof {
                lemma_flat_put(u, b, sa@, y, i as int);
            }
            let ghost before = sa@;
            sa[p] = i as u32;
            sa[p + 1] = EMPTY;
            assert(sa@ =~= before.update(p as int, i as u32));
            (cursor, Ghost(flat_put(u, b, y, i as int)))
        }
    } else if sa[p] == MULTI && sa[p + 1] != EMPTY {
        let n = sa[p + 1] as usize;
        if p + n + 2 < len && sa[p + n + 2] == EMPTY {
            // M, n, indexes, E => M, n+1, indexes, i
            proof {
                lemma_multi_put(u, b, sa@, y, i as int);
            }
            sa[p + 1] += 1;
            sa[p + n + 2] = i as u32;
            (cursor, Ghost(multi_put(u, b, y, i as int)))
        } else {
            // M, n, indexes <bound> => indexes, i, E
            proof {
                lemma_flush_put(u, b, sa@, y, i as int);
                if p + 2 <= cursor < p + n + 2 {
                    lemma_front_entry(u, b, sa@, y, p as int, cursor - 2);
                }
            }
            let ghost before = sa@;
            assert(y.multi[p as int]);
            assert(n == k);
            proof {
                assert forall|z: int| p <= z < p + n implies before[z + 2] == #[trigger] y.log[z] by {
                    lemma_front_entry(u, b, before, y, p as int, z);
                }
            }
            move_block(sa, p, n, i as u32);
            assert(sa@ =~= flushed(before, y, p as int, n as int, i as u32));

            // move the cursor if needed
            let mut cursor = cursor;
            if cursor >= p + 2 && cursor < p + n + 2 {
                cursor -= 2;
            }
            (cursor, Ghost(flush_put(u, b, y, i as int)))
        }
    } else {
        // indexes, E => indexes, i
        proof {
            lemma_flat_put(u, b, sa@, y, i as int);
            lemma_flat_next_free(u, b, sa@, y, p as int);
            lemma_cell(u, b, sa@, y, q);
            assert forall|z: int| p <= z < q implies #[trigger] sa@[z] < s.len() && u[sa@[z] as int]
                == p by {
                lemma_front_entry(u, b, sa@, y, p as int, z);
            }
        }
        append_behind(s, sa, p, i as u32, Ghost(q));
        // do nothing if nowhere to insert
        (cursor, Ghost(flat_put(u, b, y, i as int)))
    }
}

/// M, n, indexes <bound> => indexes, i, E
fn move_block(sa: &mut [u32], p: usize, n: usize, i: u32)
    requires
        p + n + 2 <= old(sa).len(),
    ensures
        final(sa).len() == old(sa).len(),
        forall|x: int| p <= x < p + n ==> final(sa)@[x] == old(sa)@[x + 2],
        final(sa)@[p + n] == i,
        final(sa)@[p + n + 1] == EMPTY,
        forall|x: int|
            0 <= x < old(sa).len() && !(p <= x < p + n + 2) ==> final(sa)@[x] == old(sa)@[x],
{
    let mut m: usize = 0;
    while m < n
        invariant
            m <= n,
            p + n + 2 <= sa.len(),
            sa.len() == old(sa).len(),
            forall|x: int| p <= x < p + m ==> sa@[x] == old(sa)@[x + 2],
            forall|x: int| 0 <= x < sa.len() && !(p <= x < p + m) ==> sa@[x] == old(sa)@[x],
        decreases n - m,
    {
        sa[p + m] = sa[p + 2 + m];
        m += 1;
    }
    sa[p + n] = i;
    sa[p + n + 1] = EMPTY;
}

/// indexes, E => indexes, i
fn append_behind(s: &[u32], sa: &mut [u32], p: usize, i: u32, Ghost(q): Ghost<int>)
    requires
        old(sa).len() == s.len() + 1,
        s.len() < MIN_SYMBOL,
        p <= q < old(sa).len(),
        old(sa)@[q] == EMPTY,
        forall|z: int|
            p <= z < q ==> #[trigger] old(sa)@[z] < s.len() && text_of(s@)[old(sa)@[z] as int] == p,
    ensures
        final(sa)@ == old(sa)@.update(q, i),
{
    let len = sa.len();
    let mut x = p;
    loop
        invariant
            len == sa.len(),
            len == s.len() + 1,
            s.len() < MIN_SYMBOL,
            sa@ == old(sa)@,
            p <= x <= q,
            q < len,
            sa@[q] == EMPTY,
            forall|z: int|
                p <= z < q ==> #[trigger] sa@[z] < s.len() && text_of(s@)[sa@[z] as int] == p,
        ensures
            x == q,
        decreases q - x,
    {
        if x >= len || sa[x] >= MIN_SYMBOL {
            break ;
        }
        if get_ptr(s, sa[x] as usize) != p {
            break ;
        }
        x += 1;
    }
    if x < len && sa[x] == EMPTY {
        sa[x] = i;
    }
    // do nothing if nowhere to insert
}

/// Set UNIQUE/MULTI in bucket tails/heads.
#[inline]
#[verifier::rlimit(100)]
#[verifier::spinoff_prover]
fn prepare_typed(s: &[u32], sa: &mut [u32], t: bool)
    requires
        pointered(text_of(s@)),
        old(sa).len() == s.len() + 1,
        forall|p: int|
            1 <= p <= s.len() && (if t {
                has_s(text_of(s@), p)
            } else {
                has_l(text_of(s@), p)
            }) ==> old(sa)@[p] == EMPTY,
    ensures
        final(sa)@ == (if t {
            marked_s(text_of(s@), old(sa)@)
        } else {
            marked_l(text_of(s@), old(sa)@)
        }),
{
    let ghost u = text_of(s@);
    let n = s.len();
    let mut ty = false;
    let mut i: usize = n;
    proof {
        lemma_last_is_l(u);
        assert forall|p: int| 1 <= p <= n implies seen(u, p, n as int) == 0 by {}
    }
    while i > 0
        invariant
            u == text_of(s@),
            n == s.len(),
            pointered(u),
            sa.len() == n + 1,
            old(sa).len() == n + 1,
            i <= n,
            i < n ==> ty == is_s(u, i as int),
            i == n ==> !ty,
            forall|p: int|
                1 <= p <= n && (if t {
                    has_s(u, p)
                } else {
                    has_l(u, p)
                }) ==> #[trigger] sa@[p] == mark_of(u, p, i as int),
            forall|p: int|
                0 <= p <= n && !(if t {
                    has_s(u, p)
                } else {
                    has_l(u, p)
                }) ==> #[trigger] sa@[p] == old(sa)@[p],
        decreases i,
    {
        let ghost next_ty = ty;
        i -= 1;
        let c = s[i];
        assert(u[i as int] == c);
        if i + 1 < n {
            let r = s[i + 1];
            assert(u[i + 1] == r);
            assert(crate::sais::model::sym(u, i + 1) == r);
            assert(next_ty == is_s(u, i + 1));
            if c < r {
                ty = true;
            } else if c > r {
                ty = false;
            }
        }
        let p = c as usize;
        let ghost before = sa@;
        proof {
            lemma_last_is_l(u);
            assert(crate::sais::model::sym(u, i as int) == c);
            assert(ty == is_s(u, i as int));
            assert(if ty { s_at(u, p as int, i as int) } else { l_at(u, p as int, i as int) });
            lemma_count_below_bounds(u, p as int, i as int);
            lemma_count_below_bounds(u, p + 1, i as int);
            lemma_count_below_bounds(u, p as int, n as int);
            lemma_count_below_bounds(u, p + 1, n as int);
        }
        if ty == t {
            if sa[p] == EMPTY {
                sa[p] = UNIQUE;
            } else if sa[p] == UNIQUE {
                sa[p] = MULTI;
            }
        }
        proof {
            assert forall|d: int|
                1 <= d <= n && (if t {
                    has_s(u, d)
                } else {
                    has_l(u, d)
                }) implies #[trigger] sa@[d] == mark_of(u, d, i as int) by {
                assert(before[d] == mark_of(u, d, i + 1));
                crate::construct::llhsais::layout::lemma_seen(u, d, i as int);
                crate::construct::llhsais::layout::lemma_seen(u, d, i + 1);
                if d == p {
                    if ty != t {
                        // then no position with this symbol has the other type
                        if t {
                            let j = choose|j: int| #[trigger] s_at(u, d, j);
                            assert(s_at(u, d, j));
                            lemma_pure(u, i as int, j);
                        } else {
                            let j = choose|j: int| #[trigger] l_at(u, d, j);
                            assert(l_at(u, d, j));
                            lemma_pure(u, i as int, j);
                        }
                    }
                }
            }
            assert forall|d: int|
                0 <= d <= n && !(if t {
                    has_s(u, d)
                } else {
                    has_l(u, d)
                }) implies #[trigger] sa@[d] == old(sa)@[d] by {
                assert(before[d] == old(sa)@[d]);
            }
        }
    }
    proof {
        let marked = if t { marked_s(u, old(sa)@) } else { marked_l(u, old(sa)@) };
        assert forall|x: int| 0 <= x <= n implies sa@[x] == marked[x] by {
            if if t { has_s(u, x) } else { has_l(u, x) } {
                if t {
                    let j = choose|j: int| #[trigger] s_at(u, x, j);
                    assert(s_at(u, x, j));
                    lemma_bucket_not_empty(u, j, n as int);
                } else {
                    let j = choose|j: int| #[trigger] l_at(u, x, j);
                    assert(l_at(u, x, j));
                    lemma_bucket_not_empty(u, j, n as int);
                }
                assert(sa@[x] == mark_of(u, x, 0));
            }
        }
        assert(sa@ =~= marked);
    }
}

/// Clean up the remaining MULTIs in the bucket head.
#[inline]
#[verifier::rlimit(100)]
#[verifier::spinoff_prover]
fn finish_head(sa: &mut [u32], Ghost(u): Ghost<Seq<int>>, Ghost(b): Ghost<Seq<Span>>, Ghost(y): Ghost<Layout>)
    requires
        rep_l(u, b, old(sa)@, y),
        forall|p: int| has_l(u, p) ==> (#[trigger] b[p]).i > p,
    ensures
        final(sa).len() == old(sa).len(),
        flat(u, b, final(sa)@, y.pos),
        forall|x: int|
            0 <= x <= u.len() && y.log[x] <= u.len() && y.pos[#[trigger] y.log[x] as int] == x
                ==> final(sa)@[x] == y.log[x],
{
    // M, n, indexes => indexes, E, E
    let ghost given = y;
    let ghost mut y = y;
    let len = sa.len();
    proof {
        lemma_rep_l(u, b, sa@, y);
    }
    let mut p: usize = 0;
    while p < len
        invariant
            len == sa.len(),
            len == u.len() + 1,
            sa.len() == old(sa).len(),
            p <= len,
            rep_l(u, b, sa@, y),
            y.multi.len() == len,
            y.log == given.log,
            y.pos == given.pos,
            forall|q: int| has_l(u, q) ==> (#[trigger] b[q]).i > q,
            forall|q: int| 0 <= q < p ==> !#[trigger] y.multi[q],
        decreases len - p,
    {
        proof {
            lemma_cell(u, b, sa@, y, p as int);
            if y.multi[p as int] {
                lemma_settle(u, b, sa@, y, p as int);
            }
        }
        if sa[p] == MULTI {
            proof {
                lemma_rep_l(u, b, sa@, y);
                assert(head_ok(u, b, sa@, y, p as int));
                lemma_settle(u, b, sa@, y, p as int);
            }
            let n = sa[p + 1] as usize;
            let ghost before = sa@;
            proof {
                assert forall|z: int| p <= z < p + n implies before[z + 2] == #[trigger] y.log[z] by {
                    lemma_front_entry(u, b, before, y, p as int, z);
                }
            }
            settle_block(sa, p, n);
            proof {
                assert(sa@ =~= settled(before, y, p as int, n as int));
                y = settle(b, y, p as int);
                lemma_rep_l(u, b, sa@, y);
            }
        }
        p += 1;
    }
    proof {
        lemma_rep_flat(u, b, sa@, y);
    }
}

/// M, n, indexes => indexes, E, E
fn settle_block(sa: &mut [u32], p: usize, n: usize)
    requires
        p + n + 2 <= old(sa).len(),
    ensures
        final(sa).len() == old(sa).len(),
        forall|x: int| p <= x < p + n ==> final(sa)@[x] == old(sa)@[x + 2],
        final(sa)@[p + n] == EMPTY,
        final(sa)@[p + n + 1] == EMPTY,
        forall|x: int|
            0 <= x < old(sa).len() && !(p <= x < p + n + 2) ==> final(sa)@[x] == old(sa)@[x],
{
    let mut m: usize = 0;
    while m < n
        invariant
            m <= n,
            p + n + 2 <= sa.len(),
            sa.len() == old(sa).len(),
            forall|x: int| p <= x < p + m ==> sa@[x] == old(sa)@[x + 2],
            forall|x: int| 0 <= x < sa.len() && !(p <= x < p + m) ==> sa@[x] == old(sa)@[x],
        decreases n - m,
    {
        sa[p + m] = sa[p + 2 + m];
        m += 1;
    }
    sa[p + n] = EMPTY;
    sa[p + n + 1] = EMPTY;
}

/// Induce l-type characters by lms characters.
#[verifier::rlimit(100)]
#[verifier::spinoff_prover]
fn induce_l(
    s: &[u32],
    sa: &mut [u32],
    Ghost(by_suffix): Ghost<bool>,
    Ghost(b): Ghost<Seq<Span>>,
    Ghost(pos): Ghost<Seq<int>>,
) -> (r: Ghost<(Seq<Span>, Seq<int>)>)
    requires
        flat(text_of(s@), b, old(sa)@, pos),
        l_inv(text_of(s@), by_suffix, b, old(sa)@, pos, 0),
        forall|p: int| 0 <= p < b.len() ==> (#[trigger] b[p]).i == b[p].head,
    ensures
        final(sa).len() == old(sa).len(),
        flat(text_of(s@), r@.0, final(sa)@, r@.1),
        l_inv(text_of(s@), by_suffix, r@.0, final(sa)@, r@.1, s.len() + 1),
{
    let ghost u = text_of(s@);
    let n = s.len();
    let len = sa.len();
    let ghost mut b = b;
    let ghost mut y = start_l(u, sa@, pos);
    let ghost mut xlog: int = 0;
    proof {
        lemma_start_l(u, b, sa@, pos);
        assert forall|p: int| 1 <= p <= n && has_l(u, p) implies sa@[p] == EMPTY by {
            crate::construct::llhsais::layout::lemma_l_bucket(u, b, p);
            crate::construct::llhsais::layout::lemma_l_bucket_back(u, b, sa@, pos, p);
            assert(crate::construct::sacak::scan::in_gap(b, p, p));
        }
    }
    prepare_typed(s, sa, false);
    proof {
        lemma_rep_l(u, b, sa@, y);
        lemma_cell(u, b, sa@, y, 0);
    }
    let mut p: usize = 0;
    while p < len
        invariant
            u == text_of(s@),
            n == s.len(),
            len == n + 1,
            sa.len() == len,
            rep_l(u, b, sa@, y),
            l_inv(u, by_suffix, b, y.log, y.pos, xlog),
            scanned_l(y, xlog, p as int),
            0 <= xlog <= n + 1,
            p < len ==> y.cell[p as int] != counter(),
        decreases n + 1 - xlog, len - p,
    {
        proof {
            lemma_rep_l(u, b, sa@, y);
            lemma_cell(u, b, sa@, y, p as int);
            if p + 1 < len {
                lemma_cell(u, b, sa@, y, p + 1);
            }
            if p + 2 < len {
                lemma_cell(u, b, sa@, y, p + 2);
            }
        }
        if sa[p] == MULTI {
            // skip MULTI symbol and counter
            proof {
                lemma_scan_over(u, b, sa@, y, xlog, p as int, 2);
            }
            p += 2;
            continue ;
        } else if sa[p] != EMPTY && sa[p] != UNIQUE {
            let i = sa[p] as usize;
            proof {
                lemma_scan_at(u, by_suffix, b, sa@, y, xlog, p as int);
                xlog = y.cell[p as int];
                if 0 < i < n {
                    assert(u[i - 1] == s@[i - 1] && u[i as int] == s@[i as int]);
                }
            }
            if i == n || (i > 0 && s[i - 1] >= s[i]) {
                proof {
                    lemma_push_l(u, by_suffix, b, y.log, y.pos, xlog, i - 1);
                }
                let ghost lp = y.cell[p as int];
                let (cursor, next) = insert_head(s, sa, p, i - 1, Ghost(b), Ghost(y));
                p = cursor;
                proof {
                    b = push_front_spans(b, u[i - 1]);
                    y = next@;
                    lemma_rep_l(u, b, sa@, y);
                    // the scan stands at the suffix that it met
                    assert(y.pos[i as int] == lp);
                    crate::construct::llhsais::layout::lemma_at(u, b, sa@, y, i as int);
                }
            } else {
                proof {
                    assert forall|v: int|
                        1 <= v <= n && xlog <= #[trigger] y.pos[v] < xlog + 1 implies is_s(
                        u,
                        v - 1,
                    ) || y.pos[v - 1] >= 0 by {
                        crate::construct::llhsais::layout::lemma_at(u, b, sa@, y, v);
                        crate::construct::llhsais::layout::lemma_at(u, b, sa@, y, i as int);
                    }
                    crate::sais::induce::lemma_advance_l(
                        u,
                        by_suffix,
                        b,
                        y.log,
                        y.pos,
                        xlog,
                        xlog + 1,
                    );
                }
            }
            proof {
                lemma_scan_next(u, b, sa@, y, p as int);
                xlog = xlog + 1;
            }
        } else {
            proof {
                lemma_scan_over(u, b, sa@, y, xlog, p as int, 1);
                if p + 1 < len && y.cell[p + 1] == counter() {
                }
            }
        }
        p += 1;
    }
    proof {
        lemma_scan_end(u, by_suffix, b, sa@, y, xlog, p as int);
        assert forall|q: int| has_l(u, q) implies (#[trigger] b[q]).i > q by {
            lemma_l_full(u, by_suffix, b, y.log, y.pos, q);
            crate::construct::llhsais::layout::lemma_l_bucket(u, b, q);
        }
    }
    finish_head(sa, Ghost(u), Ghost(b), Ghost(y));
    proof {
        crate::construct::llhsais::layout::lemma_l_inv_frame(u, by_suffix, b, y.log, sa@, y.pos, n + 1);
    }
    Ghost((b, y.pos))
}

/// Insert s-type characters in corresponding bucket tail.
/// Invalid insertion would be ignored (assuming that the bucket head of l-type
/// characters is not in working state).
/// The cursor for suffix array scanning would be modified, when data chunk
/// containing the cursor is moved.
#[inline]
#[verifier::rlimit(100)]
#[verifier::spinoff_prover]
pub(crate) fn insert_tail(
    s: &[u32],
    sa: &mut [u32],
    cursor: usize,
    i: usize,
    Ghost(lms): Ghost<bool>,
    Ghost(b): Ghost<Seq<Span>>,
    Ghost(y): Ghost<Layout>,
) -> (r: (usize, Ghost<Layout>))
    requires
        rep_s(text_of(s@), lms, b, old(sa)@, y),
        old(sa)@[0] != EMPTY,
        i < s.len(),
        cursor <= s.len(),
        is_s(text_of(s@), i as int) ==> tail_at(
            text_of(s@),
            lms,
            text_of(s@)[i as int],
            i as int,
        ) && y.pos[i as int] < 0,
        !is_s(text_of(s@), i as int) ==> !lms && fronts_full(text_of(s@), b),
    ensures
        final(sa).len() == old(sa).len(),
        final(sa)@[0] == old(sa)@[0],
        r.0 <= s.len(),
        is_s(text_of(s@), i as int) ==> {
            &&& rep_s(
                text_of(s@),
                lms,
                push_back_spans(b, text_of(s@)[i as int]),
                final(sa)@,
                r.1@,
            )
            &&& r.1@.log == y.log.update(b[text_of(s@)[i as int]].j - 1, i as u32)
            &&& r.1@.pos == y.pos.update(i as int, b[text_of(s@)[i as int]].j - 1)
            &&& y.cell[cursor as int] >= 0 ==> r.0 == r.1@.phys[y.cell[cursor as int]]
            &&& y.cell[cursor as int] < 0 ==> r.0 == cursor
        },
        !is_s(text_of(s@), i as int) ==> final(sa)@ == old(sa)@ && r.1@ == y && r.0 == cursor,
{
    let ghost u = text_of(s@);
    let len = sa.len();
    let p = s[i] as usize;
    let ghost q = b[p as int].j - 1;
    let ghost k = p - q;
    let ghost valid = is_s(u, i as int);
    proof {
        lemma_rep_s(u, lms, b, sa@, y);
        assert(u[i as int] == p);
        if valid {
            lemma_s_bucket(u, lms, b, p as int);
            assert(tail_ok(u, lms, b, sa@, y, p as int));
            crate::sais::state::lemma_place_back(u, b, y.log, y.pos, i as int);
            if k >= 1 {
                lemma_back_entry(u, lms, b, sa@, y, p as int, p as int);
                lemma_cell_s(u, lms, b, sa@, y, y.phys[p as int]);
            }
            lemma_cell_s(u, lms, b, sa@, y, p as int);
            if p >= 2 {
                lemma_cell_s(u, lms, b, sa@, y, p - 1);
            }
            if y.cell[cursor as int] >= 0 {
                lemma_cursor_s(u, lms, b, sa@, y, p as int, cursor as int);
            }
            assert forall|z: int| q < z <= p implies #[trigger] y.log[z] < s.len() && sa@[y.phys[z]]
                == y.log[z] && y.phys[z] == z - if y.multi[p as int] { 2int } else { 0int } by {
                lemma_back_entry(u, lms, b, sa@, y, p as int, z);
            }
        } else {
            lemma_not_written(u, b, sa@, y, i as int);
        }
    }

    if sa[p] == UNIQUE {
        // U => i
        proof {
            lemma_flat_put_s(u, lms, b, sa@, y, i as int);
        }
        sa[p] = i as u32;
        (cursor, Ghost(flat_put_s(u, b, y, i as int)))
    } else if sa[p] == MULTI && sa[p - 1] == EMPTY {
        if p >= 2 && sa[p - 2] == EMPTY {
            // E, E, M => i, 1, M
            proof {
                lemma_multi_put_s(u, lms, b, sa@, y, i as int);
            }
            sa[p - 1] = 1;
            sa[p - 2] = i as u32;
            (cursor, Ghost(multi_put_s(u, b, y, i as int)))
        } else {
            // <bound> E, M => E, i
            proof {
                lemma_flat_put_s(u, lms, b, sa@, y, i as int);
            }
            let ghost before = sa@;
            sa[p] = i as u32;
            sa[p - 1] = EMPTY;
            assert(sa@ =~= before.update(p as int, i as u32));
            (cursor, Ghost(flat_put_s(u, b, y, i as int)))
        }
    } else if sa[p] == MULTI && sa[p - 1] != EMPTY {
        let n = sa[p - 1] as usize;
        if p >= n + 2 && sa[p - n - 2] == EMPTY {
            // E, indexes, n, M => i, indexes, n+1, M
            proof {
                lemma_multi_put_s(u, lms, b, sa@, y, i as int);
            }
            sa[p - 1] += 1;
            sa[p - n - 2] = i as u32;
            (cursor, Ghost(multi_put_s(u, b, y, i as int)))
        } else {
            // <bound> indexes, n, M => E, i, indexes
            proof {
                lemma_flush_put_s(u, lms, b, sa@, y, i as int);
            }
            let ghost before = sa@;
            assert(y.multi[p as int]);
            assert(n == k);
            proof {
                assert forall|z: int| p - n < z <= p implies before[z - 2] == #[trigger] y.log[z] by {
                    lemma_back_entry(u, lms, b, before, y, p as int, z);
                }
            }
            move_block_back(sa, p, n, i as u32);
            assert(sa@ =~= flushed_s(before, y, p as int, n as int, i as u32));

            // move the cursor if needed
            let mut moved = cursor;
            if cursor <= p - 2 && cursor > p - n - 2 {
                moved += 2;
            }
            proof {
                let y2 = flush_put_s(u, b, y, i as int);
                if q - 1 <= cursor <= p - 2 {
                    lemma_back_entry(u, lms, b, before, y, p as int, cursor + 2);
                }
                if y.cell[cursor as int] >= 0 {
                    let lp = y.cell[cursor as int];
                    assert(y.phys[lp] == cursor);
                    if q < lp <= p {
                        assert(y2.phys[lp] == lp);
                    } else {
                        assert(y2.phys[lp] == y.phys[lp]);
                    }
                }
            }
            (moved, Ghost(flush_put_s(u, b, y, i as int)))
        }
    } else if sa[p] != EMPTY {
        // E, indexes => i, indexes
        proof {
            if valid {
                lemma_flat_put_s(u, lms, b, sa@, y, i as int);
                lemma_flat_prev_free(u, lms, b, sa@, y, p as int);
                lemma_cell_s(u, lms, b, sa@, y, q);
                assert forall|z: int| q < z <= p implies #[trigger] sa@[z] < s.len() && u[sa@[z] as int]
                    == p by {
                    lemma_back_entry(u, lms, b, sa@, y, p as int, z);
                }
            }
        }
        append_before(s, sa, p, i as u32, Ghost(if valid { q } else { p - 1 }));
        // do nothing if nowhere to insert
        (cursor, Ghost(if valid { flat_put_s(u, b, y, i as int) } else { y }))
    } else {
        (cursor, Ghost(y))
    }
}

/// <bound> indexes, n, M => E, i, indexes
fn move_block_back(sa: &mut [u32], p: usize, n: usize, i: u32)
    requires
        p < old(sa).len(),
        n + 1 <= p,
    ensures
        final(sa).len() == old(sa).len(),
        forall|x: int| p - n < x <= p ==> final(sa)@[x] == old(sa)@[x - 2],
        final(sa)@[p - n] == i,
        final(sa)@[p - n - 1] == EMPTY,
        forall|x: int|
            0 <= x < old(sa).len() && !(p - n - 1 <= x <= p) ==> final(sa)@[x] == old(sa)@[x],
{
    let mut m: usize = 0;
    while m < n
        invariant
            m <= n,
            n + 1 <= p < sa.len(),
            sa.len() == old(sa).len(),
            forall|x: int| p - m < x <= p ==> sa@[x] == old(sa)@[x - 2],
            forall|x: int| 0 <= x < sa.len() && !(p - m < x <= p) ==> sa@[x] == old(sa)@[x],
        decreases n - m,
    {
        sa[p - m] = sa[p - m - 2];
        m += 1;
    }
    sa[p - n] = i;
    sa[p - n - 1] = EMPTY;
}

/// E, indexes => i, indexes
fn append_before(s: &[u32], sa: &mut [u32], p: usize, i: u32, Ghost(q): Ghost<int>)
    requires
        old(sa).len() == s.len() + 1,
        s.len() < MIN_SYMBOL,
        0 <= q < p < old(sa).len(),
        forall|z: int|
            q < z <= p ==> #[trigger] old(sa)@[z] < s.len() && text_of(s@)[old(sa)@[z] as int] == p,
        q == 0 || old(sa)@[q] >= MIN_SYMBOL || (old(sa)@[q] < s.len() && text_of(s@)[old(sa)@[q] as int]
            != p),
    ensures
        final(sa)@ == (if q > 0 && old(sa)@[q] == EMPTY {
            old(sa)@.update(q, i)
        } else {
            old(sa)@
        }),
{
    let mut x = p;
    loop
        invariant
            sa.len() == s.len() + 1,
            s.len() < MIN_SYMBOL,
            sa@ == old(sa)@,
            q <= x <= p,
            0 <= q < p < sa.len(),
            forall|z: int|
                q < z <= p ==> #[trigger] sa@[z] < s.len() && text_of(s@)[sa@[z] as int] == p,
            q == 0 || sa@[q] >= MIN_SYMBOL || (sa@[q] < s.len() && text_of(s@)[sa@[q] as int] != p),
        ensures
            x == q,
        decreases x - q,
    {
        if x == 0 || sa[x] >= MIN_SYMBOL {
            break ;
        }
        if get_ptr(s, sa[x] as usize) != p {
            break ;
        }
        x -= 1;
    }
    if x > 0 && sa[x] == EMPTY {
        sa[x] = i;
    }
}

/// Clean up the remaining MULTIs in the bucket tail.
#[inline]
#[verifier::rlimit(100)]
#[verifier::spinoff_prover]
pub(crate) fn finish_tail(
    sa: &mut [u32],
    Ghost(u): Ghost<Seq<int>>,
    Ghost(lms): Ghost<bool>,
    Ghost(b): Ghost<Seq<Span>>,
    Ghost(y): Ghost<Layout>,
)
    requires
        rep_s(u, lms, b, old(sa)@, y),
        old(sa)@[0] == u.len(),
        forall|p: int| has_tail(u, lms, p) ==> (#[trigger] b[p]).j <= p,
    ensures
        final(sa).len() == old(sa).len(),
        flat(u, b, final(sa)@, y.pos),
        forall|x: int|
            0 <= x <= u.len() && y.log[x] <= u.len() && y.pos[#[trigger] y.log[x] as int] == x
                ==> final(sa)@[x] == y.log[x],
{
    // indexes, n, M => E, E, indexes
    let ghost given = y;
    let ghost mut y = y;
    let len = sa.len();
    proof {
        lemma_rep_s(u, lms, b, sa@, y);
    }
    let mut p: usize = len;
    while p > 0
        invariant
            len == sa.len(),
            len == u.len() + 1,
            sa.len() == old(sa).len(),
            p <= len,
            rep_s(u, lms, b, sa@, y),
            sa@[0] == u.len(),
            y.multi.len() == len,
            y.log == given.log,
            y.pos == given.pos,
            forall|q: int| has_tail(u, lms, q) ==> (#[trigger] b[q]).j <= q,
            forall|q: int| p <= q < len ==> !#[trigger] y.multi[q],
        decreases p,
    {
        p -= 1;
        proof {
            lemma_rep_s(u, lms, b, sa@, y);
            if p >= 1 {
                lemma_cell_s(u, lms, b, sa@, y, p as int);
            }
            if y.multi[p as int] {
                lemma_settle_s(u, lms, b, sa@, y, p as int);
            }
        }
        if sa[p] == MULTI {
            proof {
                assert(tail_ok(u, lms, b, sa@, y, p as int));
                lemma_settle_s(u, lms, b, sa@, y, p as int);
            }
            let n = sa[p - 1] as usize;
            let ghost before = sa@;
            proof {
                assert forall|z: int| p - n < z <= p implies before[z - 2] == #[trigger] y.log[z] by {
                    lemma_back_entry(u, lms, b, before, y, p as int, z);
                }
            }
            settle_block_back(sa, p, n);
            proof {
                assert(sa@ =~= settled_s(before, y, p as int, n as int));
                y = settle_s(b, y, p as int);
                lemma_rep_s(u, lms, b, sa@, y);
            }
        }
    }
    proof {
        lemma_rep_flat_s(u, lms, b, sa@, y);
    }
}

/// indexes, n, M => E, E, indexes
fn settle_block_back(sa: &mut [u32], p: usize, n: usize)
    requires
        p < old(sa).len(),
        n + 2 <= p,
    ensures
        final(sa).len() == old(sa).len(),
        final(sa)@[0] == old(sa)@[0],
        forall|x: int| p - n < x <= p ==> final(sa)@[x] == old(sa)@[x - 2],
        final(sa)@[p - n] == EMPTY,
        final(sa)@[p - n - 1] == EMPTY,
        forall|x: int|
            0 <= x < old(sa).len() && !(p - n - 1 <= x <= p) ==> final(sa)@[x] == old(sa)@[x],
{
    let mut m: usize = 0;
    while m < n
        invariant
            m <= n,
            n + 2 <= p < sa.len(),
            sa.len() == old(sa).len(),
            forall|x: int| p - m < x <= p ==> sa@[x] == old(sa)@[x - 2],
            forall|x: int| 0 <= x < sa.len() && !(p - m < x <= p) ==> sa@[x] == old(sa)@[x],
        decreases n - m,
    {
        sa[p - m] = sa[p - m - 2];
        m += 1;
    }
    sa[p - n] = EMPTY;
    sa[p - n - 1] = EMPTY;
}

/// Induce s-type characters by l-type characters.
#[verifier::rlimit(100)]
#[verifier::spinoff_prover]
fn induce_s(
    s: &[u32],
    sa: &mut [u32],
    Ghost(by_suffix): Ghost<bool>,
    Ghost(b): Ghost<Seq<Span>>,
    Ghost(pos): Ghost<Seq<int>>,
) -> (r: Ghost<(Seq<Span>, Seq<int>)>)
    requires
        flat(text_of(s@), b, old(sa)@, pos),
        s_inv(text_of(s@), by_suffix, b, old(sa)@, pos, s.len() + 1),
        fronts_full(text_of(s@), b),
        forall|p: int| 0 <= p < b.len() ==> (#[trigger] b[p]).j == b[p].tail,
    ensures
        final(sa).len() == old(sa).len(),
        flat(text_of(s@), r@.0, final(sa)@, r@.1),
        s_inv(text_of(s@), by_suffix, r@.0, final(sa)@, r@.1, 1),
{
    let ghost u = text_of(s@);
    let n = s.len();
    let len = sa.len();
    let ghost mut b = b;
    let ghost mut y = start_s(u, false, sa@, pos);
    let ghost mut xlog: int = n + 1;
    proof {
        lemma_start_s(u, false, b, sa@, pos);
        lemma_marked_s(u, sa@);
        assert forall|p: int|
            1 <= p <= n && crate::construct::llhsais::layout::has_s(u, p) implies sa@[p]
            == EMPTY by {
            lemma_s_bucket(u, false, b, p);
            crate::construct::llhsais::layout_s::lemma_s_bucket_front(u, false, b, sa@, pos, p);
            assert(crate::construct::sacak::scan::in_gap(b, p, p));
        }
    }
    prepare_typed(s, sa, true);
    proof {
        lemma_rep_s(u, false, b, sa@, y);
        assert(sa@[0] == n) by {
            if has_tail(u, false, 0) {
                lemma_s_bucket(u, false, b, 0);
            }
        }
    }
    let mut p: usize = len - 1;
    while p > 0
        invariant
            u == text_of(s@),
            n == s.len(),
            len == n + 1,
            sa.len() == len,
            p < len,
            sa@[0] == n,
            rep_s(u, false, b, sa@, y),
            s_inv(u, by_suffix, b, y.log, y.pos, xlog),
            fronts_full(u, b),
            scanned_s(y, xlog, p as int),
            1 <= xlog <= n + 1,
            p >= 1 ==> y.cell[p as int] != counter(),
        decreases xlog, p,
    {
        proof {
            lemma_rep_s(u, false, b, sa@, y);
            lemma_cell_s(u, false, b, sa@, y, p as int);
            if p >= 2 {
                lemma_cell_s(u, false, b, sa@, y, p - 1);
            }
            if p >= 3 {
                lemma_cell_s(u, false, b, sa@, y, p - 2);
            }
        }
        if sa[p] == MULTI {
            proof {
                lemma_scan_over_s(u, false, b, sa@, y, xlog, p as int, 2);
            }
            p -= 2;
            continue ;
        } else if sa[p] != EMPTY && sa[p] != UNIQUE {
            let i = sa[p] as usize;
            proof {
                lemma_scan_at_s(u, by_suffix, b, sa@, y, xlog, p as int);
                xlog = y.cell[p as int] + 1;
                if 0 < i {
                    assert(u[i - 1] == s@[i - 1] && u[i as int] == s@[i as int]);
                }
            }
            if i > 0 && get_ptr(s, i - 1) <= get_ptr(s, i) {
                let ghost lp = y.cell[p as int];
                let ghost valid = is_s(u, i - 1);
                proof {
                    if valid {
                        lemma_push_s(u, by_suffix, b, y.log, y.pos, xlog, i - 1);
                        assert(tail_at(u, false, u[i - 1], i - 1));
                    }
                }
                let (cursor, next) = insert_tail(
                    s,
                    sa,
                    p,
                    i - 1,
                    Ghost(false),
                    Ghost(b),
                    Ghost(y),
                );
                p = cursor;
                proof {
                    if valid {
                        assert forall|q: int| has_l(u, q) implies (#[trigger] push_back_spans(
                            b,
                            u[i - 1],
                        )[q]).i == q + size(u, q) by {
                            assert(b[q].i == q + size(u, q));
                        }
                        b = push_back_spans(b, u[i - 1]);
                        y = next@;
                        lemma_rep_s(u, false, b, sa@, y);
                        assert(y.pos[i as int] == lp);
                        lemma_at_s(u, false, b, sa@, y, i as int);
                    } else {
                        lemma_at_s(u, false, b, sa@, y, i as int);
                        assert forall|v: int|
                            1 <= v < n && xlog - 1 <= #[trigger] y.pos[v] < xlog implies !is_s(
                            u,
                            v - 1,
                        ) || y.pos[v - 1] >= 0 by {
                            lemma_at_s(u, false, b, sa@, y, v);
                        }
                        crate::sais::induce::lemma_advance_s(
                            u,
                            by_suffix,
                            b,
                            y.log,
                            y.pos,
                            xlog,
                            xlog - 1,
                        );
                    }
                }
            } else {
                proof {
                    lemma_at_s(u, false, b, sa@, y, i as int);
                    assert forall|v: int|
                        1 <= v < n && xlog - 1 <= #[trigger] y.pos[v] < xlog implies !is_s(
                        u,
                        v - 1,
                    ) || y.pos[v - 1] >= 0 by {
                        lemma_at_s(u, false, b, sa@, y, v);
                    }
                    crate::sais::induce::lemma_advance_s(
                        u,
                        by_suffix,
                        b,
                        y.log,
                        y.pos,
                        xlog,
                        xlog - 1,
                    );
                }
            }
            proof {
                lemma_scan_next_s(u, false, b, sa@, y, p as int);
                xlog = xlog - 1;
            }
        } else {
            proof {
                lemma_scan_over_s(u, false, b, sa@, y, xlog, p as int, 1);
            }
        }
        p -= 1;
    }
    proof {
        lemma_scan_end_s(u, by_suffix, b, sa@, y, xlog);
        assert forall|q: int| has_tail(u, false, q) implies (#[trigger] b[q]).j <= q by {
            lemma_rep_s(u, false, b, sa@, y);
            assert forall|v: int| 0 <= v < u.len() && tail_at(u, false, u[v], v) implies #[trigger] y.pos[v]
                >= 0 by {
                crate::sais::induce::lemma_s_present(u, by_suffix, b, y.log, y.pos, v);
            }
            lemma_tail_taken(u, false, b, y.log, y.pos, q);
        }
    }
    finish_tail(sa, Ghost(u), Ghost(false), Ghost(b), Ghost(y));
    proof {
        crate::construct::llhsais::layout_s::lemma_s_inv_frame(u, by_suffix, b, y.log, sa@, y.pos, 1);
    }
    Ghost((b, y.pos))
}

/// Induce the entire suffix array by sorted lms suffixes.
/// Or induce the order of lms substrings by the sorted lms characters.
fn induce_by_lms(
    s: &[u32],
    sa: &mut [u32],
    Ghost(by_suffix): Ghost<bool>,
    Ghost(b): Ghost<Seq<Span>>,
    Ghost(pos): Ghost<Seq<int>>,
) -> (r: Ghost<(Seq<Span>, Seq<int>)>)
    requires
        flat(text_of(s@), b, old(sa)@, pos),
        l_inv(text_of(s@), by_suffix, b, old(sa)@, pos, 0),
        forall|p: int| 0 <= p < b.len() ==> (#[trigger] b[p]).i == b[p].head,
    ensures
        final(sa).len() == old(sa).len(),
        flat(text_of(s@), r@.0, final(sa)@, r@.1),
        s_inv(text_of(s@), by_suffix, r@.0, final(sa)@, r@.1, 1),
{
    let ghost u = text_of(s@);
    // 1. induce l-type characters by lms characters
    let filled = induce_l(s, sa, Ghost(by_suffix), Ghost(b), Ghost(pos));
    let ghost mid = sa@;

    // 2. clear lms characters, except the sentinel
    clear_lms(s, sa, Ghost(by_suffix), Ghost(filled@.0), Ghost(filled@.1));
    proof {
        assert forall|q: int| has_l(u, q) implies (#[trigger] reset_back_spans(filled@.0)[q]).i == q
            + size(u, q) by {
            crate::construct::llhsais::layout::lemma_l_full(
                u,
                by_suffix,
                filled@.0,
                mid,
                filled@.1,
                q,
            );
            crate::construct::llhsais::layout::lemma_l_bucket(u, filled@.0, q);
        }
    }

    // 3. symmetrically induce s-type characters by l-type characters
    induce_s(
        s,
        sa,
        Ghost(by_suffix),
        Ghost(reset_back_spans(filled@.0)),
        Ghost(drop_s(u, filled@.1)),
    )
}

/// Clear all the lms characters in bucket tail, keep the sentinel untouched.
#[inline]
#[verifier::rlimit(100)]
#[verifier::spinoff_prover]
fn clear_lms(
    s: &[u32],
    sa: &mut [u32],
    Ghost(by_suffix): Ghost<bool>,
    Ghost(b): Ghost<Seq<Span>>,
    Ghost(pos): Ghost<Seq<int>>,
)
    requires
        flat(text_of(s@), b, old(sa)@, pos),
        l_inv(text_of(s@), by_suffix, b, old(sa)@, pos, s.len() + 1),
    ensures
        final(sa).len() == old(sa).len(),
        flat(text_of(s@), reset_back_spans(b), final(sa)@, drop_s(text_of(s@), pos)),
        s_inv(
            text_of(s@),
            by_suffix,
            reset_back_spans(b),
            final(sa)@,
            drop_s(text_of(s@), pos),
            s.len() + 1,
        ),
{
    let ghost u = text_of(s@);
    let ghost given = sa@;
    let n = s.len();
    let len = sa.len();
    proof {
        assert(filled_l(u, by_suffix, b, given, pos)) by {
            reveal(filled_l);
        }
        crate::construct::llhsais::layout::lemma_flat_len(u, b, given, pos);
    }

    // mark and count lms characters
    let mut scan = for_each_lms(s, false);
    proof {
        lemma_last_is_l(u);
        assert forall|x: int| 0 <= x <= n implies sa@[x] == counted(u, given, n - 1, x) by {
            lemma_counted_start(u, given, x);
            lemma_counted_gap(u, given, n - 1, n as int, x);
        }
    }
    loop
        invariant
            u == text_of(s@),
            n == s.len(),
            len == n + 1,
            sa.len() == len,
            given.len() == len,
            filled_l(u, by_suffix, b, given, pos),
            n >= 1,
            scan.wf(u),
            0 <= scan.bound(n as int) <= n,
            forall|x: int|
                0 <= x <= n ==> #[trigger] sa@[x] == counted(u, given, scan.bound(n as int), x),
        ensures
            sa.len() == len,
            forall|x: int| 0 <= x <= n ==> #[trigger] sa@[x] == counted(u, given, 0, x),
        decreases scan.bound(n as int),
    {
        let ghost before = scan.bound(n as int);
        let ghost held = sa@;
        match scan.next(s) {
            Some((i, c)) => {
                let p = c as usize;
                proof {
                    lemma_count_put(
                        u,
                        by_suffix,
                        b,
                        given,
                        pos,
                        i as int,
                        before,
                        scan.bound(n as int),
                        held,
                    );
                }
                if sa[p] == UNIQUE {
                    sa[p] = MULTI;
                    sa[p - 1] = 2;
                } else if sa[p] == MULTI {
                    sa[p - 1] += 1;
                } else {
                    sa[p] = UNIQUE;
                }
                assert(sa@ == count_put(held, p as int));
            },
            None => {
                proof {
                    assert forall|x: int| 0 <= x <= n implies #[trigger] sa@[x] == counted(
                        u,
                        given,
                        0,
                        x,
                    ) by {
                        if before >= 1 {
                            lemma_counted_gap(u, given, 1, before, x);
                        }
                        crate::construct::llhsais::clearing::lemma_counted_zero(u, given, x);
                    }
                }
                break ;
            },
        }
    }

    // fill EMPTY
    proof {
        assert forall|x: int| 0 <= x <= n implies #[trigger] sa@[x] == emptied(
            u,
            b,
            given,
            n as int,
            x,
        ) by {
            crate::construct::llhsais::clearing::lemma_emptied_start(u, by_suffix, b, given, pos, x);
        }
    }
    let mut p: usize = len - 1;
    while p > 0
        invariant
            u == text_of(s@),
            n == s.len(),
            len == n + 1,
            sa.len() == len,
            given.len() == len,
            p <= n,
            filled_l(u, by_suffix, b, given, pos),
            forall|x: int| 0 <= x <= n ==> #[trigger] sa@[x] == emptied(u, b, given, p as int, x),
        decreases p,
    {
        let ghost held = sa@;
        proof {
            lemma_emptied_step(u, by_suffix, b, given, pos, p as int, p as int);
            lemma_emptied_step(u, by_suffix, b, given, pos, p as int, p - 1);
            assert(held[p as int] == emptied(u, b, given, p as int, p as int));
            assert(held[p - 1] == emptied(u, b, given, p as int, p - 1));
        }
        if sa[p] == UNIQUE {
            sa[p] = EMPTY;
        } else if sa[p] == MULTI {
            let k = sa[p - 1] as usize;
            let mut x: usize = p + 1 - k;
            while x < p + 1
                invariant
                    p + 1 - k <= x <= p + 1,
                    1 <= k <= p,
                    p < sa.len(),
                    sa.len() == len,
                    forall|z: int| 0 <= z < len && !(p + 1 - k <= z < x) ==> sa@[z] == held[z],
                    forall|z: int| p + 1 - k <= z < x ==> sa@[z] == EMPTY,
                decreases p + 1 - x,
            {
                sa[x] = EMPTY;
                x += 1;
            }
        }
        proof {
            assert forall|x: int| 0 <= x <= n implies #[trigger] sa@[x] == emptied(
                u,
                b,
                given,
                p - 1,
                x,
            ) by {
                lemma_emptied_step(u, by_suffix, b, given, pos, p as int, x);
                assert(held[x] == emptied(u, b, given, p as int, x));
            }
        }
        p -= 1;
    }
    proof {
        lemma_emptied_all(u, by_suffix, b, given, pos, sa@);
    }
}

} // verus!
