//! O(n) time and O(1) space SAIS algorithm for read-only byte string,
//! as described in the recursion level 0 of [Ge Nong. 2013.
//! Practical linear-time O(1)-workspace suffix sorting for constant
//! alphabets.](https://dl.acm.org/citation.cfm?doid=2493175.2493180).
use vstd::prelude::*;
use crate::construct::sacak::bucket::{lemma_in_back_below, Bucket};
use crate::construct::sacak::scan::{
    cleared, in_gap, lemma_cleared_back, lemma_cleared_front, lemma_s_frame, lemma_scan_l,
    lemma_scan_s,
};
use crate::construct::sacak::EMPTY;
use crate::construct::utils::{for_each_lms, suffixes_from_substrs, text_of, SubSorter};
use crate::order::{is_suffix_array, occurs_in, suf_lt};
use crate::construct::sacak::scan::lemma_full;
use crate::sais::induce::{lemma_seeded, lemma_seeds_ordered, ordered};
use crate::sais::model::{is_lms, is_s, le, lemma_last_is_l};
use crate::sais::naming::{
    collected, lemma_collect_done, lemma_collect_skip, lemma_collect_skip_range,
    lemma_collect_take, lemma_sorted_first, lemma_sorted_room, lms_listed, lms_sorted,
    sorted_by_substring,
};
use crate::sais::reduce::{lemma_lms_density, lms_count};
use crate::sais::state::{in_front, lemma_place_back, placed};
use crate::sais::induce::{
    drop_s, l_inv, lemma_induced, lemma_l_to_s, lemma_push_l, lemma_push_s, reset_back_spans,
    s_inv,
};
use crate::sais::model::{bucket_head, lemma_bucket_head_mono};
use crate::sais::state::{in_back, occupied};

verus! {

/// Maximum length of the input string.
pub const MAX_LENGTH: usize = 0xffff_fffc;

/// O(n) time and O(1) space SAIS algorithm for read-only byte string.
/// The names of the lms substrings are sorted by `S`.
pub fn sacak0<S: SubSorter>(s: &[u8], sa: &mut [u32])
    requires
        s.len() <= MAX_LENGTH,
        s.len() + 1 == old(sa).len(),
    ensures
        is_suffix_array(text_of(s@), final(sa)@),
{
    if s.len() == 0 {
        sa[0] = 0;
        assert(text_of(s@).len() == 0);
        return ;
    }
    let ghost t = text_of(s@);

    // allocate about 3k memory for bucket array to speed up recursion level 0
    let mut bkt = Bucket::compute(s);

    let seeds = sort_lms_suffixes::<S>(s, sa, &mut bkt);
    let all = induce_by_lms(s, sa, &mut bkt, Ghost(true), seeds);
    proof {
        lemma_induced(t, true, bkt.spans(), sa@, all@);
        assert forall|i: int, j: int| 0 <= i < j < sa@.len() implies suf_lt(
            t,
            #[trigger] sa@[i] as int,
            #[trigger] sa@[j] as int,
        ) by {
            crate::order::lemma_suf_total(t, sa@[i] as int, sa@[j] as int);
        }
    }
}

/// Sort all the lms suffixes and place them in their buckets.
fn sort_lms_suffixes<S: SubSorter>(s: &[u8], sa: &mut [u32], bkt: &mut Bucket) -> (seeds: Ghost<
    Seq<int>,
>)
    requires
        1 <= s.len() <= MAX_LENGTH,
        s.len() + 1 == old(sa).len(),
        old(bkt).wf(s@),
        forall|c: int|
            0 <= c < 256 ==> (#[trigger] old(bkt).spans()[c]).i == old(bkt).spans()[c].head && old(
                bkt,
            ).spans()[c].j == old(bkt).spans()[c].tail,
    ensures
        final(bkt).wf(s@),
        final(sa).len() == old(sa).len(),
        l_inv(text_of(s@), true, final(bkt).spans(), final(sa)@, seeds@, 0),
        cleared(final(bkt).spans(), final(sa)@),
{
    let ghost t = text_of(s@);
    proof {
        crate::construct::utils::lemma_text_range(s@);
        lemma_lms_density(t, s.len() + 1);
    }
    // 1. place lms characters
    let seeds = place_lms(s, sa, bkt);

    // 2. sort lms substrings by lms characters
    let all = induce_by_lms(s, sa, bkt, Ghost(false), seeds);

    // 3. collect the sorted lms substrings into the tail of workspace
    let h = collect_lms(s, sa, bkt, all);

    // 4. get the sorted lms suffixes from sorted lms substrings
    let ghost listed = sa@;
    let (head, tail) = sa.split_at_mut(h);
    assert(tail@ == listed.subrange(h as int, listed.len() as int));
    let n = tail.len();
    suffixes_from_substrs::<u8, S>(s, head, tail);
    let ghost sorted = head@.take(n as int);
    let mut i: usize = n;
    while i < sa.len()
        invariant
            n <= i <= sa.len(),
            sa.len() == old(sa).len(),
            sa@.take(n as int) == sorted,
            forall|p: int| n <= p < i ==> sa@[p] == EMPTY,
        decreases sa.len() - i,
    {
        let ghost before = sa@;
        sa[i] = EMPTY;
        assert(sa@.take(n as int) =~= before.take(n as int));
        i += 1;
    }

    // 5. place sorted lms suffixes to the bucket respectively
    place_sorted(s, sa, bkt, n)
}

/// Place the lms characters at the ends of their buckets, in the order of
/// the text, with nothing else in the workspace.
fn place_lms(s: &[u8], sa: &mut [u32], bkt: &mut Bucket) -> (seeds: Ghost<Seq<int>>)
    requires
        1 <= s.len() <= MAX_LENGTH,
        s.len() + 1 == old(sa).len(),
        old(bkt).wf(s@),
        forall|c: int|
            0 <= c < 256 ==> (#[trigger] old(bkt).spans()[c]).i == old(bkt).spans()[c].head && old(
                bkt,
            ).spans()[c].j == old(bkt).spans()[c].tail,
    ensures
        final(bkt).wf(s@),
        final(sa).len() == old(sa).len(),
        l_inv(text_of(s@), false, final(bkt).spans(), final(sa)@, seeds@, 0),
        cleared(final(bkt).spans(), final(sa)@),
{
    let ghost t = text_of(s@);
    let n = s.len();
    let mut i: usize = 0;
    while i < sa.len()
        invariant
            i <= sa.len(),
            sa.len() == old(sa).len(),
            forall|p: int| 0 <= p < i ==> sa@[p] == EMPTY,
        decreases sa.len() - i,
    {
        sa[i] = EMPTY;
        i += 1;
    }
    let ghost mut pos = Seq::new((n + 1) as nat, |v: int| if v == n { 0int } else { -1int });
    proof {
        crate::construct::utils::lemma_text_range(s@);
        bkt.lemma_spans(s@);
        let b = bkt.spans();
        assert forall|c: int| 0 <= c < b.len() implies (#[trigger] b[c]).head <= b[c].i <= b[c].j
            <= b[c].tail by {
            lemma_bucket_head_mono(t, c, c + 1);
        }
        assert forall|i: int| 0 <= i < t.len() implies 0 <= #[trigger] t[i] < b.len() by {
            assert(t[i] == s@[i] as int);
        }
        crate::sais::model::lemma_bucket_head_end(t, 256, n as int);
        assert forall|c: int, p: int| 0 <= c < b.len() && #[trigger] in_gap(b, c, p) implies sa@[p]
            == EMPTY by {
            lemma_bucket_head_mono(t, c, c + 1);
            lemma_bucket_head_mono(t, c + 1, 256);
        }
    }
    let mut scan = for_each_lms(s, false);
    loop
        invariant
            bkt.wf(s@),
            t == text_of(s@),
            n == s.len(),
            1 <= n <= MAX_LENGTH,
            sa.len() == n + 1,
            scan.wf(t),
            scan.bound(n as int) <= n,
            placed(t, bkt.spans(), sa@.update(0, n as u32), pos),
            cleared(bkt.spans(), sa@),
            forall|v: int|
                0 <= v < n && #[trigger] pos[v] >= 0 ==> is_lms(t, v) && v >= scan.bound(n as int),
            forall|v: int| scan.bound(n as int) <= v < n && #[trigger] is_lms(t, v) ==> pos[v] >= 0,
        ensures
            forall|v: int| 0 < v < n && #[trigger] is_lms(t, v) ==> pos[v] >= 0,
        decreases scan.bound(n as int),
    {
        match scan.next(s) {
            Some((i, _)) => {
                proof {
                    let b = bkt.spans();
                    let c = t[i as int];
                    assert(c == s@[i as int]);
                    lemma_place_back(t, b, sa@.update(0, n as u32), pos, i as int);
                    lemma_cleared_back(t, b, sa@, c, i as u32);
                    assert(sa@.update(b[c].j - 1, i as u32).update(0, n as u32) =~= sa@.update(
                        0,
                        n as u32,
                    ).update(b[c].j - 1, i as u32));
                    pos = pos.update(i as int, b[c].j - 1);
                }
                bkt.insert_tail(s, sa, i);
            },
            None => {
                break ;
            },
        }
    }
    let ghost seeded = sa@;
    sa[0] = n as u32;
    proof {
        bkt.lemma_spans(s@);
        assert(cleared(bkt.spans(), sa@)) by {
            let b = bkt.spans();
            assert forall|c: int, p: int| 0 <= c < b.len() && #[trigger] in_gap(b, c, p) implies sa@[p]
                == EMPTY by {
                assert(b[c].head == bucket_head(t, c));
                lemma_bucket_head_mono(t, c, c + 1);
                lemma_bucket_head_mono(t, c + 1, 256);
                crate::sais::model::lemma_bucket_head_end(t, 256, n as int);
                assert(seeded[p] == EMPTY);
            }
        }
        assert forall|u: int, v: int| 0 <= u <= n && 0 <= v <= n implies #[trigger] ordered(
            t,
            false,
            false,
            pos,
            u,
            v,
        ) by {
            lemma_seeds_ordered(t, bkt.spans(), sa@, pos, u, v);
        }
        lemma_seeded(t, false, bkt.spans(), sa@, pos);
    }
    Ghost(pos)
}

/// Collect the sorted lms substrings into the tail of the workspace, and
/// return where they begin.
fn collect_lms(s: &[u8], sa: &mut [u32], bkt: &Bucket, Ghost(all): Ghost<Seq<int>>) -> (h: usize)
    requires
        1 <= s.len() <= MAX_LENGTH,
        bkt.wf(s@),
        s_inv(text_of(s@), false, bkt.spans(), old(sa)@, all, 1),
    ensures
        final(sa).len() == old(sa).len(),
        h + lms_count(text_of(s@)) == final(sa).len(),
        lms_listed(text_of(s@), final(sa)@.subrange(h as int, final(sa).len() as int)),
{
    let ghost t = text_of(s@);
    let ghost b = bkt.spans();
    let ghost sorted = sa@;
    let n = s.len();
    let len = sa.len();
    proof {
        crate::construct::utils::lemma_text_range(s@);
        bkt.lemma_spans(s@);
        lemma_induced(t, false, b, sorted, all);
        lemma_last_is_l(t);
        crate::sais::model::lemma_bucket_head_end(t, 256, n as int);
        assert(sorted_by_substring(t, sorted)) by {
            assert forall|p: int, q: int| 0 <= p < q < sorted.len() implies kle_pair(
                t,
                #[trigger] sorted[p],
                #[trigger] sorted[q],
            ) by {
                assert(le(t, false, true, sorted[p] as int, sorted[q] as int));
            }
        }
    }
    let mut h: usize = len;
    let mut c: usize = 256;
    while c > 0
        invariant
            bkt.wf(s@),
            b == bkt.spans(),
            b.len() == 256,
            t == text_of(s@),
            n == s.len(),
            1 <= n <= MAX_LENGTH,
            len == n + 1,
            sa.len() == len,
            c <= 256,
            h <= len,
            s_inv(t, false, b, sorted, all, 1),
            sorted_by_substring(t, sorted),
            collected(t, sorted, sa@, h as int, bucket_head(t, c as int)),
        decreases c,
    {
        c -= 1;
        let tail = bkt.get_tail_ptr(c as u8);
        let q = bkt.get_s_ptr(c as u8);
        proof {
            assert(b[c as int].head == bucket_head(t, c as int));
            lemma_bucket_head_mono(t, c as int, c + 1);
            lemma_full(t, false, b, sorted, all, c as int);
        }
        let mut i: usize = tail;
        while i > q
            invariant
                bkt.wf(s@),
                b == bkt.spans(),
                b.len() == 256,
                t == text_of(s@),
                n == s.len(),
                1 <= n <= MAX_LENGTH,
                len == n + 1,
                sa.len() == len,
                c < 256,
                tail == b[c as int].tail,
                q == b[c as int].j,
                q <= i <= tail <= len,
                1 <= q,
                h <= len,
                s_inv(t, false, b, sorted, all, 1),
                sorted_by_substring(t, sorted),
                collected(t, sorted, sa@, h as int, i as int),
            decreases i,
        {
            i -= 1;
            let j = sa[i] as usize;
            proof {
                assert(sa@[i as int] == sorted[i as int]);
                assert(in_back(b, c as int, i as int));
                assert(occupied(b, c as int, i as int));
                assert(all[j as int] == i);
                assert(is_s(t, j as int));
                if j > 0 {
                    assert(t[j - 1] == s@[j - 1] && t[j as int] == s@[j as int]);
                    assert(is_lms(t, j as int) == (t[j - 1] > t[j as int]));
                }
            }
            if j > 0 && s[j - 1] > s[j] {
                proof {
                    lemma_collect_take(t, sorted, sa@, h as int, i + 1);
                }
                h -= 1;
                sa[h] = sa[i];
            } else {
                proof {
                    lemma_collect_skip(t, sorted, sa@, h as int, i + 1);
                }
            }
        }
        proof {
            assert forall|p: int| b[c as int].head <= p < q implies !is_lms(
                t,
                #[trigger] sorted[p] as int,
            ) by {
                assert(in_front(b, c as int, p));
                assert(occupied(b, c as int, p));
                let v = sorted[p] as int;
                assert(all[v] == p);
                assert(!is_s(t, v));
            }
            lemma_collect_skip_range(t, sorted, sa@, h as int, q as int, b[c as int].head as int);
        }
    }
    proof {
        crate::sais::model::lemma_count_below_none(t, n as int);
        assert(sorted[0] == n);
        lemma_collect_take(t, sorted, sa@, h as int, 1);
    }
    h -= 1;
    sa[h] = sa[0];
    proof {
        lemma_collect_done(t, sorted, sa@, h as int);
    }
    h
}

/// Whether the LMS substring at `u` is at most the one at `v`, and `u` is not `v`.
pub open spec fn kle_pair(t: Seq<int>, u: u32, v: u32) -> bool {
    crate::sais::model::kle(t, u as int, v as int, true) && u != v
}

/// Move the sorted lms suffixes from the front of the workspace to the
/// ends of their buckets, with nothing else in the workspace.
fn place_sorted(s: &[u8], sa: &mut [u32], bkt: &mut Bucket, n: usize) -> (seeds: Ghost<Seq<int>>)
    requires
        1 <= s.len() <= MAX_LENGTH,
        s.len() + 1 == old(sa).len(),
        old(bkt).wf(s@),
        n == lms_count(text_of(s@)),
        2 * n <= old(sa).len(),
        lms_sorted(text_of(s@), old(sa)@.take(n as int)),
        forall|p: int| n <= p < old(sa).len() ==> old(sa)@[p] == EMPTY,
    ensures
        final(bkt).wf(s@),
        final(sa).len() == old(sa).len(),
        l_inv(text_of(s@), true, final(bkt).spans(), final(sa)@, seeds@, 0),
        cleared(final(bkt).spans(), final(sa)@),
{
    let ghost t = text_of(s@);
    let ghost xs = sa@.take(n as int);
    let len = sa.len();
    bkt.reset_l_ptrs();
    bkt.reset_s_ptrs();
    let ghost mut pos = Seq::new(len as nat, |v: int| if v == len - 1 { 0int } else { -1int });
    proof {
        crate::construct::utils::lemma_text_range(s@);
        lemma_sorted_first(t, xs);
        bkt.lemma_spans(s@);
        let b = bkt.spans();
        assert forall|c: int| 0 <= c < b.len() implies (#[trigger] b[c]).head == b[c].i && b[c].j
            == b[c].tail && b[c].head <= b[c].tail by {
            lemma_bucket_head_mono(t, c, c + 1);
        }
        assert forall|i: int| 0 <= i < t.len() implies 0 <= #[trigger] t[i] < b.len() by {
            assert(t[i] == s@[i] as int);
        }
        assert forall|k: int| 1 <= k < n implies (#[trigger] xs[k]) < t.len() && b[t[xs[k] as int]].j
            > k by {
            lemma_sorted_room(t, xs, k);
        }
        assert(sa@[0] == xs[0]);
        crate::sais::model::lemma_bucket_head_end(t, 256, s.len() as int);
        assert forall|c: int, p: int|
            0 <= c < 256 && #[trigger] in_gap(b, c, p) && p >= n implies sa@[p] == EMPTY by {
            lemma_bucket_head_mono(t, c, c + 1);
            lemma_bucket_head_mono(t, c + 1, 256);
        }
    }
    let mut i: usize = n;
    while i > 1
        invariant
            bkt.wf(s@),
            t == text_of(s@),
            1 <= s.len() <= MAX_LENGTH,
            len == s.len() + 1,
            sa.len() == len,
            xs.len() == n,
            2 * n <= len,
            lms_sorted(t, xs),
            1 <= i <= n,
            placed(t, bkt.spans(), sa@, pos),
            forall|c: int| 0 <= c < 256 ==> (#[trigger] bkt.spans()[c]).i == bkt.spans()[c].head,
            forall|c: int, p: int|
                0 <= c < 256 && #[trigger] in_gap(bkt.spans(), c, p) && p >= i ==> sa@[p] == EMPTY,
            forall|k: int| 0 <= k < i ==> sa@[k] == #[trigger] xs[k],
            forall|k: int|
                1 <= k < i ==> (#[trigger] xs[k]) < t.len() && bkt.spans()[t[xs[k] as int]].j > k,
            forall|v: int|
                0 <= v < t.len() && #[trigger] pos[v] >= 0 ==> is_lms(t, v) && forall|k: int|
                    0 <= k < i ==> suf_lt(t, #[trigger] xs[k] as int, v),
            forall|k: int| i <= k < n ==> pos[#[trigger] xs[k] as int] >= 0,
            forall|u: int, v: int|
                0 <= u <= t.len() && 0 <= v <= t.len() ==> #[trigger] ordered(
                    t,
                    true,
                    false,
                    pos,
                    u,
                    v,
                ),
        decreases i,
    {
        i -= 1;
        let j = sa[i] as usize;
        let ghost b = bkt.spans();
        let ghost c = t[j as int];
        let ghost q = b[c].j - 1;
        let ghost before = sa@;
        sa[i] = EMPTY;
        proof {
            bkt.lemma_spans(s@);
            assert(j == xs[i as int]);
            assert(c == s@[j as int]);
            if pos[j as int] >= 0 {
                assert(suf_lt(t, xs[i as int] as int, j as int));
                crate::order::lemma_lex_irreflexive(t, j as int);
            }
            lemma_place_back(t, b, before, pos, j as int);
            lemma_bucket_head_mono(t, c, c);
            assert(b[c].head == bucket_head(t, c));
            assert(sa@.update(q, j as u32) =~= before.update(q, j as u32).update(
                i as int,
                if q == i { j as u32 } else { EMPTY },
            ));
            // the place that was read is either taken again or lies in no filled part
            assert(placed(t, crate::sais::state::push_back_spans(b, c), sa@.update(q, j as u32), pos.update(j as int, q))) by {
                let b2 = crate::sais::state::push_back_spans(b, c);
                let sa2 = before.update(q, j as u32);
                let sa3 = sa@.update(q, j as u32);
                let pos2 = pos.update(j as int, q);
                assert forall|v: int| 0 <= v < t.len() && #[trigger] pos2[v] >= 0 implies sa3[pos2[v]]
                    == v by {
                    assert(sa2[pos2[v]] == v);
                    if pos2[v] == i && q != i {
                        let d = t[v];
                        assert(b[d].head == bucket_head(t, d));
                        assert(v != j);
                        assert(xs[i as int] == j);
                        if d == c {
                        } else {
                            assert(suf_lt(t, j as int, v));
                        }
                    }
                }
                assert forall|d: int, p: int| 0 <= d < b2.len() && #[trigger] occupied(b2, d, p) implies {
                    &&& sa3[p] < t.len()
                    &&& t[sa3[p] as int] == d
                    &&& pos2[sa3[p] as int] == p
                } by {
                    assert(sa2[p] < t.len() && t[sa2[p] as int] == d && pos2[sa2[p] as int] == p);
                    if p == i && q != i {
                        let v = sa2[p] as int;
                        assert(pos2[v] == i);
                    }
                }
            }
            assert forall|u: int, w: int|
                0 <= u <= t.len() && 0 <= w <= t.len() implies #[trigger] ordered(
                t,
                true,
                false,
                pos.update(j as int, q),
                u,
                w,
            ) by {
                assert(ordered(t, true, false, pos, u, w));
                if u == j && w != j && pos[w] >= 0 && w < t.len() {
                    assert(suf_lt(t, xs[i as int] as int, w));
                    crate::order::lemma_lex_asymmetric(t, j as int, t, w);
                }
                if w == j && u != j && pos[u] >= 0 && u < t.len() {
                    assert(suf_lt(t, xs[i as int] as int, u));
                    let d = t[u];
                    assert(b[d].head == bucket_head(t, d));
                    if d != c {
                        crate::sais::state::lemma_buckets_apart(t, c, d, q, pos[u]);
                    }
                }
            }
            pos = pos.update(j as int, q);
        }
        bkt.insert_tail(s, sa, j);
        proof {
            let b2 = bkt.spans();
            assert forall|d: int, p: int|
                0 <= d < 256 && #[trigger] in_gap(b2, d, p) && p >= i implies sa@[p] == EMPTY by {
                assert(in_gap(b, d, p));
                assert(b[d].head == bucket_head(t, d));
                lemma_bucket_head_mono(t, d, d + 1);
                lemma_bucket_head_mono(t, c, c + 1);
                if d != c {
                    crate::sais::state::lemma_buckets_apart(t, c, d, q, p);
                }
            }
        }
    }
    proof {
        bkt.lemma_spans(s@);
        assert forall|v: int| 0 < v < t.len() && #[trigger] is_lms(t, v) implies pos[v] >= 0 by {
            assert(occurs_in(xs, v));
            let k = choose|k: int| 0 <= k < xs.len() && #[trigger] xs[k] == v;
            assert(pos[xs[k] as int] >= 0);
        }
        lemma_seeded(t, true, bkt.spans(), sa@, pos);
        assert(cleared(bkt.spans(), sa@)) by {
            let b = bkt.spans();
            assert forall|c: int, p: int| 0 <= c < b.len() && #[trigger] in_gap(b, c, p) implies sa@[p]
                == EMPTY by {
                assert(b[c].head == bucket_head(t, c));
                lemma_bucket_head_mono(t, c, c);
                assert(p >= 1);
            }
        }
    }
    Ghost(pos)
}

/// Induce the entire suffix array by sorted lms suffixes.
/// Or induce the order of lms substrings by the sorted lms characters.
pub fn induce_by_lms(
    s: &[u8],
    sa: &mut [u32],
    bkt: &mut Bucket,
    Ghost(by_suffix): Ghost<bool>,
    Ghost(seeds): Ghost<Seq<int>>,
) -> (all: Ghost<Seq<int>>)
    requires
        old(bkt).wf(s@),
        l_inv(text_of(s@), by_suffix, old(bkt).spans(), old(sa)@, seeds, 0),
        cleared(old(bkt).spans(), old(sa)@),
    ensures
        final(bkt).wf(s@),
        final(sa).len() == old(sa).len(),
        s_inv(text_of(s@), by_suffix, final(bkt).spans(), final(sa)@, all@, 1),
{
    let ghost t = text_of(s@);
    let ghost mut pos = seeds;
    let n = s.len();
    let len = sa.len();

    // 1. induce l-type from sorted lms characters/suffixes
    let mut i: usize = 0;
    while i < len
        invariant
            bkt.wf(s@),
            t == text_of(s@),
            n == s.len(),
            len == n + 1,
            sa.len() == len,
            i <= len,
            l_inv(t, by_suffix, bkt.spans(), sa@, pos, i as int),
            cleared(bkt.spans(), sa@),
        decreases len - i,
    {
        proof {
            lemma_scan_l(t, by_suffix, bkt.spans(), sa@, pos, i as int);
        }
        if sa[i] != EMPTY && sa[i] != 0 {
            // j == s.len() || s[sa[i]-1] >= s[sa[i]] <=> sa[i]-1 is l-type,
            // becuase the workspace contains only l-type/lms characters
            let j = sa[i] as usize;
            proof {
                if j < n {
                    assert(t[j - 1] == s@[j - 1] && t[j as int] == s@[j as int]);
                }
            }
            if j == n || s[j - 1] >= s[j] {
                proof {
                    let b = bkt.spans();
                    let c = t[j - 1];
                    assert(c == s@[j - 1]);
                    lemma_push_l(t, by_suffix, b, sa@, pos, i as int, j - 1);
                    lemma_cleared_front(t, b, sa@, c, (j - 1) as u32);
                    pos = pos.update(j - 1, b[c].i as int);
                }
                bkt.insert_head(s, sa, j - 1);
            }
        }
        i += 1;
    }

    // 2. clear lms characters, except the sentinel
    let ghost filled = bkt.spans();
    let ghost before = sa@;
    proof {
        bkt.lemma_spans(s@);
        lemma_l_to_s(t, by_suffix, filled, before, pos);
        pos = drop_s(t, pos);
        assert forall|c: int| 0 <= c < 256 implies (#[trigger] filled[c]).j <= filled[c].tail
            <= sa.len() by {
            assert(filled[c].head == bucket_head(t, c));
            lemma_bucket_head_mono(t, c + 1, c + 1);
        }
    }
    bkt.clear_tails(sa);
    proof {
        bkt.lemma_spans(s@);
        let b = bkt.spans();
        assert(b =~= reset_back_spans(filled));
        assert forall|c: int, p: int| 0 <= c < b.len() && #[trigger] occupied(b, c, p) implies sa@[p]
            == before[p] by {
            lemma_in_back_below(filled, 256, p);
            assert(filled[c].head == bucket_head(t, c));
            lemma_bucket_head_mono(t, c + 1, c + 1);
            if in_back_below_any(filled, p) {
                let d = choose|d: int| 0 <= d < 256 && #[trigger] in_back(filled, d, p);
                assert(filled[d].head == bucket_head(t, d));
                if d != c {
                    crate::sais::state::lemma_buckets_apart(t, c, d, p, p);
                }
            }
        }
        assert(sa@[0] == before[0]) by {
            lemma_in_back_below(filled, 256, 0);
            if in_back_below_any(filled, 0) {
                let d = choose|d: int| 0 <= d < 256 && #[trigger] in_back(filled, d, 0);
                assert(filled[d].head == bucket_head(t, d));
                lemma_bucket_head_mono(t, d, d);
            }
        }
        lemma_s_frame(t, by_suffix, b, before, sa@, pos, len as int);
        assert forall|c: int, p: int| 0 <= c < b.len() && #[trigger] in_gap(b, c, p) implies sa@[p]
            == EMPTY by {
            lemma_in_back_below(filled, 256, p);
            assert(filled[c].head == bucket_head(t, c));
            lemma_bucket_head_mono(t, c, c + 1);
            if p < filled[c].j {
                assert(in_gap(filled, c, p));
                if in_back_below_any(filled, p) {
                    let d = choose|d: int| 0 <= d < 256 && #[trigger] in_back(filled, d, p);
                    assert(filled[d].head == bucket_head(t, d));
                    if d != c {
                        crate::sais::state::lemma_buckets_apart(t, c, d, p, p);
                    }
                }
            } else {
                assert(in_back(filled, c, p));
            }
        }
    }

    // 3. symmetrically induce s-type characters by l-type characters
    let mut i: usize = len - 1;
    while i > 0
        invariant
            bkt.wf(s@),
            t == text_of(s@),
            n == s.len(),
            len == n + 1,
            sa.len() == len,
            i < len,
            s_inv(t, by_suffix, bkt.spans(), sa@, pos, i + 1),
            cleared(bkt.spans(), sa@),
        decreases i,
    {
        proof {
            lemma_scan_s(t, by_suffix, bkt.spans(), sa@, pos, i + 1);
        }
        if sa[i] != EMPTY && sa[i] != 0 {
            // if s[sa[i]-1] < s[sa[i]]: sa[i]-1 is s-type.
            // if s[sa[i]-1] == s[sa[i]]:
            //     sa[i]-1 is located in the same bucket of c = s[sa[i]];
            //     all the l-type characters are already placed before l-pointer;
            //     thus, l-pointer(c) < i <=> sa[i]-1 is s-type.
            //     (l-pointer(c) won't be equal to i)
            let j = sa[i] as usize;
            proof {
                assert(t[j - 1] == s@[j - 1] && t[j as int] == s@[j as int]);
            }
            if s[j - 1] < s[j] || (s[j - 1] == s[j] && bkt.get_l_ptr(s[j]) < i) {
                proof {
                    let b = bkt.spans();
                    let c = t[j - 1];
                    lemma_push_s(t, by_suffix, b, sa@, pos, i + 1, j - 1);
                    lemma_cleared_back(t, b, sa@, c, (j - 1) as u32);
                    pos = pos.update(j - 1, b[c].j - 1);
                }
                bkt.insert_tail(s, sa, j - 1);
            }
        }
        i -= 1;
    }
    Ghost(pos)
}

/// Whether `p` lies in the back part of some bucket.
pub open spec fn in_back_below_any(b: Seq<crate::sais::utils::Span>, p: int) -> bool {
    exists|c: int| 0 <= c < 256 && #[trigger] in_back(b, c, p)
}

} // verus!
