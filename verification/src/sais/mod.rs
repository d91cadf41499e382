//! Suffix array construction by induced sorting, with a type bitmap and a
//! bucket array.
use vstd::prelude::*;
use crate::construct::utils::{lemma_text_range, text_of, SaisChar};
use crate::order::{is_permutation, is_suffix_array};
use crate::sais::induce::{
    drop_s, l_inv, lemma_induced, lemma_l_to_s, lemma_push_l, lemma_push_s, lemma_seeded,
    lemma_seeds_ordered, lemma_skip_l, lemma_skip_s, lemma_step_l, lemma_step_s, ordered,
    reset_back_spans, s_inv,
};
use crate::order::occurs_in;
use crate::sais::model::kle;
use crate::order::suf_lt;
use crate::sais::naming::{
    lemma_all_differ, lemma_listed_first, lemma_lms_in_perm, lemma_names_fit, compact_names,
    lemma_occurs_from_earlier, lemma_rename_step, lemma_renamed_all, lms_in, lms_listed,
    lms_sorted, occurs_from, ranks_sorted, renamed, slot_name, NIL,
};
use crate::sais::reduce::{
    keq, lemma_lms_below_mono, lemma_lms_density, lms_below, lms_count, names_fit,
};
use crate::sais::state::lemma_place_back;
use crate::sais::model::{
    bucket_head, is_lms, is_s, le, lemma_bucket_head_end, lemma_bucket_head_mono,
    lemma_count_below_none, lemma_last_is_l,
};
use crate::sais::state::{occupied, placed, push_back_spans, push_front_spans, spans_wf};
use crate::sais::suffix_order::entry_before;
use crate::sais::suffix_sort::sort_suffixes;
use crate::sais::utils::{to_usize, Bucket, Span, Types};

pub mod count;
pub mod induce;
pub mod model;
pub mod naming;
pub mod reduce;
pub mod state;
pub mod suffix_order;
pub mod suffix_sort;
pub mod utils;

verus! {

const THRESHOLD: usize = 128;

/// Maximum length of the input string.
pub const MAX_LENGTH: usize = 0xffff_fffd;

/// Sort the byte string and calculate its suffix array.
/// The algorithm is not designed for sorting huge data in memeory.
/// Thus u32 is choosen instead of usize for reducing memory usage in x64.
pub fn construct(s: &[u8], sa: &mut [u32])
    requires
        s.len() + 1 == old(sa).len(),
        s.len() < MAX_LENGTH,
    ensures
        is_suffix_array(text_of(s@), final(sa)@),
{
    assert forall|i: int| 0 <= i < s.len() implies #[trigger] text_of(s@)[i] < 256 by {
        assert(text_of(s@)[i] == s@[i] as int);
    }
    general_sort(s, 256, sa);
}

/// Sort u32 slice and calculate its suffix array.
#[inline]
fn general_sort<T>(s: &[T], scale: usize, sa: &mut [u32]) where T: SaisChar
    requires
        s.len() + 1 == old(sa).len(),
        s.len() < MAX_LENGTH,
        forall|i: int| 0 <= i < s.len() ==> #[trigger] text_of(s@)[i] < scale,
    ensures
        is_suffix_array(text_of(s@), final(sa)@),
    decreases old(sa)@.len(), 5int,
{
    if s.len() < THRESHOLD {
        naive_sort(s, sa);
    } else {
        sais(s, scale, sa);
    }
}

/// The simplest but time costing way to calculate suffix array.
/// No auxilary data structure is required.
#[inline]
pub fn naive_sort<T: SaisChar>(s: &[T], sa: &mut [u32])
    requires
        s.len() + 1 == old(sa).len(),
        s.len() < MAX_LENGTH,
    ensures
        is_suffix_array(text_of(s@), final(sa)@),
{
    let ghost t = text_of(s@);
    let n = s.len();
    let mut i: usize = 0;
    while i <= n
        invariant
            n == s.len(),
            n < MAX_LENGTH,
            sa.len() == n + 1,
            i <= n + 1,
            forall|k: int| 0 <= k < i ==> #[trigger] sa@[k] == n - k,
        decreases n + 1 - i,
    {
        sa[i] = (n - i) as u32;
        i += 1;
    }
    let (head, tail) = sa.split_at_mut(1);
    let ghost unsorted = tail@;
    assert forall|k: int| 0 <= k < unsorted.len() implies #[trigger] unsorted[k] == n - 1 - k by {
    }
    sort_suffixes(s, tail);
    proof {
        let sorted = tail@;
        let out = head@ + sorted;
        sorted.to_multiset_ensures();
        unsorted.to_multiset_ensures();
        assert(unsorted.no_duplicates());
        unsorted.lemma_multiset_has_no_duplicates();
        sorted.lemma_multiset_has_no_duplicates_conv();
        assert(sorted.len() == unsorted.len());
        assert forall|k: int| 0 <= k < sorted.len() implies #[trigger] sorted[k] < n by {
            assert(sorted.contains(sorted[k]));
            assert(sorted.to_multiset().count(sorted[k]) > 0);
            assert(unsorted.to_multiset().count(sorted[k]) > 0);
            assert(unsorted.contains(sorted[k]));
        }
        assert forall|a: int, b: int| 0 <= a < b < out.len() implies suf_lt(
            t,
            #[trigger] out[a] as int,
            #[trigger] out[b] as int,
        ) by {
            assert(out[b] == sorted[b - 1]);
            if a > 0 {
                assert(out[a] == sorted[a - 1]);
                assert(!entry_before(s@, sorted[b - 1], sorted[a - 1]));
                crate::order::lemma_suf_total(t, out[a] as int, out[b] as int);
            }
        }
    }
}

/// Suffix array induced-sorting algorithm.
/// The fast (O(n)) and relatively space efficient (O(n+n/log(n))) way to
/// calculate suffix array.
/// Use bucket and type bitmap to speed up construction.
pub fn sais<T>(s: &[T], scale: usize, sa: &mut [u32]) where T: SaisChar
    requires
        s.len() + 1 == old(sa).len(),
        s.len() < MAX_LENGTH,
        forall|i: int| 0 <= i < s.len() ==> #[trigger] text_of(s@)[i] < scale,
    ensures
        is_suffix_array(text_of(s@), final(sa)@),
    decreases old(sa)@.len(), 4int,
{
    if s.len() == 0 {
        sa[0] = 0;
        assert(text_of(s@).len() == 0);
        return;
    }
    let mut ctx = SaisContext::new(s, scale);
    ctx.sort(sa);
}

/// Sorting a string of names naively: by comparing its suffixes.
pub struct NaiveSorter;

impl crate::construct::utils::SubSorter for NaiveSorter {
    fn sort(s: &mut [u32], k: usize, sa: &mut [u32]) {
        naive_sort(s, sa);
    }
}

/// Sorting a string of names by induced sorting with a type bitmap and a
/// bucket array.
pub struct BitmapSorter;

impl crate::construct::utils::SubSorter for BitmapSorter {
    fn sort(s: &mut [u32], k: usize, sa: &mut [u32]) {
        assert forall|i: int| 0 <= i < s.len() implies #[trigger] text_of(s@)[i] < k by {
            assert(text_of(s@)[i] == s@[i] as int);
        }
        sais(s, k, sa);
    }
}

/// Whether every span is empty at both ends.
pub open spec fn spans_reset(b: Seq<Span>) -> bool {
    forall|c: int| 0 <= c < b.len() ==> (#[trigger] b[c]).i == b[c].head && b[c].j == b[c].tail
}

/// SAIS excution context.
pub struct SaisContext<'s, T> where T: SaisChar {
    s: &'s [T],
    ty: Types,
    bkt: Bucket,
}

impl<'s, T> SaisContext<'s, T> where T: SaisChar {
    /// The codes of the string that is sorted.
    pub closed spec fn text(&self) -> Seq<int> {
        text_of(self.s@)
    }

    /// The buckets and their pointers.
    pub closed spec fn spans(&self) -> Seq<Span> {
        self.bkt@
    }

    /// Whether bitmap and buckets are those of the string.
    pub closed spec fn wf(&self) -> bool {
        &&& self.s@.len() >= 1
        &&& self.ty.wf()
        &&& self.ty@.len() == self.s@.len()
        &&& forall|i: int| 0 <= i < self.s@.len() ==> self.ty@[i] == is_s(text_of(self.s@), i)
        &&& spans_wf(text_of(self.s@), self.bkt@)
    }

    /// Initialize context.
    pub fn new(s: &'s [T], scale: usize) -> (r: Self)
        requires
            0 < s.len() < MAX_LENGTH,
            forall|i: int| 0 <= i < s.len() ==> #[trigger] text_of(s@)[i] < scale,
        ensures
            r.wf(),
            r.text() == text_of(s@),
            spans_reset(r.spans()),
    {
        let ty = Types::calculate(s);
        let bkt = Bucket::calculate(s, scale);
        proof {
            let t = text_of(s@);
            lemma_text_range(s@);
            assert forall|c: int| 0 <= c < bkt@.len() implies {
                &&& (#[trigger] bkt@[c]).head == bucket_head(t, c)
                &&& bkt@[c].tail == bucket_head(t, c + 1)
                &&& bkt@[c].head <= bkt@[c].i <= bkt@[c].j <= bkt@[c].tail
            } by {
                lemma_bucket_head_mono(t, c, c + 1);
            }
        }
        SaisContext { s, ty, bkt }
    }

    /// Start sorting.
    pub fn sort(&mut self, sa: &mut [u32])
        requires
            old(self).wf(),
            spans_reset(old(self).spans()),
            old(sa).len() == old(self).text().len() + 1,
        ensures
            final(self).wf(),
            final(self).text() == old(self).text(),
            spans_reset(final(self).spans()),
            is_suffix_array(old(self).text(), final(sa)@),
        decreases old(sa)@.len(), 3int,
    {
        let ghost t = self.text();
        let seeds = self.place_sorted_lms(sa);
        self.induce_by_lms(sa, Ghost(true), seeds);
        proof {
            assert forall|i: int, j: int| 0 <= i < j < sa@.len() implies suf_lt(
                t,
                #[trigger] sa@[i] as int,
                #[trigger] sa@[j] as int,
            ) by {
                crate::order::lemma_suf_total(t, sa@[i] as int, sa@[j] as int);
            }
        }
    }

    /// Turn the ranks in the tail of sa into the lms-characters that they
    /// stand for.
    fn rank_to_position(&self, sa: &mut [u32], n: usize)
        requires
            self.wf(),
            old(sa).len() == self.s@.len() + 1,
            n == lms_count(self.text()),
            2 * n <= old(sa).len(),
            ranks_sorted(self.text(), old(sa)@.subrange(old(sa).len() - n, old(sa).len() as int)),
        ensures
            final(sa).len() == old(sa).len(),
            lms_sorted(self.text(), final(sa)@.subrange(final(sa).len() - n, final(sa).len() as int)),
    {
        let ghost t = self.text();
        let len = sa.len();
        let ghost ranks = sa@.subrange(len - n, len as int);
        proof {
            lemma_text_range(self.s@);
            lemma_last_is_l(t);
        }

        // collect lms-characters from left to right into the head of sa
        let mut m: usize = 0;
        let mut i: usize = 0;
        while i < len
            invariant
                self.wf(),
                t == self.text(),
                len == self.s@.len() + 1,
                sa.len() == len,
                n == lms_count(t),
                2 * n <= len,
                i <= len,
                m == lms_below(t, i as int),
                m <= n,
                sa@.subrange(len - n, len as int) == ranks,
                forall|r: int|
                    0 <= r < m ==> 0 < #[trigger] sa@[r] < i && is_lms(t, sa@[r] as int)
                        && lms_below(t, sa@[r] as int) == r,
            decreases len - i,
        {
            proof {
                lemma_lms_below_mono(t, i + 1, len as int);
            }
            if self.is_lms(i) {
                let ghost before = sa@;
                sa[m] = i as u32;
                proof {
                    assert(sa@.subrange(len - n, len as int) =~= before.subrange(
                        len - n,
                        len as int,
                    ));
                }
                m += 1;
            }
            i += 1;
        }
        let ghost collected = sa@;

        // place ordered lms-characters in the tail of sa
        let mut i: usize = len - n;
        while i < len
            invariant
                len - n <= i <= len,
                sa.len() == len,
                collected.len() == len,
                ranks.len() == n,
                2 * n <= len,
                is_permutation(n - 1, ranks),
                forall|k: int| 0 <= k < len - n ==> sa@[k] == collected[k],
                forall|k: int| i <= k < len ==> sa@[k] == #[trigger] ranks[k - (len - n)],
                forall|k: int|
                    len - n <= k < i ==> #[trigger] sa@[k] == collected[ranks[k - (len - n)] as int],
            decreases len - i,
        {
            assert(ranks[i - (len - n)] <= n - 1);
            sa[i] = sa[to_usize(sa[i])];
            i += 1;
        }
        proof {
            let xs = sa@.subrange(len - n, len as int);
            assert forall|k: int| 0 <= k < xs.len() implies 0 < #[trigger] xs[k] <= t.len()
                && is_lms(t, xs[k] as int) && lms_below(t, xs[k] as int) == ranks[k] by {
                assert(xs[k] == sa@[len - n + k]);
                assert(ranks[k] <= n - 1);
                assert(collected[ranks[k] as int] == sa@[len - n + k]);
            }
            assert forall|a: int, b: int| 0 <= a < b < xs.len() implies suf_lt(
                t,
                #[trigger] xs[a] as int,
                #[trigger] xs[b] as int,
            ) by {
                assert(lms_below(t, xs[a] as int) == ranks[a]);
                assert(lms_below(t, xs[b] as int) == ranks[b]);
            }
            assert forall|v: int| 0 < v <= t.len() && is_lms(t, v) implies #[trigger] occurs_in(
                xs,
                v,
            ) by {
                let r = lms_below(t, v);
                lemma_lms_below_mono(t, 0, v);
                lemma_lms_below_mono(t, v + 1, len as int);
                assert(occurs_in(ranks, r));
                let a = choose|a: int| 0 <= a < ranks.len() && #[trigger] ranks[a] == r;
                assert(lms_below(t, xs[a] as int) == ranks[a]);
                if xs[a] < v {
                    crate::sais::naming::lemma_rank_strict(t, xs[a] as int, v);
                }
                if v < xs[a] {
                    crate::sais::naming::lemma_rank_strict(t, v, xs[a] as int);
                }
            }
        }
    }

    /// Move the sorted lms-suffixes from the tail of sa to their buckets.
    fn seed_sorted(&mut self, sa: &mut [u32], n: usize) -> (seeds: Ghost<Seq<int>>)
        requires
            old(self).wf(),
            spans_reset(old(self).bkt@),
            old(sa).len() == old(self).s@.len() + 1,
            n == lms_count(old(self).text()),
            2 * n <= old(sa).len(),
            lms_sorted(old(self).text(), old(sa)@.subrange(old(sa).len() - n, old(sa).len() as int)),
        ensures
            final(self).wf(),
            final(self).s == old(self).s,
            final(self).ty == old(self).ty,
            l_inv(final(self).text(), true, final(self).bkt@, final(sa)@, seeds@, 0),
    {
        let ghost t = self.text();
        let len = sa.len();
        let ghost xs = sa@.subrange(len - n, len as int);
        proof {
            lemma_text_range(self.s@);
            crate::sais::naming::lemma_sorted_first(t, xs);
        }

        // move the lms-suffixes to the head of sa
        let mut k: usize = 0;
        while k < n
            invariant
                k <= n,
                2 * n <= len,
                sa.len() == len,
                xs.len() == n,
                sa@.subrange(len - n, len as int) == xs,
                forall|j: int| 0 <= j < k ==> sa@[j] == #[trigger] xs[j],
            decreases n - k,
        {
            let ghost before = sa@;
            assert(xs[k as int] == sa@[len - n + k]);
            sa[k] = sa[len - n + k];
            proof {
                assert(sa@.subrange(len - n, len as int) =~= before.subrange(len - n, len as int));
            }
            k += 1;
        }

        // place lms-charaters in the correct place
        let ghost mut pos = Seq::new(len as nat, |v: int| if v == len - 1 { 0int } else { -1int });
        proof {
            assert forall|k: int| 1 <= k < n implies (#[trigger] xs[k]) < t.len() && self.bkt@[t[xs[k] as int]].j
                > k by {
                crate::sais::naming::lemma_sorted_room(t, xs, k);
            }
        }
        let mut i: usize = n;
        while i > 1
            invariant
                self.wf(),
                self.s == old(self).s,
                self.ty == old(self).ty,
                t == self.text(),
                len == self.s@.len() + 1,
                sa.len() == len,
                xs.len() == n,
                2 * n <= len,
                lms_sorted(t, xs),
                1 <= i <= n,
                placed(t, self.bkt@, sa@, pos),
                forall|k: int| 0 <= k < i ==> sa@[k] == #[trigger] xs[k],
                forall|k: int|
                    1 <= k < i ==> (#[trigger] xs[k]) < t.len() && self.bkt@[t[xs[k] as int]].j > k,
                forall|v: int|
                    0 <= v < t.len() && #[trigger] pos[v] >= 0 ==> is_lms(t, v) && forall|k: int|
                        0 <= k < i ==> suf_lt(t, #[trigger] xs[k] as int, v),
                forall|k: int| i <= k < n ==> pos[#[trigger] xs[k] as int] >= 0,
                forall|u: int, v: int|
                    0 <= u <= t.len() && 0 <= v <= t.len() ==> #[trigger] ordered(
                        t,
                        true,
                        false,
                        pos,
                        u,
                        v,
                    ),
            decreases i,
        {
            i -= 1;
            let v = sa[i];
            let j = to_usize(v);
            let ghost b = self.bkt@;
            let ghost c = t[j as int];
            let ghost q = b[c].j - 1;
            proof {
                assert(v == xs[i as int]);
                if pos[j as int] >= 0 {
                    assert(suf_lt(t, xs[i as int] as int, j as int));
                    crate::order::lemma_lex_irreflexive(t, j as int);
                }
                lemma_place_back(t, b, sa@, pos, j as int);
                lemma_bucket_head_mono(t, c, c);
                assert forall|u: int, w: int|
                    0 <= u <= t.len() && 0 <= w <= t.len() implies #[trigger] ordered(
                    t,
                    true,
                    false,
                    pos.update(j as int, q),
                    u,
                    w,
                ) by {
                    assert(ordered(t, true, false, pos, u, w));
                    if u == j && w != j && pos[w] >= 0 && w < t.len() {
                        assert(suf_lt(t, xs[i as int] as int, w));
                        crate::order::lemma_lex_asymmetric(t, j as int, t, w);
                    }
                    if w == j && u != j && pos[u] >= 0 && u < t.len() {
                        assert(suf_lt(t, xs[i as int] as int, u));
                        let d = t[u];
                        assert(b[d].head == bucket_head(t, d));
                        if d != c {
                            crate::sais::state::lemma_buckets_apart(t, c, d, q, pos[u]);
                        }
                    }
                }
                pos = pos.update(j as int, q);
            }
            self.push_schar(sa, j);
        }
        proof {
            assert forall|v: int| 0 < v < t.len() && #[trigger] is_lms(t, v) implies pos[v] >= 0 by {
                assert(occurs_in(xs, v));
                let k = choose|k: int| 0 <= k < xs.len() && #[trigger] xs[k] == v;
                assert(pos[xs[k] as int] >= 0);
            }
            lemma_seeded(t, true, self.bkt@, sa@, pos);
        }
        Ghost(pos)
    }

    /// Place lms-characters in the right place.
    fn place_sorted_lms(&mut self, sa: &mut [u32]) -> (seeds: Ghost<Seq<int>>)
        requires
            old(self).wf(),
            spans_reset(old(self).bkt@),
            old(sa).len() == old(self).s@.len() + 1,
        ensures
            final(self).wf(),
            final(self).s == old(self).s,
            l_inv(final(self).text(), true, final(self).bkt@, final(sa)@, seeds@, 0),
        decreases old(sa)@.len(), 2int,
    {
        // try calculate the permutation of lms-characters
        let (n, is_permut) = self.sort_or_permut_lms(sa);

        if is_permut {
            self.rank_to_position(sa, n);
        }
        self.seed_sorted(sa, n)
    }

    /// Length of byte string.
    #[inline]
    fn len(&self) -> (n: usize)
        ensures
            n == self.s@.len(),
    {
        self.s.len()
    }

    /// Length of bucket.
    #[inline]
    fn scale(&self) -> (n: usize)
        ensures
            n == self.bkt@.len(),
    {
        self.bkt.len()
    }

    /// Get type of character.
    #[inline]
    fn is_schar(&self, i: usize) -> (r: bool)
        requires
            self.wf(),
            i < self.s@.len(),
        ensures
            r == is_s(self.text(), i as int),
    {
        self.ty.get(i)
    }

    /// Get type of character.
    #[inline]
    fn is_lms(&self, i: usize) -> (r: bool)
        requires
            self.wf(),
            i <= self.s@.len(),
        ensures
            r == is_lms(self.text(), i as int),
    {
        proof {
            lemma_text_range(self.s@);
            lemma_last_is_l(self.text());
        }
        self.ty.is_lms(i)
    }

    /// Push l-character in s[i].
    #[inline]
    fn push_lchar(&mut self, sa: &mut [u32], i: usize)
        requires
            old(self).wf(),
            i < old(self).s@.len(),
            old(sa).len() == old(self).s@.len() + 1,
            old(self).bkt@[old(self).text()[i as int]].i < old(self).bkt@[old(self).text()[i as int]].j,
        ensures
            final(self).wf(),
            final(self).s == old(self).s,
            final(self).ty == old(self).ty,
            final(self).bkt@ == push_front_spans(old(self).bkt@, old(self).text()[i as int]),
            final(sa)@ == old(sa)@.update(
                old(self).bkt@[old(self).text()[i as int]].i as int,
                i as u32,
            ),
    {
        let c = to_usize(self.s[i]);
        assert(self.text()[i as int] == c);
        proof {
            lemma_bucket_head_mono(self.text(), c as int, c + 1);
        }
        let mut sp = self.bkt.0[c];
        sp.push_front(sa, i as u32);
        self.bkt.0[c] = sp;
        proof {
            let t = self.text();
            let b = old(self).bkt@;
            assert forall|d: int| 0 <= d < self.bkt@.len() implies {
                &&& (#[trigger] self.bkt@[d]).head == bucket_head(t, d)
                &&& self.bkt@[d].tail == bucket_head(t, d + 1)
                &&& self.bkt@[d].head <= self.bkt@[d].i <= self.bkt@[d].j <= self.bkt@[d].tail
            } by {
                assert(b[d].head == bucket_head(t, d));
            }
        }
    }

    /// Push s-character in s[i].
    #[inline]
    fn push_schar(&mut self, sa: &mut [u32], i: usize)
        requires
            old(self).wf(),
            i < old(self).s@.len(),
            old(sa).len() == old(self).s@.len() + 1,
            old(self).bkt@[old(self).text()[i as int]].i < old(self).bkt@[old(self).text()[i as int]].j,
        ensures
            final(self).wf(),
            final(self).s == old(self).s,
            final(self).ty == old(self).ty,
            final(self).bkt@ == push_back_spans(old(self).bkt@, old(self).text()[i as int]),
            final(sa)@ == old(sa)@.update(
                old(self).bkt@[old(self).text()[i as int]].j - 1,
                i as u32,
            ),
    {
        let c = to_usize(self.s[i]);
        assert(self.text()[i as int] == c);
        proof {
            lemma_bucket_head_mono(self.text(), c as int, c + 1);
        }
        let mut sp = self.bkt.0[c];
        sp.push_back(sa, i as u32);
        self.bkt.0[c] = sp;
        proof {
            let t = self.text();
            let b = old(self).bkt@;
            assert forall|d: int| 0 <= d < self.bkt@.len() implies {
                &&& (#[trigger] self.bkt@[d]).head == bucket_head(t, d)
                &&& self.bkt@[d].tail == bucket_head(t, d + 1)
                &&& self.bkt@[d].head <= self.bkt@[d].i <= self.bkt@[d].j <= self.bkt@[d].tail
            } by {
                assert(b[d].head == bucket_head(t, d));
            }
        }
    }

    /// Test if two lms-substrings are the same.
    #[inline]
    fn lms_substring_eq(&self, i: usize, j: usize) -> (r: bool)
        requires
            self.wf(),
            i <= self.s@.len(),
            j <= self.s@.len(),
        ensures
            r == keq(self.text(), i as int, j as int, true),
    {
        let ghost t = self.text();
        let n = self.len();
        let mut k: usize = 0;
        loop
            invariant
                self.wf(),
                t == self.text(),
                n == self.s@.len(),
                i + k <= n,
                j + k <= n,
                keq(t, i as int, j as int, true) == keq(t, i + k, j + k, k == 0),
            decreases n - i - k,
        {
            let a = i + k;
            let b = j + k;
            if a >= n || b >= n {
                return a == b;
            }
            let x = self.s[a].to_u32();
            let y = self.s[b].to_u32();
            assert(t[a as int] == x && t[b as int] == y);
            if x != y || self.ty.get(a) != self.ty.get(b) {
                return false;
            }
            proof {
                lemma_text_range(self.s@);
                lemma_last_is_l(t);
            }
            if k > 0 && (self.ty.is_lms(a) || self.ty.is_lms(b)) {
                return true;
            }
            k += 1;
        }
    }

    /// Place the lms-characters in their buckets, in the order of the text.
    fn seed_lms(&mut self, sa: &mut [u32]) -> (seeds: Ghost<Seq<int>>)
        requires
            old(self).wf(),
            spans_reset(old(self).bkt@),
            old(sa).len() == old(self).s@.len() + 1,
        ensures
            final(self).wf(),
            final(self).s == old(self).s,
            final(self).ty == old(self).ty,
            l_inv(final(self).text(), false, final(self).bkt@, final(sa)@, seeds@, 0),
    {
        let ghost t = self.text();
        let n = self.len();
        sa[0] = n as u32;
        let ghost mut pos = Seq::new((n + 1) as nat, |v: int| if v == n { 0int } else { -1int });
        let mut i: usize = n;
        while i > 1
            invariant
                self.wf(),
                self.s == old(self).s,
                self.ty == old(self).ty,
                t == self.text(),
                n == self.s@.len(),
                i <= n,
                placed(t, self.bkt@, sa@, pos),
                forall|v: int| 0 <= v < n && #[trigger] pos[v] >= 0 ==> is_lms(t, v) && v >= i,
                forall|v: int| i <= v < n && #[trigger] is_lms(t, v) ==> pos[v] >= 0,
            decreases i,
        {
            i -= 1;
            if self.is_lms(i) {
                proof {
                    lemma_place_back(t, self.bkt@, sa@, pos, i as int);
                    pos = pos.update(i as int, self.bkt@[t[i as int]].j - 1);
                }
                self.push_schar(sa, i);
            }
        }
        proof {
            assert forall|u: int, v: int| 0 <= u <= n && 0 <= v <= n implies #[trigger] ordered(
                t,
                false,
                false,
                pos,
                u,
                v,
            ) by {
                lemma_seeds_ordered(t, self.bkt@, sa@, pos, u, v);
            }
            lemma_seeded(t, false, self.bkt@, sa@, pos);
        }
        Ghost(pos)
    }

    /// Collect all the sorted lms-substrings into the tail of sa, and
    /// return where they begin.
    fn collect_lms(&self, sa: &mut [u32]) -> (lms_head: usize)
        requires
            self.wf(),
            old(sa).len() == self.s@.len() + 1,
            is_permutation(self.s@.len() as int, old(sa)@),
            forall|p: int, q: int|
                0 <= p < q < old(sa)@.len() ==> kle(
                    self.text(),
                    #[trigger] old(sa)@[p] as int,
                    #[trigger] old(sa)@[q] as int,
                    true,
                ),
        ensures
            final(sa).len() == old(sa).len(),
            lms_head + lms_count(self.text()) == final(sa).len(),
            lms_listed(self.text(), final(sa)@.subrange(lms_head as int, final(sa).len() as int)),
    {
        let ghost t = self.text();
        let ghost sorted = sa@;
        let n = self.len();
        let len = sa.len();
        proof {
            lemma_lms_in_perm(t, sorted);
        }
        let mut lms_head: usize = len;
        let mut i: usize = len;
        while i > 0
            invariant
                self.wf(),
                t == self.text(),
                n == self.s@.len(),
                len == n + 1,
                sa.len() == len,
                sorted.len() == len,
                i <= lms_head <= len,
                forall|p: int| 0 <= p <= n ==> #[trigger] sorted[p] <= n,
                forall|p: int, q: int|
                    0 <= p < q < len ==> kle(
                        t,
                        #[trigger] sorted[p] as int,
                        #[trigger] sorted[q] as int,
                        true,
                    ) && sorted[p] != sorted[q],
                forall|p: int| 0 <= p < i ==> sa@[p] == sorted[p],
                len - lms_head == lms_in(t, sorted, len as int) - lms_in(t, sorted, i as int),
                forall|k: int| lms_head <= k < len ==> is_lms(t, #[trigger] sa@[k] as int),
                forall|k: int|
                    lms_head <= k < len ==> #[trigger] occurs_from(sorted, i as int, sa@[k]),
                forall|p: int|
                    i <= p < len && is_lms(t, sorted[p] as int) ==> #[trigger] occurs_from(
                        sa@,
                        lms_head as int,
                        sorted[p],
                    ),
                forall|a: int, b: int|
                    lms_head <= a < b < len ==> kle(
                        t,
                        #[trigger] sa@[a] as int,
                        #[trigger] sa@[b] as int,
                        true,
                    ) && sa@[a] != sa@[b],
            decreases i,
        {
            let ghost scanned = i as int;
            i -= 1;
            let v = sa[i];
            assert(v == sorted[i as int]);
            let ghost before = sa@;
            let ghost filled = lms_head as int;
            if self.is_lms(to_usize(v)) {
                lms_head -= 1;
                sa[lms_head] = v;
                proof {
                    assert forall|k: int| lms_head <= k < len implies #[trigger] occurs_from(
                        sorted,
                        i as int,
                        sa@[k],
                    ) by {
                        if k > lms_head {
                            assert(occurs_from(sorted, scanned, before[k]));
                            lemma_occurs_from_earlier(sorted, scanned, i as int, before[k]);
                            assert(sa@[k] == before[k]);
                        } else {
                            assert(sorted[i as int] == sa@[k]);
                            assert(is_lms(t, v as int));
                        }
                    }
                    assert forall|p: int|
                        i <= p < len && is_lms(t, sorted[p] as int) implies #[trigger] occurs_from(
                        sa@,
                        lms_head as int,
                        sorted[p],
                    ) by {
                        if p > i {
                            assert(occurs_from(before, filled, sorted[p]));
                            let k = choose|k: int|
                                filled <= k < before.len() && #[trigger] before[k] == sorted[p];
                            assert(sa@[k] == sorted[p]);
                        } else {
                            assert(sa@[lms_head as int] == sorted[p]);
                        }
                    }
                    assert forall|a: int, b: int| lms_head <= a < b < len implies kle(
                        t,
                        #[trigger] sa@[a] as int,
                        #[trigger] sa@[b] as int,
                        true,
                    ) && sa@[a] != sa@[b] by {
                        if a == lms_head {
                            assert(occurs_from(sorted, scanned, before[b]));
                            let p = choose|p: int|
                                scanned <= p < sorted.len() && #[trigger] sorted[p] == before[b];
                            assert(kle(t, sorted[i as int] as int, sorted[p] as int, true));
                        } else {
                            assert(kle(t, before[a] as int, before[b] as int, true));
                        }
                    }
                }
            } else {
                proof {
                    assert(sa@ == before);
                    assert(filled == lms_head);
                    assert forall|k: int| lms_head <= k < len implies #[trigger] occurs_from(
                        sorted,
                        i as int,
                        sa@[k],
                    ) by {
                        assert(occurs_from(sorted, scanned, before[k]));
                        assert(is_lms(t, before[k] as int));
                        lemma_occurs_from_earlier(sorted, scanned, i as int, before[k]);
                        assert(occurs_from(sorted, i as int, before[k]));
                    }
                }
            }
        }
        proof {
            let xs = sa@.subrange(lms_head as int, len as int);
            assert forall|k: int| 0 <= k < xs.len() implies 0 < #[trigger] xs[k] <= t.len()
                && is_lms(t, xs[k] as int) by {
                assert(occurs_from(sorted, 0, sa@[lms_head + k]));
                lemma_text_range(self.s@);
                lemma_last_is_l(t);
            }
            assert forall|a: int, b: int| 0 <= a < b < xs.len() implies kle(
                t,
                #[trigger] xs[a] as int,
                #[trigger] xs[b] as int,
                true,
            ) && xs[a] != xs[b] by {
                assert(kle(t, sa@[lms_head + a] as int, sa@[lms_head + b] as int, true));
            }
            assert forall|v: int| 0 < v <= t.len() && is_lms(t, v) implies #[trigger] occurs_in(
                xs,
                v,
            ) by {
                assert(occurs_in(sorted, v));
                let p = choose|p: int| 0 <= p < sorted.len() && #[trigger] sorted[p] == v;
                assert(occurs_from(sa@, lms_head as int, sorted[p]));
                let k = choose|k: int| lms_head <= k < sa@.len() && #[trigger] sa@[k] == sorted[p];
                assert(xs[k - lms_head] == v);
            }
        }
        lms_head
    }

    /// Name the sorted lms-substrings: equal ones alike, and a greater
    /// one with the greater name.  The name of the lms-substring at `x` goes
    /// to the slot `x / 2` of `head`.  Returns the number of names.
    fn rename_lms(&self, head: &mut [u32], lms: &[u32]) -> (r: (u32, Ghost<Seq<int>>))
        requires
            self.wf(),
            lms_listed(self.text(), lms@),
            old(head).len() + lms.len() == self.s@.len() + 1,
        ensures
            final(head).len() == old(head).len(),
            r.1@.len() == self.s@.len() + 1,
            names_fit(self.text(), r.1@),
            r.0 + 1 <= lms.len(),
            forall|x: int|
                0 < x < self.s@.len() && is_lms(self.text(), x) ==> 0 <= #[trigger] r.1@[x] < r.0,
            forall|i: int|
                0 <= i < final(head).len() ==> #[trigger] final(head)@[i] == slot_name(
                    self.text(),
                    r.1@,
                    i,
                ),
            r.0 + 1 == lms.len() ==> lms_sorted(self.text(), lms@),
    {
        let ghost t = self.text();
        let n = self.len();
        let m = lms.len();
        proof {
            lemma_text_range(self.s@);
            lemma_listed_first(t, lms@);
            lemma_lms_density(t, n + 1);
        }
        let ghost mut name_of = Seq::new((n + 1) as nat, |v: int| -1int);

        let mut i: usize = 0;
        while i < head.len()
            invariant
                head.len() == old(head).len(),
                i <= head.len(),
                forall|k: int| 0 <= k < i ==> #[trigger] head@[k] == NIL,
            decreases head.len() - i,
        {
            head[i] = NIL;
            i += 1;
        }

        let mut scale: u32 = 0;
        let mut last = lms[0];
        let ghost mut names = seq![-1int];
        let mut k: usize = 1;
        while k < m
            invariant
                self.wf(),
                t == self.text(),
                n == self.s@.len(),
                n >= 1,
                n + 1 < u32::MAX,
                forall|i: int| 0 <= i < t.len() ==> 0 <= #[trigger] t[i],
                m == lms.len(),
                lms_listed(t, lms@),
                head.len() == old(head).len(),
                head.len() + m == n + 1,
                1 <= k <= m,
                last == lms@[k - 1],
                scale == names[k - 1] + 1,
                renamed(t, lms@, k as int, names, name_of, head@),
            decreases m - k,
        {
            let x = lms[k];
            let i = to_usize(x / 2);  // in-place trick here
            proof {
                lemma_listed_first(t, lms@);
            }
            if !self.lms_substring_eq(to_usize(last), to_usize(x)) {
                scale += 1;
            }
            proof {
                lemma_rename_step(t, lms@, k as int, names, name_of, head@, scale - 1);
                names = names.push(scale - 1);
                name_of = name_of.update(x as int, scale - 1);
            }
            head[i] = scale - 1;
            last = x;
            k += 1;
        }
        proof {
            lemma_renamed_all(t, lms@, names, name_of, head@);
            lemma_names_fit(t, lms@, names, name_of);
            if scale + 1 == m {
                lemma_all_differ(t, lms@, names);
            }
        }
        (scale, Ghost(name_of))
    }

    /// Calculate the permutation or sorted lms-characters, storing in the tail
    /// of sa. Return length and kind of result.
    fn sort_or_permut_lms(&mut self, sa: &mut [u32]) -> (r: (usize, bool))
        requires
            old(self).wf(),
            spans_reset(old(self).bkt@),
            old(sa).len() == old(self).s@.len() + 1,
        ensures
            final(self).wf(),
            final(self).s == old(self).s,
            spans_reset(final(self).bkt@),
            final(sa).len() == old(sa).len(),
            r.0 == lms_count(old(self).text()),
            2 * r.0 <= final(sa).len(),
            r.1 ==> ranks_sorted(
                old(self).text(),
                final(sa)@.subrange(final(sa).len() - r.0, final(sa).len() as int),
            ),
            !r.1 ==> lms_sorted(
                old(self).text(),
                final(sa)@.subrange(final(sa).len() - r.0, final(sa).len() as int),
            ),
        decreases old(sa)@.len(), 1int,
    {
        let ghost t = self.text();
        let n = self.len();
        proof {
            lemma_text_range(self.s@);
            lemma_lms_density(t, n + 1);
        }
        // place lms-characters in corresponding bucket first
        let seeds = self.seed_lms(sa);

        // sort lms-substrings
        self.induce_by_lms(sa, Ghost(false), seeds);

        // collect all the sorted lms-substrings into the tail of sa
        let lms_head = self.collect_lms(sa);

        // construct the sub-problem in place
        let ghost collected = sa@;
        let (head, lms) = sa.split_at_mut(lms_head);
        assert(lms@ == collected.subrange(lms_head as int, collected.len() as int));
        let (scale, name_of) = self.rename_lms(head, lms);
        let s1_tail = compact_names(head, Ghost(t), name_of, Ghost(scale as int));

        let m = lms.len();
        let ghost tail;
        let is_permut = if to_usize(scale) + 1 < m {
            // calculate the correct order of lms-suffixes in place
            let s1 = vstd::slice::slice_subrange(head, 0, s1_tail);
            let ghost t1 = text_of(s1@);
            general_sort(s1, to_usize(scale), lms);

            // finally computes a permutation here
            proof {
                let xs = lms@;
                crate::order::lemma_suffix_array_is_permutation(t1, xs);
                assert forall|a: int, b: int, u: int, v: int|
                    0 <= a < b < xs.len() && 0 < u <= t.len() && 0 < v <= t.len() && is_lms(t, u)
                        && is_lms(t, v) && #[trigger] lms_below(t, u) == #[trigger] xs[a]
                        && #[trigger] lms_below(t, v) == #[trigger] xs[b] implies suf_lt(t, u, v) by {
                    assert(suf_lt(t1, xs[a] as int, xs[b] as int));
                    crate::sais::reduce::lemma_reduced_order(t, name_of@, t1, u, v);
                }
                assert(ranks_sorted(t, xs));
                tail = xs;
            }
            true
        } else {
            // the lms-suffixes are already sorted
            proof {
                tail = lms@;
            }
            false
        };
        assert(sa@.subrange(sa@.len() - m, sa@.len() as int) =~= tail);
        (m, is_permut)
    }

    /// Induced sort the whole suffix array by sorted lms-suffixes.
    /// Or induced sort the order of lms-substrings by randomly placing
    /// lms-characters in corresponding bucket.
    fn induce_by_lms(
        &mut self,
        sa: &mut [u32],
        Ghost(by_suffix): Ghost<bool>,
        Ghost(seeds): Ghost<Seq<int>>,
    )
        requires
            old(self).wf(),
            l_inv(old(self).text(), by_suffix, old(self).bkt@, old(sa)@, seeds, 0),
        ensures
            final(self).wf(),
            final(self).s == old(self).s,
            spans_reset(final(self).bkt@),
            is_permutation(old(self).text().len() as int, final(sa)@),
            forall|p: int, q: int|
                0 <= p < q < final(sa)@.len() ==> le(
                    old(self).text(),
                    by_suffix,
                    true,
                    #[trigger] final(sa)@[p] as int,
                    #[trigger] final(sa)@[q] as int,
                ),
    {
        let ghost t = self.text();
        let ghost mut pos = seeds;
        let n = self.len();
        let scale = self.scale();
        proof {
            lemma_text_range(self.s@);
            lemma_last_is_l(t);
            lemma_count_below_none(t, n as int);
            lemma_bucket_head_end(t, scale as int, n as int);
        }

        // induce l characters by lms characters
        proof {
            lemma_push_l(t, by_suffix, self.bkt@, sa@, pos, 0, n - 1);
            pos = pos.update(n - 1, self.bkt@[t[n - 1]].i as int);
        }
        self.push_lchar(sa, n - 1);

        let mut c: usize = 0;
        while c < scale
            invariant
                self.wf(),
                self.s == old(self).s,
                self.ty == old(self).ty,
                t == self.text(),
                n == self.s@.len(),
                scale == self.bkt@.len(),
                c <= scale,
                l_inv(t, by_suffix, self.bkt@, sa@, pos, bucket_head(t, c as int)),
            decreases scale - c,
        {
            let mut i: u32 = self.bkt.0[c].head;
            while i < self.bkt.0[c].i
                invariant
                    self.wf(),
                    self.s == old(self).s,
                    self.ty == old(self).ty,
                    t == self.text(),
                    n == self.s@.len(),
                    scale == self.bkt@.len(),
                    c < scale,
                    self.bkt@[c as int].head <= i <= self.bkt@[c as int].i,
                    l_inv(t, by_suffix, self.bkt@, sa@, pos, i as int),
                decreases n + 1 - i,
            {
                assert(occupied(self.bkt@, c as int, i as int));
                let j = to_usize(sa[to_usize(i)]);
                if j > 0 && !self.is_schar(j - 1) {
                    proof {
                        lemma_push_l(t, by_suffix, self.bkt@, sa@, pos, i as int, j - 1);
                        pos = pos.update(j - 1, self.bkt@[t[j - 1]].i as int);
                    }
                    self.push_lchar(sa, j - 1);
                } else {
                    proof {
                        lemma_step_l(t, by_suffix, self.bkt@, sa@, pos, i as int, c as int);
                    }
                }
                i += 1;
            }
            proof {
                lemma_skip_l(t, by_suffix, self.bkt@, sa@, pos, c as int);
            }

            i = self.bkt.0[c].j;
            while i < self.bkt.0[c].tail
                invariant
                    self.wf(),
                    self.s == old(self).s,
                    self.ty == old(self).ty,
                    t == self.text(),
                    n == self.s@.len(),
                    scale == self.bkt@.len(),
                    c < scale,
                    self.bkt@[c as int].j <= i <= self.bkt@[c as int].tail,
                    l_inv(t, by_suffix, self.bkt@, sa@, pos, i as int),
                decreases n + 1 - i,
            {
                assert(occupied(self.bkt@, c as int, i as int));
                let j = to_usize(sa[to_usize(i)]);
                proof {
                    assert(pos[j as int] == i);
                    assert(is_lms(t, j as int));
                    lemma_push_l(t, by_suffix, self.bkt@, sa@, pos, i as int, j - 1);
                    pos = pos.update(j - 1, self.bkt@[t[j - 1]].i as int);
                }
                self.push_lchar(sa, j - 1);
                i += 1;
            }
            c += 1;
        }

        proof {
            lemma_l_to_s(t, by_suffix, self.bkt@, sa@, pos);
            pos = drop_s(t, pos);
        }
        let ghost filled = self.bkt@;
        let mut c: usize = 0;
        while c < scale
            invariant
                self.s == old(self).s,
                self.ty == old(self).ty,
                scale == self.bkt@.len(),
                filled.len() == scale,
                c <= scale,
                forall|d: int| 0 <= d < c ==> #[trigger] self.bkt@[d] == reset_back_spans(filled)[d],
                forall|d: int| c <= d < scale ==> #[trigger] self.bkt@[d] == filled[d],
            decreases scale - c,
        {
            let mut sp = self.bkt.0[c];
            sp.reset_back();
            self.bkt.0[c] = sp;
            c += 1;
        }
        assert(self.bkt@ =~= reset_back_spans(filled));

        // induce s characters by l characters
        let mut c: usize = scale;
        while c > 0
            invariant
                self.wf(),
                self.s == old(self).s,
                self.ty == old(self).ty,
                t == self.text(),
                n == self.s@.len(),
                scale == self.bkt@.len(),
                c <= scale,
                s_inv(t, by_suffix, self.bkt@, sa@, pos, bucket_head(t, c as int)),
            decreases c,
        {
            c -= 1;
            proof {
                lemma_bucket_head_mono(t, c as int, c as int);
            }
            let mut i: u32 = self.bkt.0[c].tail - 1;
            while i >= self.bkt.0[c].j
                invariant
                    self.wf(),
                    self.s == old(self).s,
                    self.ty == old(self).ty,
                    t == self.text(),
                    n == self.s@.len(),
                    scale == self.bkt@.len(),
                    c < scale,
                    1 <= self.bkt@[c as int].head,
                    self.bkt@[c as int].j - 1 <= i <= self.bkt@[c as int].tail - 1,
                    s_inv(t, by_suffix, self.bkt@, sa@, pos, i + 1),
                decreases i,
            {
                assert(occupied(self.bkt@, c as int, i as int));
                let j = to_usize(sa[to_usize(i)]);
                if j > 0 && self.is_schar(j - 1) {
                    proof {
                        lemma_push_s(t, by_suffix, self.bkt@, sa@, pos, i + 1, j - 1);
                        pos = pos.update(j - 1, self.bkt@[t[j - 1]].j - 1);
                    }
                    self.push_schar(sa, j - 1);
                } else {
                    proof {
                        lemma_step_s(t, by_suffix, self.bkt@, sa@, pos, i + 1, c as int);
                    }
                }
                i -= 1;
            }
            proof {
                lemma_skip_s(t, by_suffix, self.bkt@, sa@, pos, c as int);
            }

            i = self.bkt.0[c].i - 1;  // won't underflow
            while i >= self.bkt.0[c].head
                invariant
                    self.wf(),
                    self.s == old(self).s,
                    self.ty == old(self).ty,
                    t == self.text(),
                    n == self.s@.len(),
                    scale == self.bkt@.len(),
                    c < scale,
                    1 <= self.bkt@[c as int].head,
                    self.bkt@[c as int].head - 1 <= i <= self.bkt@[c as int].i - 1,
                    s_inv(t, by_suffix, self.bkt@, sa@, pos, i + 1),
                decreases i,
            {
                assert(occupied(self.bkt@, c as int, i as int));
                let j = to_usize(sa[to_usize(i)]);
                if j > 0 && self.is_schar(j - 1) {
                    proof {
                        lemma_push_s(t, by_suffix, self.bkt@, sa@, pos, i + 1, j - 1);
                        pos = pos.update(j - 1, self.bkt@[t[j - 1]].j - 1);
                    }
                    self.push_schar(sa, j - 1);
                } else {
                    proof {
                        lemma_step_s(t, by_suffix, self.bkt@, sa@, pos, i + 1, c as int);
                    }
                }
                i -= 1;
            }
        }

        proof {
            lemma_induced(t, by_suffix, self.bkt@, sa@, pos);
        }
        let mut c: usize = 0;
        while c < scale
            invariant
                self.wf(),
                self.s == old(self).s,
                scale == self.bkt@.len(),
                c <= scale,
                forall|d: int|
                    0 <= d < c ==> (#[trigger] self.bkt@[d]).i == self.bkt@[d].head
                        && self.bkt@[d].j == self.bkt@[d].tail,
            decreases scale - c,
        {
            let ghost before = self.bkt@;
            let mut sp = self.bkt.0[c];
            sp.reset();
            self.bkt.0[c] = sp;
            proof {
                let t = self.text();
                assert forall|d: int| 0 <= d < self.bkt@.len() implies {
                    &&& (#[trigger] self.bkt@[d]).head == bucket_head(t, d)
                    &&& self.bkt@[d].tail == bucket_head(t, d + 1)
                    &&& self.bkt@[d].head <= self.bkt@[d].i <= self.bkt@[d].j <= self.bkt@[d].tail
                } by {
                    assert(before[d].head == bucket_head(t, d));
                }
                assert forall|d: int| 0 <= d < c + 1 implies (#[trigger] self.bkt@[d]).i
                    == self.bkt@[d].head && self.bkt@[d].j == self.bkt@[d].tail by {
                    if d < c {
                        assert(before[d].i == before[d].head);
                    }
                }
            }
            c += 1;
        }
    }
}

} // verus!
