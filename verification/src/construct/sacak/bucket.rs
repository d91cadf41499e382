//! The bucket array of the byte level.
use vstd::prelude::*;
use crate::construct::sacak::EMPTY;
use crate::construct::utils::text_of;
use crate::sais::model::{
    bucket_head, count_below, lemma_count_below_bounds, lemma_count_below_none,
};
use crate::sais::state::{in_back, push_back_spans, push_front_spans};
use crate::sais::utils::Span;

verus! {

/// Whether `p` lies in the back part of one of the first `upto` buckets.
pub open spec fn in_back_below(b: Seq<Span>, upto: int, p: int) -> bool
    decreases upto,
{
    if upto <= 0 {
        false
    } else {
        in_back_below(b, upto - 1, p) || in_back(b, upto - 1, p)
    }
}

/// A place lies in the back part of one of the buckets exactly if it lies in
/// that of some bucket.
pub proof fn lemma_in_back_below(b: Seq<Span>, upto: int, p: int)
    ensures
        in_back_below(b, upto, p) <==> exists|c: int| 0 <= c < upto && #[trigger] in_back(b, c, p),
    decreases upto,
{
    if upto > 0 {
        lemma_in_back_below(b, upto - 1, p);
        if in_back(b, upto - 1, p) {
        }
        if exists|c: int| 0 <= c < upto && #[trigger] in_back(b, c, p) {
            let c = choose|c: int| 0 <= c < upto && #[trigger] in_back(b, c, p);
            if c < upto - 1 {
                assert(in_back(b, c, p));
            }
        }
    }
}

/// Bucket array with bi-directional pointers.
pub struct Bucket {
    bounds: [u32; 257],
    ps: [u32; 256],
    qs: [u32; 256],
}

impl Bucket {
    /// The buckets with their pointers: for each byte where its bucket begins
    /// and ends, and how far it is filled from either end.
    pub closed spec fn spans(&self) -> Seq<Span> {
        Seq::new(
            256,
            |c: int|
                Span { head: self.bounds@[c], tail: self.bounds@[c + 1], i: self.ps@[c], j: self.qs@[c] },
        )
    }

    /// Whether the bounds are those of the buckets of `s`.
    pub closed spec fn wf(&self, s: Seq<u8>) -> bool {
        forall|c: int| 0 <= c <= 256 ==> #[trigger] self.bounds@[c] == bucket_head(text_of(s), c)
    }

    /// The bounds of a well-formed bucket array.
    pub proof fn lemma_spans(&self, s: Seq<u8>)
        requires
            self.wf(s),
        ensures
            self.spans().len() == 256,
            forall|c: int|
                0 <= c < 256 ==> (#[trigger] self.spans()[c]).head == bucket_head(text_of(s), c)
                    && self.spans()[c].tail == bucket_head(text_of(s), c + 1),
    {
        assert forall|c: int| 0 <= c < 256 implies (#[trigger] self.spans()[c]).head == bucket_head(
            text_of(s),
            c,
        ) && self.spans()[c].tail == bucket_head(text_of(s), c + 1) by {
            assert(self.bounds@[c] == bucket_head(text_of(s), c));
            assert(self.bounds@[c + 1] == bucket_head(text_of(s), c + 1));
        }
    }

    /// Construct the bucket array.
    #[inline]
    pub fn compute(s: &[u8]) -> (bkt: Box<Self>)
        requires
            s.len() < u32::MAX,
        ensures
            bkt.wf(s@),
            forall|c: int|
                0 <= c < 256 ==> (#[trigger] bkt.spans()[c]).i == bkt.spans()[c].head
                    && bkt.spans()[c].j == bkt.spans()[c].tail,
    {
        let ghost t = text_of(s@);
        let n = s.len();
        let mut bkt = Box::new(Bucket { bounds: [0; 257], ps: [0; 256], qs: [0; 256] });

        let mut k: usize = 0;
        while k < n
            invariant
                k <= n,
                n == s.len(),
                n < u32::MAX,
                t == text_of(s@),
                forall|c: int|
                    0 <= c < 257 ==> #[trigger] bkt.bounds@[c] == count_below(t, c + 1, k as int)
                        - count_below(t, c, k as int),
            decreases n - k,
        {
            let ch = s[k] as usize;
            proof {
                assert(t[k as int] == ch);
                lemma_count_below_bounds(t, ch as int, k as int);
                lemma_count_below_bounds(t, ch + 1, k as int);
            }
            bkt.bounds[ch] += 1;
            k += 1;
        }

        let mut sum: u32 = 1;
        let mut c: usize = 0;
        proof {
            assert forall|i: int| 0 <= i < t.len() implies 0 <= #[trigger] t[i] by {
                assert(t[i] == s@[i] as int);
            }
            lemma_count_below_none(t, n as int);
        }
        while c < 257
            invariant
                c <= 257,
                n == s.len(),
                n < u32::MAX,
                t == text_of(s@),
                sum == bucket_head(t, c as int),
                forall|d: int|
                    c <= d < 257 ==> #[trigger] bkt.bounds@[d] == count_below(t, d + 1, n as int)
                        - count_below(t, d, n as int),
                forall|d: int| 0 <= d < c ==> #[trigger] bkt.bounds@[d] == bucket_head(t, d),
            decreases 257 - c,
        {
            proof {
                lemma_count_below_bounds(t, c as int, n as int);
                lemma_count_below_bounds(t, c + 1, n as int);
            }
            let count = bkt.bounds[c];
            bkt.bounds[c] = sum;
            sum += count;
            c += 1;
        }
        bkt.reset_l_ptrs();
        bkt.reset_s_ptrs();
        bkt
    }

    /// Insert l-type characters in corresponding bucket head.
    #[inline]
    pub fn insert_head(&mut self, s: &[u8], sa: &mut [u32], i: usize)
        requires
            i < s.len(),
            i < u32::MAX,
            old(self).spans()[s@[i as int] as int].i < old(sa).len(),
            old(self).spans()[s@[i as int] as int].i < u32::MAX,
        ensures
            final(self).wf(s@) == old(self).wf(s@),
            final(self).spans() == push_front_spans(old(self).spans(), s@[i as int] as int),
            final(sa)@ == old(sa)@.update(old(self).spans()[s@[i as int] as int].i as int, i as u32),
    {
        let c = s[i] as usize;
        assert(self.spans()[c as int].i == self.ps@[c as int]);
        sa[self.ps[c] as usize] = i as u32;
        self.ps[c] += 1;
        assert(self.spans() =~= push_front_spans(old(self).spans(), c as int));
    }

    /// Insert s-type characters in corresponding bucket tail.
    #[inline]
    pub fn insert_tail(&mut self, s: &[u8], sa: &mut [u32], i: usize)
        requires
            i < s.len(),
            i < u32::MAX,
            0 < old(self).spans()[s@[i as int] as int].j <= old(sa).len(),
        ensures
            final(self).wf(s@) == old(self).wf(s@),
            final(self).spans() == push_back_spans(old(self).spans(), s@[i as int] as int),
            final(sa)@ == old(sa)@.update(old(self).spans()[s@[i as int] as int].j - 1, i as u32),
    {
        let c = s[i] as usize;
        assert(self.spans()[c as int].j == self.qs@[c as int]);
        self.qs[c] -= 1;
        sa[self.qs[c] as usize] = i as u32;
        assert(self.spans() =~= push_back_spans(old(self).spans(), c as int));
    }

    /// Clear content of all the bucket tails and reset all the s-pointers.
    #[inline]
    pub fn clear_tails(&mut self, sa: &mut [u32])
        requires
            forall|c: int|
                0 <= c < 256 ==> (#[trigger] old(self).spans()[c]).j <= old(self).spans()[c].tail
                    <= old(sa).len(),
        ensures
            final(sa).len() == old(sa).len(),
            forall|s: Seq<u8>| final(self).wf(s) == old(self).wf(s),
            forall|c: int|
                0 <= c < 256 ==> (#[trigger] final(self).spans()[c]) == (Span {
                    j: old(self).spans()[c].tail,
                    ..old(self).spans()[c]
                }),
            forall|p: int|
                0 <= p < old(sa).len() ==> #[trigger] final(sa)@[p] == (if in_back_below(
                    old(self).spans(),
                    256,
                    p,
                ) {
                    EMPTY
                } else {
                    old(sa)@[p]
                }),
    {
        let ghost b = self.spans();
        let mut c: usize = 0;
        while c < 256
            invariant
                c <= 256,
                *self == *old(self),
                b == self.spans(),
                sa.len() == old(sa).len(),
                forall|d: int| 0 <= d < 256 ==> (#[trigger] b[d]).j <= b[d].tail <= sa.len(),
                forall|p: int|
                    0 <= p < sa.len() ==> #[trigger] sa@[p] == (if in_back_below(b, c as int, p) {
                        EMPTY
                    } else {
                        old(sa)@[p]
                    }),
            decreases 256 - c,
        {
            let t = self.get_tail_ptr(c as u8);
            let q = self.get_s_ptr(c as u8);
            let ghost before = sa@;
            assert(b[c as int].j <= b[c as int].tail);
            let mut p: usize = q;
            while p < t
                invariant
                    q <= p <= t <= sa.len(),
                    sa.len() == old(sa).len(),
                    forall|x: int| 0 <= x < sa.len() && !(q <= x < p) ==> sa@[x] == before[x],
                    forall|x: int| q <= x < p ==> sa@[x] == EMPTY,
                decreases t - p,
            {
                sa[p] = EMPTY;
                p += 1;
            }
            proof {
                assert forall|p: int| 0 <= p < sa.len() implies #[trigger] sa@[p] == (
                if in_back_below(b, c + 1, p) {
                    EMPTY
                } else {
                    old(sa)@[p]
                }) by {
                    assert(in_back_below(b, c + 1, p) == (in_back_below(b, c as int, p) || in_back(
                        b,
                        c as int,
                        p,
                    )));
                    assert(in_back(b, c as int, p) == (q <= p < t));
                    assert(before[p] == (if in_back_below(b, c as int, p) {
                        EMPTY
                    } else {
                        old(sa)@[p]
                    }));
                }
            }
            c += 1;
        }
        self.reset_s_ptrs();
    }

    /// Get the bucket tail.
    #[inline]
    pub fn get_tail_ptr(&self, c: u8) -> (r: usize)
        ensures
            r == self.spans()[c as int].tail,
    {
        self.bounds[c as usize + 1] as usize
    }

    /// Get the l-pointer.
    #[inline]
    pub fn get_l_ptr(&self, c: u8) -> (r: usize)
        ensures
            r == self.spans()[c as int].i,
    {
        self.ps[c as usize] as usize
    }

    /// Get the s-pointer.
    #[inline]
    pub fn get_s_ptr(&self, c: u8) -> (r: usize)
        ensures
            r == self.spans()[c as int].j,
    {
        self.qs[c as usize] as usize
    }

    /// Reset all the l-pointers.
    #[inline]
    pub fn reset_l_ptrs(&mut self)
        ensures
            forall|s: Seq<u8>| final(self).wf(s) == old(self).wf(s),
            forall|c: int|
                0 <= c < 256 ==> (#[trigger] final(self).spans()[c]) == (Span {
                    i: old(self).spans()[c].head,
                    ..old(self).spans()[c]
                }),
    {
        let mut c: usize = 0;
        while c < 256
            invariant
                c <= 256,
                self.bounds == old(self).bounds,
                self.qs == old(self).qs,
                forall|d: int| 0 <= d < c ==> self.ps@[d] == self.bounds@[d],
            decreases 256 - c,
        {
            self.ps[c] = self.bounds[c];
            c += 1;
        }
    }

    /// Reset all the s-pointers.
    #[inline]
    pub fn reset_s_ptrs(&mut self)
        ensures
            forall|s: Seq<u8>| final(self).wf(s) == old(self).wf(s),
            forall|c: int|
                0 <= c < 256 ==> (#[trigger] final(self).spans()[c]) == (Span {
                    j: old(self).spans()[c].tail,
                    ..old(self).spans()[c]
                }),
    {
        let mut c: usize = 0;
        while c < 256
            invariant
                c <= 256,
                self.bounds == old(self).bounds,
                self.ps == old(self).ps,
                forall|d: int| 0 <= d < c ==> self.qs@[d] == self.bounds@[d + 1],
            decreases 256 - c,
        {
            self.qs[c] = self.bounds[c + 1];
            c += 1;
        }
    }
}

} // verus!
