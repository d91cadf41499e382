//! The bookkeeping of induced sorting: the type bitmap and the buckets.
use vstd::prelude::*;
use crate::construct::utils::{lemma_text_range, text_of, SaisChar};
use crate::sais::model::{
    bucket_head, count_below, is_s, lemma_count_below_bounds, lemma_count_below_none, sym,
};

verus! {

/// Whether bit `k` of `chunk` is set.
pub open spec fn bit_of(chunk: u32, k: u32) -> bool {
    chunk & (1u32 << k) != 0
}

proof fn lemma_bit_set(x: u32, k: u32, j: u32)
    requires
        k < 32,
        j < 32,
    ensures
        bit_of(x | (1u32 << k), j) == (j == k || bit_of(x, j)),
{
    assert(((x | (1u32 << k)) & (1u32 << j) != 0) == (j == k || (x & (1u32 << j) != 0)))
        by (bit_vector)
        requires
            k < 32,
            j < 32,
    ;
}

proof fn lemma_bit_clear(x: u32, k: u32, j: u32)
    requires
        k < 32,
        j < 32,
    ensures
        bit_of(x & !(1u32 << k), j) == (j != k && bit_of(x, j)),
{
    assert(((x & !(1u32 << k)) & (1u32 << j) != 0) == (j != k && (x & (1u32 << j) != 0)))
        by (bit_vector)
        requires
            k < 32,
            j < 32,
    ;
}

proof fn lemma_bit_const(j: u32)
    requires
        j < 32,
    ensures
        bit_of(0xffff_ffffu32, j),
        !bit_of(0u32, j),
{
    assert(0xffff_ffffu32 & (1u32 << j) != 0) by (bit_vector)
        requires
            j < 32,
    ;
    assert(0u32 & (1u32 << j) == 0) by (bit_vector);
}

/// Type bitmap of input string.
#[derive(Debug, Clone)]
pub struct Types {
    len: usize,
    map: Vec<u32>,
}

impl Types {
    /// Whether the bitmap has the chunks that its length asks for.
    pub closed spec fn wf(&self) -> bool {
        self.map@.len() * 32 >= self.len && self.map@.len() == (self.len + 31) / 32
    }

    /// The types, one per position: `true` for S-type.
    pub closed spec fn view(&self) -> Seq<bool> {
        Seq::new(
            self.len as nat,
            |i: int| bit_of(self.map@[i / 32], (i % 32) as u32),
        )
    }

    pub fn new(len: usize, t: bool) -> (r: Self)
        ensures
            r.wf(),
            r@.len() == len,
            forall|i: int| 0 <= i < len ==> r@[i] == t,
    {
        let chunks = if len % 32 == 0 {
            len / 32
        } else {
            len / 32 + 1
        };
        let map: Vec<u32> = vec![if t { u32::MAX } else { 0 }; chunks];
        let r = Types { len, map };
        proof {
            assert forall|i: int| 0 <= i < len implies r@[i] == t by {
                lemma_bit_const((i % 32) as u32);
            }
        }
        r
    }

    pub fn calculate<T>(s: &[T]) -> (r: Self) where T: SaisChar
        requires
            s.len() > 0,
        ensures
            r.wf(),
            r@.len() == s.len(),
            forall|i: int| 0 <= i < s.len() ==> r@[i] == is_s(text_of(s@), i),
    {
        let mut types = Types::new(s.len(), false);
        let ghost t = text_of(s@);
        proof {
            lemma_text_range(s@);
        }
        let mut i: usize = s.len() - 1;
        while i > 0
            invariant
                i < s.len(),
                types.wf(),
                types@.len() == s.len(),
                t == text_of(s@),
                forall|k: int| 0 <= k < s.len() ==> 0 <= #[trigger] t[k] <= u32::MAX,
                forall|k: int| i <= k < s.len() ==> types@[k] == is_s(t, k),
                forall|k: int| 0 <= k < i ==> !types@[k],
            decreases i,
        {
            i -= 1;
            let a = s[i].to_u32();
            let b = s[i + 1].to_u32();
            proof {
                assert(t[i as int] == a && t[i + 1] == b);
            }
            if a < b {
                types.set(i, true);
            } else if a == b {
                let next = types.get(i + 1);
                types.set(i, next);
            }
            proof {
                assert(sym(t, i as int) == a);
                assert(sym(t, i + 1) == b);
                assert(is_s(t, i as int) == (a < b || (a == b && is_s(t, i + 1))));
                assert(types@[i as int] == is_s(t, i as int));
            }
        }
        types
    }

    fn set(&mut self, i: usize, t: bool)
        requires
            old(self).wf(),
            i < old(self)@.len(),
        ensures
            final(self).wf(),
            final(self)@ == old(self)@.update(i as int, t),
    {
        let chunk = self.map[i / 32];
        let k: u32 = (i % 32) as u32;
        if t {
            self.map[i / 32] = chunk | (1u32 << k);
        } else {
            self.map[i / 32] = chunk & !(1u32 << k);
        }
        proof {
            assert forall|j: int| 0 <= j < self.len implies self@[j] == old(self)@.update(
                i as int,
                t,
            )[j] by {
                if j / 32 == i / 32 {
                    lemma_bit_set(chunk, k, (j % 32) as u32);
                    lemma_bit_clear(chunk, k, (j % 32) as u32);
                }
            }
            assert(self@ =~= old(self)@.update(i as int, t));
        }
    }

    /// The type of position `i`: `true` for S-type.
    pub fn get(&self, i: usize) -> (r: bool)
        requires
            self.wf(),
            i < self@.len(),
        ensures
            r == self@[i as int],
    {
        let chunk = self.map[i / 32];
        let k: u32 = (i % 32) as u32;
        chunk & (1u32 << k) != 0
    }

    pub fn is_lms(&self, i: usize) -> (r: bool)
        requires
            self.wf(),
            i <= self@.len(),
        ensures
            r == (i == self@.len() || (i > 0 && self@[i as int] && !self@[i - 1])),
    {
        if i == self.len {
            true
        } else if i == 0 {
            false
        } else {
            self.get(i) && !self.get(i - 1)
        }
    }
}

/// Non-overlapping span of suffix array with double direction pointers.
#[derive(Debug, Copy, Clone)]
pub struct Span {
    pub head: u32,
    pub tail: u32,
    pub i: u32,
    pub j: u32,
}

impl Span {
    pub fn new() -> (r: Span)
        ensures
            r == (Span { head: 0, tail: 0, i: 0, j: 0 }),
    {
        Span { head: 0, tail: 0, i: 0, j: 0 }
    }

    pub fn reset(&mut self)
        ensures
            *final(self) == (Span { i: old(self).head, j: old(self).tail, ..*old(self) }),
    {
        self.reset_front();
        self.reset_back();
    }

    pub fn reset_front(&mut self)
        ensures
            *final(self) == (Span { i: old(self).head, ..*old(self) }),
    {
        self.i = self.head;
    }

    pub fn reset_back(&mut self)
        ensures
            *final(self) == (Span { j: old(self).tail, ..*old(self) }),
    {
        self.j = self.tail;
    }

    pub fn push_front(&mut self, sa: &mut [u32], n: u32)
        requires
            old(self).i < old(sa).len(),
            old(self).i < u32::MAX,
        ensures
            final(sa)@ == old(sa)@.update(old(self).i as int, n),
            *final(self) == (Span { i: (old(self).i + 1) as u32, ..*old(self) }),
    {
        sa[self.i as usize] = n;
        self.i += 1;
    }

    pub fn push_back(&mut self, sa: &mut [u32], n: u32)
        requires
            0 < old(self).j <= old(sa).len(),
        ensures
            final(sa)@ == old(sa)@.update(old(self).j - 1, n),
            *final(self) == (Span { j: (old(self).j - 1) as u32, ..*old(self) }),
    {
        self.j -= 1;
        sa[self.j as usize] = n;
    }
}

/// Bucket of spans.
#[derive(Debug)]
pub struct Bucket(pub Vec<Span>);

impl Bucket {
    /// The spans, one per symbol of the alphabet.
    pub open spec fn view(&self) -> Seq<Span> {
        self.0@
    }

    pub fn calculate<T>(s: &[T], scale: usize) -> (r: Self) where T: SaisChar
        requires
            s.len() < u32::MAX,
            forall|i: int| 0 <= i < s.len() ==> #[trigger] text_of(s@)[i] < scale,
        ensures
            r@.len() == scale,
            forall|c: int|
                0 <= c < scale ==> (#[trigger] r@[c]) == (Span {
                    head: bucket_head(text_of(s@), c) as u32,
                    tail: bucket_head(text_of(s@), c + 1) as u32,
                    i: bucket_head(text_of(s@), c) as u32,
                    j: bucket_head(text_of(s@), c + 1) as u32,
                }),
    {
        let ghost t = text_of(s@);
        let n = s.len();
        let mut bkt: Vec<Span> = vec![Span::new(); scale];
        proof {
            lemma_text_range(s@);
        }

        let mut k: usize = 0;
        while k < n
            invariant
                k <= n,
                n == s.len(),
                n < u32::MAX,
                t == text_of(s@),
                bkt@.len() == scale,
                forall|i: int| 0 <= i < n ==> 0 <= #[trigger] t[i] < scale,
                forall|c: int|
                    0 <= c < scale ==> (#[trigger] bkt@[c]) == (Span {
                        head: 0,
                        tail: (count_below(t, c + 1, k as int) - count_below(t, c, k as int)) as u32,
                        i: 0,
                        j: 0,
                    }),
            decreases n - k,
        {
            let c = to_usize(s[k]);
            assert(t[k as int] == c);
            proof {
                assert forall|d: int| 0 <= d <= scale implies 0 <= #[trigger] count_below(
                    t,
                    d,
                    k as int,
                ) <= count_below(t, d + 1, k as int) <= k by {
                    lemma_count_below_bounds(t, d, k as int);
                    lemma_count_below_bounds(t, d + 1, k as int);
                }
                assert(count_below(t, c as int, k as int) <= count_below(t, c + 1, k as int) <= k);
            }
            let mut sp = bkt[c];
            sp.tail += 1;
            bkt[c] = sp;
            k += 1;
        }

        let mut offset: u32 = 1;
        let mut c: usize = 0;
        proof {
            lemma_count_below_none(t, n as int);
        }
        while c < scale
            invariant
                c <= scale,
                n == s.len(),
                n < u32::MAX,
                t == text_of(s@),
                bkt@.len() == scale,
                offset == bucket_head(t, c as int),
                forall|i: int| 0 <= i < n ==> 0 <= #[trigger] t[i] < scale,
                forall|d: int|
                    c <= d < scale ==> (#[trigger] bkt@[d]) == (Span {
                        head: 0,
                        tail: (count_below(t, d + 1, n as int) - count_below(t, d, n as int)) as u32,
                        i: 0,
                        j: 0,
                    }),
                forall|d: int|
                    0 <= d < c ==> (#[trigger] bkt@[d]) == (Span {
                        head: bucket_head(t, d) as u32,
                        tail: bucket_head(t, d + 1) as u32,
                        i: bucket_head(t, d) as u32,
                        j: bucket_head(t, d + 1) as u32,
                    }),
            decreases scale - c,
        {
            proof {
                lemma_count_below_bounds(t, c as int, n as int);
                lemma_count_below_bounds(t, c + 1, n as int);
            }
            let mut sp = bkt[c];
            sp.head += offset;
            offset += sp.tail;
            sp.tail += sp.head;
            sp.reset();
            bkt[c] = sp;
            c += 1;
        }
        Bucket(bkt)
    }

    pub fn len(&self) -> (n: usize)
        ensures
            n == self@.len(),
    {
        self.0.len()
    }
}

/// Convert integers to u32.
pub fn to_usize<T: SaisChar>(x: T) -> (r: usize)
    ensures
        r == x.code(),
{
    x.to_u32() as usize
}

} // verus!
