//! Suffix array of a byte string, and substring search on it.
use vstd::prelude::*;
use crate::bucket_table::{
    bucket_key, bucket_table_ok, key_below, key_count, lemma_key_below_none,
    lemma_key_count_bounds, lemma_table_entry, BUCKET_TABLE_LEN,
};
use crate::construct::utils::text_of;
use crate::order::{
    is_suffix_array, lcp_from, lemma_lcp, lemma_lcp_above, lemma_lcp_below, lemma_lcp_is,
    lemma_lex_asymmetric, lemma_lex_irreflexive, lemma_sorted_is_suffix_array,
    lemma_suffix_array_is_permutation, lex_lt, occurs_in, suf_lt,
};
use crate::packed_sa::{
    all_fit, bit_width, envelope, envelope_fault, lemma_all_fit, payload_from, unpack_from,
    well_sized, PackError, PackedSuffixArray, MAGIC_CSA4,
};
use crate::saca::{saca, MAX_LENGTH};
use vstd::bytes::spec_u32_from_le_bytes;
use crate::utils::lcp_at;
use std::ops::Range;

verus! {

/// Whether the pattern `p` stands in `s` at position `i`.
pub open spec fn occurs_at(s: Seq<u8>, p: Seq<u8>, i: int) -> bool {
    &&& 0 <= i
    &&& i + p.len() <= s.len()
    &&& s.subrange(i, i + p.len()) == p
}

/// Whether the pattern `p` stands somewhere in `s`.
pub open spec fn occurs(s: Seq<u8>, p: Seq<u8>) -> bool {
    exists|i: int| occurs_at(s, p, i)
}

/// Number of symbols that `p` shares with `s[i..]` from their starts.
pub open spec fn common_prefix(s: Seq<u8>, p: Seq<u8>, i: int) -> nat {
    lcp_from(text_of(s), i, text_of(p), 0)
}

/// Whether the suffix at `v` begins with the first symbol of `p`.
pub open spec fn agrees_on_one(t: Seq<int>, v: int, p: Seq<int>) -> bool {
    p.len() >= 1 && v < t.len() && t[v] == p[0]
}

/// Whether the suffix at `v` begins with the first two symbols of `p`, or
/// with all of `p` where that is shorter.
pub open spec fn agrees_on_two(t: Seq<int>, v: int, p: Seq<int>) -> bool {
    &&& p.len() >= 1 ==> v < t.len() && t[v] == p[0]
    &&& p.len() >= 2 ==> v + 1 < t.len() && t[v + 1] == p[1]
}

proof fn lemma_occurs_lcp(s: Seq<u8>, p: Seq<u8>, i: int)
    requires
        0 <= i <= s.len(),
    ensures
        occurs_at(s, p, i) <==> common_prefix(s, p, i) == p.len(),
        common_prefix(s, p, i) <= p.len(),
        i + common_prefix(s, p, i) <= s.len(),
        s.subrange(i, i + common_prefix(s, p, i)) == p.take(common_prefix(s, p, i) as int),
{
    let t = text_of(s);
    let tp = text_of(p);
    lemma_lcp(t, i, tp, 0);
    if occurs_at(s, p, i) {
        assert forall|k: int| i <= k < i + p.len() implies #[trigger] t[k] == tp[k - i + 0] by {
            assert(s.subrange(i, i + p.len())[k - i] == p[k - i]);
        }
        lemma_lcp_is(t, i, tp, 0, p.len() as int);
    }
    if lcp_from(t, i, tp, 0) == p.len() {
        assert forall|k: int| 0 <= k < p.len() implies s.subrange(i, i + p.len())[k] == p[k] by {
            assert(t[i + k] == tp[i + k - i + 0]);
        }
        assert(s.subrange(i, i + p.len()) =~= p);
    }
    let l = lcp_from(t, i, tp, 0) as int;
    assert forall|k: int| 0 <= k < l implies s.subrange(i, i + l)[k] == p.take(l)[k] by {
        assert(t[i + k] == tp[i + k - i + 0]);
    }
    assert(s.subrange(i, i + l) =~= p.take(l));
}

/// In a suffix array, what lies before a suffix that is below the pattern
/// is below the pattern too, and shares no more with it.
proof fn lemma_side_below(t: Seq<int>, sa: Seq<u32>, tp: Seq<int>, j: int, mid: int)
    requires
        is_suffix_array(t, sa),
        0 <= j <= mid < sa.len(),
        lex_lt(t, sa[mid] as int, tp, 0),
    ensures
        lcp_from(t, sa[j] as int, tp, 0) <= lcp_from(t, sa[mid] as int, tp, 0),
        lex_lt(t, sa[j] as int, tp, 0),
{
    let a = sa[j] as int;
    let b = sa[mid] as int;
    assert(sa[j] <= t.len() && sa[mid] <= t.len());
    lemma_lex_asymmetric(t, b, tp, 0);
    if j < mid {
        assert(suf_lt(t, a, b));
        lemma_lex_asymmetric(t, a, t, b);
        crate::order::lemma_lex_transitive(t, a, t, b, tp, 0);
    } else {
        lemma_lex_irreflexive(t, a);
    }
    lemma_lcp_below(t, a, t, b, tp, 0);
}

/// In a suffix array, what lies after a suffix that is not below the
/// pattern is not below it either, and shares no more with it.
proof fn lemma_side_above(t: Seq<int>, sa: Seq<u32>, tp: Seq<int>, j: int, mid: int)
    requires
        is_suffix_array(t, sa),
        0 <= mid <= j < sa.len(),
        !lex_lt(t, sa[mid] as int, tp, 0),
    ensures
        lcp_from(t, sa[j] as int, tp, 0) <= lcp_from(t, sa[mid] as int, tp, 0),
        !lex_lt(t, sa[j] as int, tp, 0),
{
    let a = sa[j] as int;
    let b = sa[mid] as int;
    assert(sa[j] <= t.len() && sa[mid] <= t.len());
    if mid < j {
        assert(suf_lt(t, b, a));
        lemma_lex_asymmetric(t, b, t, a);
    } else {
        lemma_lex_irreflexive(t, a);
    }
    lemma_lcp_above(t, a, t, b, tp, 0);
    if lex_lt(t, a, tp, 0) {
        crate::order::lemma_lex_le_lt(t, b, t, a, tp, 0);
    }
}

/// Between the pattern and a suffix above it that begins with the pattern,
/// every suffix begins with the pattern.
proof fn lemma_between(t: Seq<int>, sa: Seq<u32>, tp: Seq<int>, j: int, mid: int)
    requires
        is_suffix_array(t, sa),
        0 <= j <= mid < sa.len(),
        !lex_lt(t, sa[j] as int, tp, 0),
        lcp_from(t, sa[mid] as int, tp, 0) == tp.len(),
    ensures
        lcp_from(t, sa[j] as int, tp, 0) == tp.len(),
{
    let a = sa[j] as int;
    let b = sa[mid] as int;
    assert(sa[j] <= t.len() && sa[mid] <= t.len());
    if j < mid {
        assert(suf_lt(t, a, b));
        lemma_lex_asymmetric(t, a, t, b);
    } else {
        lemma_lex_irreflexive(t, a);
    }
    lemma_lcp_above(t, b, t, a, tp, 0);
    lemma_lcp(t, a, tp, 0);
}

proof fn lemma_agrees(t: Seq<int>, v: int, p: Seq<int>)
    requires
        0 <= v <= t.len(),
    ensures
        lcp_from(t, v, p, 0) >= 1 <==> agrees_on_one(t, v, p),
        p.len() >= 2 ==> (lcp_from(t, v, p, 0) >= 2 <==> agrees_on_two(t, v, p)),
        p.len() == 1 ==> (lcp_from(t, v, p, 0) >= 1 <==> agrees_on_two(t, v, p)),
{
    reveal_with_fuel(lcp_from, 3);
}

/// `Vec::shrink_to_fit`, which gives memory back.
///
/// Not proved here: that the vector holds afterwards what it held before.
#[verifier::external_body]
fn shrink_to_fit(v: &mut Vec<u32>)
    ensures
        final(v)@ == old(v)@,
{
    v.shrink_to_fit()
}

/// Why bytes were not taken for the suffix array of a string.
#[derive(Debug, Clone, Copy, PartialEq, Eq)]
pub enum LoadError {
    /// The bytes are no packed suffix array.
    Pack(PackError),
    /// The array that the bytes hold is not the suffix array of the string.
    Inconsistent,
}

/// The entries that the bytes of a packed suffix array hold.
pub open spec fn entries_of(bytes: Seq<u8>) -> Seq<u32> {
    let length = spec_u32_from_le_bytes(bytes.subrange(4, 8));
    unpack_from(bytes.skip(8), bit_width(length), length as int)
}

/// Whether `bytes` are the array `sa`, packed.
pub open spec fn is_dump_of(bytes: Seq<u8>, sa: Seq<u32>) -> bool {
    let bits = bit_width(sa.len() as u32);
    &&& sa.len() <= u32::MAX
    &&& all_fit(sa, bits)
    &&& well_sized(sa, bits)
    &&& bytes == envelope(MAGIC_CSA4, sa.len() as u32, payload_from(sa, bits, 0))
}

/// Suffix array for searching byte strings.
#[derive(Clone)]
pub struct SuffixArray<'s> {
    s: &'s [u8],
    sa: Vec<u32>,
    bkt: Option<Vec<u32>>,
}

impl<'s> SuffixArray<'s> {
    /// The byte string that the array belongs to.
    pub closed spec fn text(&self) -> Seq<u8> {
        self.s@
    }

    /// The array itself.
    pub closed spec fn array(&self) -> Seq<u32> {
        self.sa@
    }

    /// The array itself, as the vector that holds it.
    pub closed spec fn array_vec(&self) -> Vec<u32> {
        self.sa
    }

    /// Whether the bucket table has been built.
    pub closed spec fn has_buckets(&self) -> bool {
        self.bkt is Some
    }

    /// Whether the bucket table, where there is one, fits string and array.
    pub closed spec fn buckets_ok(&self) -> bool {
        self.bkt matches Some(b) ==> bucket_table_ok(text_of(self.s@), self.sa@, b@)
    }

    /// Whether the array is the suffix array of the string.
    pub open spec fn wf(&self) -> bool {
        &&& is_suffix_array(text_of(self.text()), self.array())
        &&& self.buckets_ok()
    }

    // Construct new suffix array for a byte string.
    pub fn new(s: &'s [u8]) -> (r: Self)
        requires
            s.len() <= MAX_LENGTH,
        ensures
            r.wf(),
            r.text() == s@,
            !r.has_buckets(),
    {
        let mut sa: Vec<u32> = vec![0u32; s.len() + 1];
        saca(s, sa.as_mut_slice());
        SuffixArray { s, sa, bkt: None }
    }

    // Construct suffix array in place.
    pub fn set(&mut self, s: &'s [u8])
        requires
            s.len() <= MAX_LENGTH,
        ensures
            final(self).wf(),
            final(self).text() == s@,
            !final(self).has_buckets(),
    {
        self.sa.resize(s.len() + 1, 0);
        saca(s, self.sa.as_mut_slice());
        self.s = s;
        self.bkt = None;
    }

    // Release the unused memory of suffix array.
    pub fn fit(&mut self)
        ensures
            final(self).text() == old(self).text(),
            final(self).array() == old(self).array(),
            final(self).has_buckets() == old(self).has_buckets(),
            old(self).wf() ==> final(self).wf(),
    {
        shrink_to_fit(&mut self.sa)
    }

    /// Length of the underlying byte string.
    pub fn len(&self) -> (n: usize)
        ensures
            n == self.text().len(),
    {
        self.s.len()
    }

    /// Test if the underlying byte string is empty.
    pub fn is_empty(&self) -> (b: bool)
        ensures
            b == (self.text().len() == 0),
    {
        self.len() == 0
    }

    /// Take out the suffix array and its corresponding byte string.
    pub fn into_parts(self) -> (r: (&'s [u8], Vec<u32>))
        ensures
            r.0@ == self.text(),
            r.1@ == self.array(),
    {
        (self.s, self.sa)
    }

    /// Compose existed suffix array and its corresponding byte string
    /// together, and checks the integrity.
    pub fn from_parts(s: &'s [u8], sa: Vec<u32>) -> (r: Option<Self>)
        ensures
            r is Some <==> is_suffix_array(text_of(s@), sa@),
            r matches Some(a) ==> a.wf() && a.text() == s@ && a.array() == sa@ && !a.has_buckets(),
    {
        let compose = SuffixArray { s, sa, bkt: None };
        if compose.check_integrity() {
            Some(compose)
        } else {
            None
        }
    }

    /// Compose existed suffix array and its corresponding byte string
    /// together without integrity check.
    pub fn unchecked_from_parts(s: &'s [u8], sa: Vec<u32>) -> (r: Self)
        requires
            is_suffix_array(text_of(s@), sa@),
        ensures
            r.wf(),
            r.text() == s@,
            r.array() == sa@,
            !r.has_buckets(),
    {
        SuffixArray { s, sa, bkt: None }
    }

    /// Whether the suffix at `a` comes strictly before the one at `b`.
    fn suffix_lt(&self, a: usize, b: usize) -> (r: bool)
        requires
            a <= self.s.len(),
            b <= self.s.len(),
        ensures
            r == suf_lt(text_of(self.s@), a as int, b as int),
    {
        let n = self.s.len();
        let l = lcp_at(self.s, a, self.s, b);
        proof {
            lemma_lcp(text_of(self.s@), a as int, text_of(self.s@), b as int);
        }
        b + l < n && (a + l == n || self.s[a + l] < self.s[b + l])
    }

    fn check_integrity(&self) -> (ok: bool)
        ensures
            ok == is_suffix_array(text_of(self.s@), self.sa@),
    {
        let n = self.s.len();
        proof {
            lemma_sorted_is_suffix_array(text_of(self.s@), self.sa@);
            assert(text_of(self.s@).len() == n);
        }
        let m = self.sa.len();
        if n == usize::MAX || n + 1 != m {
            return false;
        }
        if self.sa[0] as usize > n {
            return false;
        }
        let mut i: usize = 1;
        while i < self.sa.len()
            invariant
                1 <= i <= self.sa.len(),
                self.sa.len() == n + 1,
                n == self.s.len(),
                forall|k: int| 0 <= k < i ==> #[trigger] self.sa@[k] <= n,
                forall|k: int|
                    1 <= k < i ==> suf_lt(
                        text_of(self.s@),
                        self.sa@[k - 1] as int,
                        #[trigger] self.sa@[k] as int,
                    ),
            decreases self.sa.len() - i,
        {
            let x = self.sa[i - 1] as usize;
            let y = self.sa[i] as usize;
            if y > n {
                return false;
            }
            if !self.suffix_lt(x, y) {
                return false;
            }
            i += 1;
        }
        true
    }

    /// Whether `lo..hi` is the part of the array in which a search for `pat`
    /// has to look: all of it without a bucket table; with one, the
    /// suffixes that begin with the first two symbols of `pat`.
    pub closed spec fn is_bucket_of(&self, pat: Seq<u8>, lo: int, hi: int) -> bool {
        &&& 0 <= lo <= hi <= self.sa@.len()
        &&& self.bkt is None ==> lo == 0 && hi == self.sa@.len()
        &&& self.bkt is Some && pat.len() == 0 ==> lo == 0 && hi == 1
        &&& self.bkt is Some && pat.len() >= 1 ==> forall|j: int|
            0 <= j < self.sa@.len() ==> (lo <= j < hi <==> agrees_on_two(
                text_of(self.s@),
                #[trigger] self.sa@[j] as int,
                text_of(pat),
            ))
    }

    /// The same for the first symbol of `pat` alone.
    pub closed spec fn is_top_bucket_of(&self, pat: Seq<u8>, lo: int, hi: int) -> bool {
        &&& 0 <= lo <= hi <= self.sa@.len()
        &&& self.bkt is None ==> lo == 0 && hi == self.sa@.len()
        &&& self.bkt is Some && pat.len() == 0 ==> lo == 0 && hi == 1
        &&& self.bkt is Some && pat.len() >= 1 ==> forall|j: int|
            0 <= j < self.sa@.len() ==> (lo <= j < hi <==> agrees_on_one(
                text_of(self.s@),
                #[trigger] self.sa@[j] as int,
                text_of(pat),
            ))
    }

    /// Enable the internal buckets to speed up searching.
    pub fn enable_buckets(&mut self)
        requires
            old(self).wf(),
            old(self).text().len() <= MAX_LENGTH,
        ensures
            final(self).wf(),
            final(self).text() == old(self).text(),
            final(self).array() == old(self).array(),
            final(self).has_buckets(),
    {
        if self.bkt.is_some() {
            return;
        }
        let ghost t = text_of(self.s@);
        let n = self.s.len();
        let mut bkt: Vec<u32> = vec![0u32; 256 * 257 + 1];
        bkt[0] = 1;
        if n > 0 {
            let mut i: usize = 0;
            while i < n - 1
                invariant
                    n == self.s@.len(),
                    0 < n <= MAX_LENGTH,
                    t == text_of(self.s@),
                    i <= n - 1,
                    bkt@.len() == BUCKET_TABLE_LEN,
                    forall|k: int|
                        0 <= k < bkt@.len() ==> #[trigger] bkt@[k] == key_count(t, k, i as int)
                            + if k == 0 { 1int } else { 0int },
                decreases n - i,
            {
                let c0 = self.s[i];
                let c1 = self.s[i + 1];
                let idx: usize = (c0 as usize * 257) + (c1 as usize + 1) + 1;
                proof {
                    assert(t[i as int] == c0 && t[i + 1] == c1);
                    assert(bucket_key(t, i as int) == idx);
                    lemma_key_count_bounds(t, idx as int, i as int);
                }
                bkt[idx] += 1;
                i += 1;
            }
            let c0 = self.s[n - 1];
            let idx: usize = (c0 as usize * 257) + 1;
            proof {
                assert(t[n - 1] == c0);
                assert(bucket_key(t, n - 1) == idx);
                lemma_key_count_bounds(t, idx as int, n - 1);
            }
            bkt[idx] += 1;
        }
        assert forall|k: int| 0 <= k < bkt@.len() implies #[trigger] bkt@[k] == key_count(
            t,
            k,
            n + 1,
        ) by {
            reveal_with_fuel(key_count, 3);
            assert(bucket_key(t, n as int) == 0);
        }

        let ghost counts = bkt@;
        let mut sum: u32 = 0;
        let mut k: usize = 0;
        proof {
            assert forall|i: int| 0 <= i < t.len() implies 0 <= #[trigger] t[i] by {
                assert(t[i] == self.s@[i] as int);
            }
            lemma_key_below_none(t, n + 1);
        }
        while k < bkt.len()
            invariant
                n == self.s@.len(),
                n <= MAX_LENGTH,
                t == text_of(self.s@),
                bkt@.len() == BUCKET_TABLE_LEN,
                counts.len() == BUCKET_TABLE_LEN,
                k <= bkt@.len(),
                sum == key_below(t, k - 1, n + 1),
                forall|j: int| 0 <= j < counts.len() ==> #[trigger] counts[j] == key_count(t, j, n + 1),
                forall|j: int| k <= j < bkt@.len() ==> bkt@[j] == counts[j],
                forall|j: int| 0 <= j < k ==> #[trigger] bkt@[j] == key_below(t, j, n + 1),
            decreases bkt@.len() - k,
        {
            proof {
                lemma_key_count_bounds(t, k as int, n + 1);
                assert(bkt@[k as int] == counts[k as int]);
                assert(counts[k as int] == key_count(t, k as int, n + 1));
                assert(sum + bkt@[k as int] == key_below(t, k as int, n + 1));
            }
            sum += bkt[k];
            bkt[k] = sum;
            k += 1;
        }
        proof {
            assert forall|i: int| 0 <= i < t.len() implies 0 <= #[trigger] t[i] < 256 by {
                assert(t[i] == self.s@[i] as int);
            }
            assert forall|k: int, j: int| 0 <= k < bkt@.len() && 0 <= j < self.sa@.len() implies (j
                < #[trigger] bkt@[k] <==> bucket_key(t, #[trigger] self.sa@[j] as int) <= k) by {
                lemma_table_entry(t, self.sa@, k, j);
            }
            assert forall|k: int| 0 <= k < bkt@.len() implies #[trigger] bkt@[k] <= self.sa@.len() by {
                lemma_table_entry(t, self.sa@, k, 0);
            }
        }
        self.bkt = Some(bkt);
    }

    /// Get bucket of the suffix array to search the given pattern.
    #[inline]
    fn get_bucket(&self, pat: &[u8]) -> (r: Range<usize>)
        requires
            self.wf(),
        ensures
            self.is_bucket_of(pat@, r.start as int, r.end as int),
    {
        let ghost t = text_of(self.s@);
        match &self.bkt {
            Some(bkt) => {
                if pat.len() > 1 {
                    // sub-bucket (c0, c1).
                    let c0 = pat[0];
                    let c1 = pat[1];
                    let idx: usize = (c0 as usize * 257) + (c1 as usize + 1) + 1;
                    let lo = bkt[idx - 1] as usize;
                    let hi = bkt[idx] as usize;
                    proof {
                        if hi < lo {
                            assert(bucket_key(t, self.sa@[hi as int] as int) <= idx - 1);
                        }
                        assert forall|j: int| 0 <= j < self.sa@.len() implies (lo <= j < hi
                            <==> agrees_on_two(t, #[trigger] self.sa@[j] as int, text_of(pat@))) by {
                            let v = self.sa@[j] as int;
                            assert(v <= t.len());
                            assert(j < bkt@[idx as int] <==> bucket_key(t, v) <= idx);
                            assert(j < bkt@[idx - 1] <==> bucket_key(t, v) <= idx - 1);
                            if v < t.len() {
                                assert(t[v] == self.s@[v] as int);
                            }
                            if v + 1 < t.len() {
                                assert(t[v + 1] == self.s@[v + 1] as int);
                            }
                        }
                    }
                    lo..hi
                } else if pat.len() == 1 {
                    // top-level bucket (c0, $)..=(c0, 255).
                    self.get_top_bucket(pat)
                } else {
                    // the sentinel bucket.
                    0..1
                }
            },
            None => 0..self.sa.len(),
        }
    }

    /// Get top-level bucket of the suffix array to search the given pattern.
    #[inline]
    fn get_top_bucket(&self, pat: &[u8]) -> (r: Range<usize>)
        requires
            self.wf(),
        ensures
            self.is_top_bucket_of(pat@, r.start as int, r.end as int),
            pat.len() == 1 ==> self.is_bucket_of(pat@, r.start as int, r.end as int),
    {
        let ghost t = text_of(self.s@);
        match &self.bkt {
            Some(bkt) => {
                if pat.len() > 0 {
                    let c0 = pat[0];
                    let start_idx: usize = c0 as usize * 257;
                    let end_idx: usize = start_idx + 257;
                    let lo = bkt[start_idx] as usize;
                    let hi = bkt[end_idx] as usize;
                    proof {
                        if hi < lo {
                            assert(bucket_key(t, self.sa@[hi as int] as int) <= start_idx);
                        }
                        assert forall|j: int| 0 <= j < self.sa@.len() implies (lo <= j < hi
                            <==> agrees_on_one(t, #[trigger] self.sa@[j] as int, text_of(pat@))) by {
                            let v = self.sa@[j] as int;
                            assert(v <= t.len());
                            assert(j < bkt@[end_idx as int] <==> bucket_key(t, v) <= end_idx);
                            assert(j < bkt@[start_idx as int] <==> bucket_key(t, v) <= start_idx);
                            if v < t.len() {
                                assert(t[v] == self.s@[v] as int);
                            }
                            if v + 1 < t.len() {
                                assert(t[v + 1] == self.s@[v + 1] as int);
                            }
                        }
                    }
                    lo..hi
                } else {
                    0..1
                }
            },
            None => 0..self.sa.len(),
        }
    }

    /// Every suffix that begins with the pattern lies in the pattern's bucket.
    proof fn lemma_bucket_holds(&self, pat: Seq<u8>, lo: int, hi: int, j: int)
        requires
            self.wf(),
            self.is_bucket_of(pat, lo, hi),
            0 <= j < self.sa@.len(),
            pat.len() >= 1,
            lcp_from(text_of(self.s@), self.sa@[j] as int, text_of(pat), 0) >= (if pat.len()
                >= 2 {
                2int
            } else {
                1int
            }),
        ensures
            lo <= j < hi,
    {
        assert(self.sa@[j] <= text_of(self.s@).len());
        lemma_agrees(text_of(self.s@), self.sa@[j] as int, text_of(pat));
    }

    /// Test if contains given pattern.
    pub fn contains(&self, pat: &[u8]) -> (found: bool)
        requires
            self.wf(),
        ensures
            found == occurs(self.text(), pat@),
    {
        let ghost t = text_of(self.s@);
        let ghost tp = text_of(pat@);
        let n = self.s.len();
        let m = pat.len();
        let r = self.get_bucket(pat);
        let mut a = r.start;
        let mut b = r.end;
        while a < b
            invariant
                self.wf(),
                self.is_bucket_of(pat@, r.start as int, r.end as int),
                r.start <= a <= b <= r.end <= self.sa@.len(),
                n == self.s.len(),
                m == pat.len(),
                t == text_of(self.s@),
                tp == text_of(pat@),
                forall|j: int|
                    (r.start <= j < a || b <= j < r.end) ==> lcp_from(
                        t,
                        #[trigger] self.sa@[j] as int,
                        tp,
                        0,
                    ) < m,
            decreases b - a,
        {
            let mid = a + (b - a) / 2;
            let v = self.sa[mid] as usize;
            assert(self.sa@[mid as int] <= t.len());
            let l = lcp_at(self.s, v, pat, 0);
            if l == m {
                proof {
                    lemma_occurs_lcp(self.s@, pat@, v as int);
                    assert(occurs_at(self.s@, pat@, v as int));
                }
                return true;
            }
            proof {
                lemma_lcp(t, v as int, tp, 0);
                lemma_lcp(tp, 0, t, v as int);
            }
            if v + l == n || self.s[v + l] < pat[l] {
                proof {
                    if v + l < n {
                        assert(t[v + l] == self.s@[v + l] as int);
                    }
                    assert(tp[l as int] == pat@[l as int] as int);
                    assert forall|j: int| a <= j <= mid implies lcp_from(
                        t,
                        #[trigger] self.sa@[j] as int,
                        tp,
                        0,
                    ) < m by {
                        lemma_side_below(t, self.sa@, tp, j, mid as int);
                    }
                }
                a = mid + 1;
            } else {
                proof {
                    assert(t[v + l] == self.s@[v + l] as int);
                    assert(tp[l as int] == pat@[l as int] as int);
                    assert forall|j: int| mid <= j < b implies lcp_from(
                        t,
                        #[trigger] self.sa@[j] as int,
                        tp,
                        0,
                    ) < m by {
                        lemma_side_above(t, self.sa@, tp, j, mid as int);
                    }
                }
                b = mid;
            }
        }
        proof {
            lemma_suffix_array_is_permutation(t, self.sa@);
            assert forall|i: int| !occurs_at(self.s@, pat@, i) by {
                if occurs_at(self.s@, pat@, i) {
                    lemma_occurs_lcp(self.s@, pat@, i);
                    assert(occurs_in(self.sa@, i));
                    let j = choose|j: int| 0 <= j < self.sa@.len() && #[trigger] self.sa@[j] == i;
                    if m >= 1 && self.bkt is Some {
                        self.lemma_bucket_holds(pat@, r.start as int, r.end as int, j);
                    }
                    if m == 0 {
                        assert(lcp_from(t, self.sa@[0] as int, tp, 0) < 0);
                    }
                    assert(lcp_from(t, self.sa@[j] as int, tp, 0) < m);
                }
            }
        }
        false
    }

    /// How the suffix at `v` stands to the pattern: the length of their
    /// common prefix, and whether the suffix comes strictly before it.
    fn compare(&self, v: usize, pat: &[u8]) -> (r: (usize, bool))
        requires
            v <= self.s.len(),
        ensures
            r.0 == lcp_from(text_of(self.s@), v as int, text_of(pat@), 0),
            r.1 == lex_lt(text_of(self.s@), v as int, text_of(pat@), 0),
            r.0 <= pat.len(),
            v + r.0 <= self.s.len(),
            (r.0 == pat.len() && v + r.0 == self.s.len()) <==> (!lex_lt(
                text_of(self.s@),
                v as int,
                text_of(pat@),
                0,
            ) && !lex_lt(text_of(pat@), 0, text_of(self.s@), v as int)),
    {
        let l = lcp_at(self.s, v, pat, 0);
        proof {
            lemma_lcp(text_of(self.s@), v as int, text_of(pat@), 0);
            lemma_lcp(text_of(pat@), 0, text_of(self.s@), v as int);
        }
        let less = l < pat.len() && (v + l == self.s.len() || self.s[v + l] < pat[l]);
        (l, less)
    }

    /// Search for all the unsorted overlapping occurrence of given pattern.
    pub fn search_all(&self, pat: &[u8]) -> (r: &[u32])
        requires
            self.wf(),
        ensures
            forall|k: int|
                0 <= k < r@.len() ==> occurs_at(self.text(), pat@, #[trigger] r@[k] as int),
            forall|i: int| occurs_at(self.text(), pat@, i) ==> occurs_in(r@, i),
            exists|lo: int, hi: int|
                0 <= lo <= hi <= self.array().len() && r@ == #[trigger] self.array().subrange(
                    lo,
                    hi,
                ),
    {
        let ghost t = text_of(self.s@);
        let ghost tp = text_of(pat@);
        let m = pat.len();
        let range = if pat.len() > 0 {
            self.get_bucket(pat)
        } else {
            0..self.sa.len()
        };
        let lo = range.start;
        let hi = range.end;

        let mut i = lo;
        let mut k = hi;
        while i < k
            invariant
                self.wf(),
                lo <= i <= k <= hi <= self.sa@.len(),
                m == pat.len(),
                t == text_of(self.s@),
                tp == text_of(pat@),
                forall|j: int| lo <= j < i ==> lex_lt(t, #[trigger] self.sa@[j] as int, tp, 0),
                forall|j: int| k <= j < hi ==> !lex_lt(t, #[trigger] self.sa@[j] as int, tp, 0),
            decreases k - i,
        {
            let mid = i + (k - i) / 2;
            assert(self.sa@[mid as int] <= t.len());
            let (_, less) = self.compare(self.sa[mid] as usize, pat);
            if less {
                proof {
                    assert forall|j: int| i <= j <= mid implies lex_lt(
                        t,
                        #[trigger] self.sa@[j] as int,
                        tp,
                        0,
                    ) by {
                        lemma_side_below(t, self.sa@, tp, j, mid as int);
                    }
                }
                i = mid + 1;
            } else {
                proof {
                    assert forall|j: int| mid <= j < k implies !lex_lt(
                        t,
                        #[trigger] self.sa@[j] as int,
                        tp,
                        0,
                    ) by {
                        lemma_side_above(t, self.sa@, tp, j, mid as int);
                    }
                }
                k = mid;
            }
        }

        let mut j = i;
        let mut k = hi;
        while j < k
            invariant
                self.wf(),
                lo <= i <= j <= k <= hi <= self.sa@.len(),
                m == pat.len(),
                t == text_of(self.s@),
                tp == text_of(pat@),
                forall|x: int| i <= x < hi ==> !lex_lt(t, #[trigger] self.sa@[x] as int, tp, 0),
                forall|x: int| i <= x < j ==> lcp_from(t, #[trigger] self.sa@[x] as int, tp, 0) == m,
                forall|x: int| k <= x < hi ==> lcp_from(t, #[trigger] self.sa@[x] as int, tp, 0) < m,
            decreases k - j,
        {
            let mid = j + (k - j) / 2;
            assert(self.sa@[mid as int] <= t.len());
            let (l, _) = self.compare(self.sa[mid] as usize, pat);
            if l == m {
                proof {
                    assert forall|x: int| j <= x <= mid implies lcp_from(
                        t,
                        #[trigger] self.sa@[x] as int,
                        tp,
                        0,
                    ) == m by {
                        lemma_between(t, self.sa@, tp, x, mid as int);
                    }
                }
                j = mid + 1;
            } else {
                proof {
                    assert forall|x: int| mid <= x < k implies lcp_from(
                        t,
                        #[trigger] self.sa@[x] as int,
                        tp,
                        0,
                    ) < m by {
                        lemma_side_above(t, self.sa@, tp, x, mid as int);
                    }
                }
                k = mid;
            }
        }

        let r = vstd::slice::slice_subrange(self.sa.as_slice(), i, j);
        proof {
            lemma_suffix_array_is_permutation(t, self.sa@);
            assert forall|x: int| 0 <= x < r@.len() implies occurs_at(
                self.s@,
                pat@,
                #[trigger] r@[x] as int,
            ) by {
                assert(r@[x] == self.sa@[i + x]);
                assert(self.sa@[i + x] <= t.len());
                lemma_occurs_lcp(self.s@, pat@, r@[x] as int);
            }
            assert forall|v: int| occurs_at(self.s@, pat@, v) implies occurs_in(r@, v) by {
                lemma_occurs_lcp(self.s@, pat@, v);
                assert(occurs_in(self.sa@, v));
                let x = choose|x: int| 0 <= x < self.sa@.len() && #[trigger] self.sa@[x] == v;
                if m >= 1 && self.bkt is Some {
                    self.lemma_bucket_holds(pat@, lo as int, hi as int, x);
                }
                lemma_lcp(t, v, tp, 0);
                assert(i <= x < j);
                assert(r@[x - i] == v);
            }
            assert(r@ == self.sa@.subrange(i as int, j as int));
        }
        r
    }

    /// Search for a sub-string that has the longest common prefix of the
    /// given pattern.
    pub fn search_lcp(&self, pat: &[u8]) -> (r: Range<usize>)
        requires
            self.wf(),
        ensures
            r.start <= r.end <= self.text().len(),
            r.end - r.start == common_prefix(self.text(), pat@, r.start as int),
            forall|i: int|
                0 <= i <= self.text().len() ==> common_prefix(self.text(), pat@, i) <= r.end
                    - r.start,
            self.text().subrange(r.start as int, r.end as int) == pat@.take(r.end - r.start),
    {
        let ghost t = text_of(self.s@);
        let ghost tp = text_of(pat@);
        let n = self.s.len();
        let m = pat.len();
        let range = self.get_bucket(pat);
        let lo = range.start;
        let hi = range.end;
        proof {
            lemma_suffix_array_is_permutation(t, self.sa@);
        }

        if lo == hi {
            // pat.len() > 0, for any i < s.len(): lcp(pat, s[i..]) <= 1.
            let top = self.get_top_bucket(pat);
            if top.start < top.end {
                // there exists i < s.len(): lcp(pat, s[i..]) == 1.
                let i = self.sa[top.start] as usize;
                proof {
                    assert(self.sa@[top.start as int] <= t.len());
                    lemma_agrees(t, i as int, tp);
                    lemma_occurs_lcp(self.s@, pat@, i as int);
                    assert forall|v: int| 0 <= v <= n implies common_prefix(self.s@, pat@, v)
                        <= 1 by {
                        assert(occurs_in(self.sa@, v));
                        let x = choose|x: int|
                            0 <= x < self.sa@.len() && #[trigger] self.sa@[x] == v;
                        lemma_agrees(t, v, tp);
                    }
                }
                return i..i + 1;
            } else {
                // for any i < s.len(): lcp(pat, s[i..]) == 0.
                proof {
                    lemma_occurs_lcp(self.s@, pat@, n as int);
                    assert forall|v: int| 0 <= v <= n implies common_prefix(self.s@, pat@, v)
                        <= 0 by {
                        assert(occurs_in(self.sa@, v));
                        let x = choose|x: int|
                            0 <= x < self.sa@.len() && #[trigger] self.sa@[x] == v;
                        lemma_agrees(t, v, tp);
                    }
                }
                return n..n;
            }
        }

        let mut a = lo;
        let mut b = hi;
        while a < b
            invariant
                self.wf(),
                lo <= a <= b <= hi <= self.sa@.len(),
                n == self.s.len(),
                m == pat.len(),
                t == text_of(self.s@),
                tp == text_of(pat@),
                forall|j: int| lo <= j < a ==> lex_lt(t, #[trigger] self.sa@[j] as int, tp, 0),
                forall|j: int| b <= j < hi ==> lex_lt(tp, 0, t, #[trigger] self.sa@[j] as int),
            decreases b - a,
        {
            let mid = a + (b - a) / 2;
            let v = self.sa[mid] as usize;
            assert(self.sa@[mid as int] <= t.len());
            let (l, less) = self.compare(v, pat);
            if l == m && v + l == n {
                // find a suffix equals to the pattern.
                proof {
                    lemma_occurs_lcp(self.s@, pat@, v as int);
                    assert forall|i: int| 0 <= i <= n implies common_prefix(self.s@, pat@, i)
                        <= n - v by {
                        lemma_occurs_lcp(self.s@, pat@, i);
                    }
                }
                return v..n;
            } else if less {
                proof {
                    assert forall|j: int| a <= j <= mid implies lex_lt(
                        t,
                        #[trigger] self.sa@[j] as int,
                        tp,
                        0,
                    ) by {
                        lemma_side_below(t, self.sa@, tp, j, mid as int);
                    }
                }
                a = mid + 1;
            } else {
                proof {
                    assert forall|j: int| mid <= j < b implies lex_lt(
                        tp,
                        0,
                        t,
                        #[trigger] self.sa@[j] as int,
                    ) by {
                        lemma_side_above(t, self.sa@, tp, j, mid as int);
                        assert(self.sa@[j] <= t.len());
                        if j > mid {
                            assert(suf_lt(t, v as int, self.sa@[j] as int));
                            crate::order::lemma_lex_transitive(
                                tp,
                                0,
                                t,
                                v as int,
                                t,
                                self.sa@[j] as int,
                            );
                        }
                    }
                }
                b = mid;
            }
        }

        // find a position to insert the pattern.
        let start: usize;
        let len: usize;
        if a > lo && a < hi {
            let start_a = self.sa[a - 1] as usize;
            let start_b = self.sa[a] as usize;
            assert(self.sa@[a - 1] <= t.len() && self.sa@[a as int] <= t.len());
            let len_a = lcp_at(self.s, start_a, pat, 0);
            let len_b = lcp_at(self.s, start_b, pat, 0);
            if len_a > len_b {
                start = start_a;
                len = len_a;
            } else {
                start = start_b;
                len = len_b;
            }
        } else if a == lo {
            start = self.sa[a] as usize;
            assert(self.sa@[a as int] <= t.len());
            len = lcp_at(self.s, start, pat, 0);
        } else {
            start = self.sa[a - 1] as usize;
            assert(self.sa@[a - 1] <= t.len());
            len = lcp_at(self.s, start, pat, 0);
        }
        proof {
            lemma_occurs_lcp(self.s@, pat@, start as int);
            assert forall|v: int| 0 <= v <= n implies common_prefix(self.s@, pat@, v) <= len by {
                assert(occurs_in(self.sa@, v));
                let x = choose|x: int| 0 <= x < self.sa@.len() && #[trigger] self.sa@[x] == v;
                if lo <= x < a {
                    lemma_side_below(t, self.sa@, tp, x, a - 1);
                } else if a <= x < hi {
                    lemma_lex_asymmetric(tp, 0, t, self.sa@[a as int] as int);
                    lemma_side_above(t, self.sa@, tp, x, a as int);
                } else {
                    // outside the bucket: shares less than what the bucket shares
                    lemma_agrees(t, v, tp);
                    let inside = if a < hi { a as int } else { a - 1 };
                    assert(self.sa@[inside] <= t.len());
                    lemma_agrees(t, self.sa@[inside] as int, tp);
                    if a > lo && a < hi {
                        lemma_agrees(t, self.sa@[a - 1] as int, tp);
                    }
                }
            }
        }
        start..start + len
    }

    /// Dump the suffix array as bytes (without the byte string).
    pub fn dump_bytes(&self) -> (r: Result<Vec<u8>, PackError>)
        requires
            self.wf(),
            self.text().len() <= MAX_LENGTH,
        ensures
            r matches Ok(bytes) && is_dump_of(bytes@, self.array()) && envelope_fault(bytes@)
                is None,
    {
        proof {
            assert forall|i: int| 0 <= i < self.sa@.len() implies #[trigger] self.sa@[i]
                < self.sa@.len() by {
                assert(self.sa@[i] <= text_of(self.s@).len());
            }
            lemma_all_fit(self.sa@);
        }
        let psa = PackedSuffixArray::from_sa(self.sa.as_slice());
        proof {
            crate::packed_sa::lemma_envelope_round_trip(psa.length(), psa.data());
        }
        psa.dump_bytes()
    }

    /// Load suffix array from bytes without integrity check.
    pub fn unchecked_load_bytes(s: &'s [u8], bytes: &[u8]) -> (r: Result<Self, PackError>)
        requires
            envelope_fault(bytes@) is None ==> is_suffix_array(text_of(s@), entries_of(bytes@)),
        ensures
            match r {
                Ok(a) => {
                    &&& envelope_fault(bytes@) is None
                    &&& a.wf()
                    &&& a.text() == s@
                    &&& a.array() == entries_of(bytes@)
                    &&& !a.has_buckets()
                },
                Err(e) => envelope_fault(bytes@) == Some(e),
            },
    {
        match PackedSuffixArray::load_bytes(bytes) {
            Ok(psa) => {
                let sa = psa.into_sa();
                Ok(Self::unchecked_from_parts(s, sa))
            },
            Err(e) => Err(e),
        }
    }

    /// Load suffix array from bytes.
    pub fn load_bytes(s: &'s [u8], bytes: &[u8]) -> (r: Result<Self, LoadError>)
        ensures
            match r {
                Ok(a) => {
                    &&& envelope_fault(bytes@) is None
                    &&& a.wf()
                    &&& a.text() == s@
                    &&& a.array() == entries_of(bytes@)
                    &&& !a.has_buckets()
                },
                Err(LoadError::Pack(e)) => envelope_fault(bytes@) == Some(e),
                Err(LoadError::Inconsistent) => envelope_fault(bytes@) is None && !is_suffix_array(
                    text_of(s@),
                    entries_of(bytes@),
                ),
            },
            forall|sa: Seq<u32>|
                #[trigger] is_dump_of(bytes@, sa) && is_suffix_array(text_of(s@), sa) ==> (r matches Ok(
                    a,
                ) && a.array() == sa),
    {
        match PackedSuffixArray::load_bytes(bytes) {
            Ok(psa) => {
                proof {
                    assert forall|sa: Seq<u32>| #[trigger] is_dump_of(bytes@, sa) implies psa.is_packing_of(
                        sa,
                    ) by {
                        crate::packed_sa::lemma_envelope_parts(
                            sa.len() as u32,
                            payload_from(sa, bit_width(sa.len() as u32), 0),
                        );
                    }
                }
                let sa = psa.into_sa();
                let compose = SuffixArray { s, sa, bkt: None };
                if !compose.check_integrity() {
                    Err(LoadError::Inconsistent)
                } else {
                    Ok(compose)
                }
            },
            Err(e) => {
                proof {
                    assert forall|sa: Seq<u32>| #[trigger] is_dump_of(bytes@, sa) && is_suffix_array(
                        text_of(s@),
                        sa,
                    ) implies false by {
                        crate::packed_sa::lemma_dump_has_no_fault(sa);
                    }
                }
                Err(LoadError::Pack(e))
            },
        }
    }
}

impl<'s> AsRef<[u8]> for SuffixArray<'s> {
    fn as_ref(&self) -> (r: &[u8])
        ensures
            r@ == self.text(),
    {
        self.s
    }
}

impl<'s> From<SuffixArray<'s>> for Vec<u32> {
    fn from(sa: SuffixArray<'s>) -> (r: Vec<u32>) {
        sa.sa
    }
}

impl<'s> vstd::std_specs::convert::FromSpecImpl<SuffixArray<'s>> for Vec<u32> {
    open spec fn obeys_from_spec() -> bool {
        true
    }

    open spec fn from_spec(sa: SuffixArray<'s>) -> Vec<u32> {
        sa.array_vec()
    }
}

} // verus!
