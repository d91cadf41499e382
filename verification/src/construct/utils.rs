//! Symbols of the strings that the constructions sort.
use vstd::prelude::*;
use crate::sais::reduce::is_reduced;
use crate::construct::lms::{ceq, lemma_ceq_run, lemma_keq_is_ceq, lemma_run_type};
use crate::order::{is_permutation, is_suffix_array, occurs_in, suf_lt};
use crate::sais::model::{is_lms, is_s, lemma_last_is_l};
use crate::sais::naming::{
    compact_names, lemma_all_differ, lemma_listed_first, lemma_names_fit, lemma_rank_strict,
    lemma_rename_step, lemma_renamed_all, lms_listed, lms_sorted, renamed, slot_name, NIL,
};
use crate::sais::reduce::{
    keq, lemma_lms_below_gap, lemma_lms_below_mono, lemma_lms_density, lemma_reduced_order,
    lms_below, lms_count, names_fit,
};

verus! {

/// A symbol of a string to be suffix-sorted.
///
/// Symbols are ordered by their `code`, a number that fits in 32 bits.
pub trait SaisChar: Copy {
    /// The number that orders this symbol among the others.
    spec fn code(self) -> int;

    /// Codes are 32-bit numbers.
    proof fn lemma_code_range(self)
        ensures
            0 <= self.code() <= u32::MAX,
    ;

    /// The smallest symbol.
    fn zero() -> (r: Self)
        ensures
            r.code() == 0,
    ;

    /// The symbol's code as a machine word.
    fn to_u32(self) -> (r: u32)
        ensures
            r as int == self.code(),
    ;
}

impl SaisChar for u8 {
    open spec fn code(self) -> int {
        self as int
    }

    proof fn lemma_code_range(self) {
    }

    #[inline]
    fn zero() -> (r: u8) {
        0
    }

    #[inline]
    fn to_u32(self) -> (r: u32) {
        self as u32
    }
}

impl SaisChar for u32 {
    open spec fn code(self) -> int {
        self as int
    }

    proof fn lemma_code_range(self) {
    }

    #[inline]
    fn zero() -> (r: u32) {
        0
    }

    #[inline]
    fn to_u32(self) -> (r: u32) {
        self
    }
}

/// The string `s` as the sequence of its symbols' codes.
pub open spec fn text_of<T: SaisChar>(s: Seq<T>) -> Seq<int> {
    Seq::new(s.len(), |i: int| s[i].code())
}

/// Every symbol's code is a 32-bit number.
pub proof fn lemma_text_range<T: SaisChar>(s: Seq<T>)
    ensures
        text_of(s).len() == s.len(),
        forall|i: int| 0 <= i < s.len() ==> 0 <= #[trigger] text_of(s)[i] <= u32::MAX,
{
    assert forall|i: int| 0 <= i < s.len() implies 0 <= #[trigger] text_of(s)[i] <= u32::MAX by {
        s[i].lemma_code_range();
    }
}

/// A scan of the LMS positions of a string, from its end to its start.
pub struct LmsScan {
    below: usize,
    t: bool,
    sentinel: bool,
}

impl LmsScan {
    /// The position below which the scan has yet to look.
    pub closed spec fn bound(&self, n: int) -> int {
        if self.sentinel {
            n + 1
        } else {
            self.below as int
        }
    }

    /// Whether the scan is one of the string `t`.
    pub closed spec fn wf(&self, t: Seq<int>) -> bool {
        &&& t.len() >= 1
        &&& self.below < t.len()
        &&& self.sentinel ==> self.below == t.len() - 1
        &&& self.t == is_s(t, self.below as int)
    }

    /// The next LMS position, going down, with its symbol; for the end of
    /// the string the smallest symbol stands.
    pub fn next<T: SaisChar>(&mut self, s: &[T]) -> (r: Option<(usize, T)>)
        requires
            old(self).wf(text_of(s@)),
        ensures
            final(self).wf(text_of(s@)),
            0 <= final(self).bound(s.len() as int),
            match r {
                Some((i, c)) => {
                    &&& 0 < i <= s.len()
                    &&& final(self).bound(s.len() as int) <= i < old(self).bound(s.len() as int)
                    &&& is_lms(text_of(s@), i as int)
                    &&& c.code() == (if i < s.len() { text_of(s@)[i as int] } else { 0 })
                    &&& forall|v: int|
                        final(self).bound(s.len() as int) <= v < old(self).bound(s.len() as int)
                            && v != i ==> !#[trigger] is_lms(text_of(s@), v)
                },
                None => {
                    &&& final(self).bound(s.len() as int) <= 1
                    &&& forall|v: int|
                        0 < v < old(self).bound(s.len() as int) ==> !#[trigger] is_lms(
                            text_of(s@),
                            v,
                        )
                },
            },
    {
        let ghost t = text_of(s@);
        proof {
            lemma_text_range(s@);
            lemma_last_is_l(t);
        }
        if self.sentinel {
            self.sentinel = false;
            return Some((s.len(), SaisChar::zero()));
        }
        while self.below > 1
            invariant
                self.wf(t),
                !self.sentinel,
                !old(self).sentinel,
                t == text_of(s@),
                self.below <= old(self).below,
                forall|i: int| 0 <= i < t.len() ==> 0 <= #[trigger] t[i],
                forall|v: int| self.below <= v < old(self).below ==> !#[trigger] is_lms(t, v),
            decreases self.below,
        {
            let i = self.below - 1;
            let l = s[i - 1].to_u32();
            let c = s[i].to_u32();
            let r = s[i + 1].to_u32();
            assert(t[i - 1] == l && t[i as int] == c && t[i + 1] == r);
            if c < r {
                self.t = true;
            } else if c > r {
                self.t = false;
            }
            self.below = i;
            assert(self.t == is_s(t, i as int));
            assert(is_lms(t, i as int) == (l > c && self.t));
            if l > c && self.t {
                assert(s@[i as int].code() == t[i as int]);
                return Some((i, s[i]));
            }
        }
        None
    }
}

/// Visit all the lms-suffixes (index, char) in reversed order.
/// Note that the index may equals to s.len() if sentinel enabled.
/// Length of the string must be greater than zero.
#[inline]
pub fn for_each_lms<T>(s: &[T], sentinel: bool) -> (scan: LmsScan) where T: SaisChar
    requires
        s.len() > 0,
    ensures
        scan.wf(text_of(s@)),
        scan.bound(s.len() as int) == (if sentinel { s.len() + 1 } else { s.len() - 1 }),
{
    proof {
        lemma_text_range(s@);
        lemma_last_is_l(text_of(s@));
    }
    LmsScan { below: s.len() - 1, t: false, sentinel }
}

/// Test lms substring equality.
/// s[i..] and s[j..] must be lms substrings.
#[inline]
pub fn lms_substr_eq<T: SaisChar>(s: &[T], i: usize, j: usize) -> (r: bool)
    requires
        0 < i <= s.len(),
        0 < j <= s.len(),
        is_lms(text_of(s@), i as int),
        is_lms(text_of(s@), j as int),
    ensures
        r == keq(text_of(s@), i as int, j as int, true),
{
    let ghost t = text_of(s@);
    let n = s.len();
    let (lo, hi) = if i > j { (j, i) } else { (i, j) };
    proof {
        lemma_text_range(s@);
        lemma_last_is_l(t);
        lemma_keq_is_ceq(t, lo as int, hi as int, true);
        assert(keq(t, i as int, j as int, true) == keq(t, lo as int, hi as int, true));
    }
    if lo == hi {
        proof {
            crate::sais::reduce::lemma_kle_refl(t, lo as int, true);
        }
        return true;
    }
    // compare s-type part and the peak part

    if hi == n || s[lo].to_u32() != s[hi].to_u32() {
        assert(hi < n ==> t[lo as int] != t[hi as int]);
        return false;
    }
    assert(t[lo as int] == t[hi as int]);
    let mut last = s[lo].to_u32();
    let mut a = lo + 1;
    let mut b = hi + 1;
    while b < n && s[a].to_u32() >= last
        invariant
            n == s.len(),
            t == text_of(s@),
            forall|i: int| 0 <= i < t.len() ==> 0 <= #[trigger] t[i],
            0 < a < b <= n,
            last == t[a - 1],
            t[a - 1] == t[b - 1],
            ceq(t, lo as int, hi as int, true) == ceq(t, a as int, b as int, false),
            keq(t, i as int, j as int, true) == ceq(t, lo as int, hi as int, true),
        decreases n - b,
    {
        assert(t[a as int] == s@[a as int].code() && t[b as int] == s@[b as int].code());
        if s[a].to_u32() != s[b].to_u32() {
            return false;
        }
        proof {
            // in the ascent neither position follows a greater symbol
            assert(!is_lms(t, a as int));
            assert(!is_lms(t, b as int));
        }
        last = s[a].to_u32();
        a += 1;
        b += 1;
    }
    proof {
        if b < n {
            assert(t[a as int] == s@[a as int].code());
        }
    }

    // compare remaining l-type part until the valley
    while b < n
        invariant
            n == s.len(),
            t == text_of(s@),
            forall|i: int| 0 <= i < t.len() ==> 0 <= #[trigger] t[i],
            0 < a < b <= n,
            t[a - 1] == t[b - 1],
            b < n ==> t[a - 1] > t[a as int],
            ceq(t, lo as int, hi as int, true) == ceq(t, a as int, b as int, false),
            keq(t, i as int, j as int, true) == ceq(t, lo as int, hi as int, true),
        decreases n - b,
    {
        let (p0, n0, t0) = peek(s, a);
        let (p1, n1, t1) = peek(s, b);
        proof {
            lemma_run_type(t, a as int, n0 as int);
            lemma_run_type(t, b as int, n1 as int);
            assert(is_s(t, a as int) == t0);
            assert(is_s(t, b as int) == t1);
            assert(!is_s(t, a - 1));
        }
        if p0.to_u32() != p1.to_u32() || t0 != t1 {
            proof {
                if t[a as int] == t[b as int] {
                    assert(!is_s(t, b - 1));
                }
            }
            return false;
        }
        assert(!is_s(t, b - 1));
        if t0 {
            // until the nearest lms character, they are the same
            return true;
        }
        let ghost k = if n0 < n1 { n0 as int } else { n1 as int };
        proof {
            assert forall|x: int| a <= x < a + k implies #[trigger] t[x] == t[x - a + b] by {
                assert(t[x] == t[a as int]);
                assert(t[x - a + b] == t[b as int]);
            }
            assert forall|x: int| a <= x < a + k implies !#[trigger] is_lms(t, x) by {
                assert(!is_s(t, x));
            }
            assert forall|x: int| b <= x < b + k implies !#[trigger] is_lms(t, x) by {
                assert(!is_s(t, x));
            }
            lemma_ceq_run(t, a as int, b as int, k);
        }
        if n0 != n1 {
            proof {
                if a + k < n && b + k < n {
                    assert(t[a + k] != t[b + k]);
                }
            }
            return false;
        }
        proof {
            assert(t[a + k - 1] == t[a as int]);
            assert(t[b + k - 1] == t[b as int]);
        }
        a += n0;
        b += n1;
    }
    false
}

/// Get (value, length, type) of the maximum slice since i, that all the
/// elements in this slice are the same.
#[inline]
fn peek<T: SaisChar>(s: &[T], i: usize) -> (r: (T, usize, bool))
    requires
        i < s.len(),
    ensures
        r.0.code() == text_of(s@)[i as int],
        0 < r.1,
        i + r.1 <= s.len(),
        forall|x: int| i <= x < i + r.1 ==> #[trigger] text_of(s@)[x] == text_of(s@)[i as int],
        i + r.1 == s.len() || text_of(s@)[i + r.1] != text_of(s@)[i as int],
        r.2 == (i + r.1 < s.len() && text_of(s@)[i + r.1] > text_of(s@)[i as int]),
{
    let ghost t = text_of(s@);
    let p = s[i];
    assert(t[i as int] == p.code());
    let mut n: usize = 1;
    while i + n < s.len()
        invariant
            t == text_of(s@),
            0 < n,
            i + n <= s.len(),
            p.code() == t[i as int],
            forall|x: int| i <= x < i + n ==> #[trigger] t[x] == t[i as int],
        decreases s.len() - i - n,
    {
        assert(t[i + n] == s@[i + n].code());
        if s[i + n].to_u32() > p.to_u32() {
            return (p, n, true);
        } else if s[i + n].to_u32() < p.to_u32() {
            return (p, n, false);
        }
        n += 1;
    }
    (p, n, false)
}

/// A way to sort the suffixes of a string of integers below `k`, given for
/// the strings of names that the constructions reduce their strings to.
/// The sort may use the string as its workspace.
pub trait SubSorter {
    fn sort(s: &mut [u32], k: usize, sa: &mut [u32])
        requires
            old(s).len() + 1 == old(sa).len(),
            old(s).len() <= 0x7fff_ffff,
            k <= old(s).len(),
            forall|i: int| 0 <= i < old(s).len() ==> #[trigger] old(s)@[i] < k,
        ensures
            final(s).len() == old(s).len(),
            final(sa).len() == old(sa).len(),
            is_suffix_array(text_of(old(s)@), final(sa)@),
    ;
}

/// Name the sorted lms substrings in `tail`, a greater one with the greater
/// name; the name of the one at `i` goes to `head[i / 2]`.  Returns the
/// number of names.
fn rename_substrs<T: SaisChar>(s: &[T], head: &mut [u32], tail: &[u32]) -> (r: (
    usize,
    Ghost<Seq<int>>,
))
    requires
        s.len() >= 1,
        s.len() + 1 < u32::MAX,
        lms_listed(text_of(s@), tail@),
        old(head).len() + tail.len() == s.len() + 1,
    ensures
        final(head).len() == old(head).len(),
        r.1@.len() == s.len() + 1,
        names_fit(text_of(s@), r.1@),
        r.0 + 1 <= tail.len(),
        forall|x: int|
            0 < x < s.len() && is_lms(text_of(s@), x) ==> 0 <= #[trigger] r.1@[x] < r.0,
        forall|i: int|
            0 <= i < final(head).len() ==> #[trigger] final(head)@[i] == slot_name(
                text_of(s@),
                r.1@,
                i,
            ),
        r.0 + 1 == tail.len() ==> lms_sorted(text_of(s@), tail@),
{
    let ghost t = text_of(s@);
    let n = s.len();
    let m = tail.len();
    proof {
        lemma_text_range(s@);
        lemma_listed_first(t, tail@);
        lemma_lms_density(t, n + 1);
    }
    let ghost mut name_of = Seq::new((n + 1) as nat, |v: int| -1int);

    let mut i: usize = 0;
    while i < head.len()
        invariant
            head.len() == old(head).len(),
            i <= head.len(),
            forall|k: int| 0 <= k < i ==> #[trigger] head@[k] == NIL,
        decreases head.len() - i,
    {
        head[i] = 0xffff_ffff;
        i += 1;
    }

    let mut k: usize = 0;
    let mut j = tail[0];
    let ghost mut names = seq![-1int];
    let mut p: usize = 1;
    while p < m
        invariant
            t == text_of(s@),
            n == s.len(),
            n >= 1,
            n + 1 < u32::MAX,
            forall|i: int| 0 <= i < t.len() ==> 0 <= #[trigger] t[i],
            m == tail.len(),
            lms_listed(t, tail@),
            head.len() == old(head).len(),
            head.len() + m == n + 1,
            1 <= p <= m,
            j == tail@[p - 1],
            k == names[p - 1] + 1,
            renamed(t, tail@, p as int, names, name_of, head@),
        decreases m - p,
    {
        let i = tail[p];
        proof {
            lemma_listed_first(t, tail@);
            assert(0 < tail@[p as int] && is_lms(t, tail@[p as int] as int));
            assert(0 < tail@[p - 1] && is_lms(t, tail@[p - 1] as int));
        }
        if !lms_substr_eq(s, i as usize, j as usize) {
            k += 1;
        }
        proof {
            assert(keq(t, i as int, j as int, true) == keq(t, j as int, i as int, true));
            lemma_rename_step(t, tail@, p as int, names, name_of, head@, k - 1);
            names = names.push(k - 1);
            name_of = name_of.update(i as int, k - 1);
        }
        head[i as usize / 2] = k as u32 - 1;
        j = i;
        p += 1;
    }
    proof {
        lemma_renamed_all(t, tail@, names, name_of, head@);
        lemma_names_fit(t, tail@, names, name_of);
        if k + 1 == m {
            lemma_all_differ(t, tail@, names);
        }
    }
    (k, Ghost(name_of))
}

/// Name the sorted lms substrings in `tail`.  Returns the number of names
/// and, unless each substring has a name of its own, the length of the
/// string of names, which comes to stand at the front of `head`.
pub fn reduce_substrs<T>(s: &[T], head: &mut [u32], tail: &[u32]) -> (r: (
    usize,
    usize,
    Ghost<Seq<int>>,
)) where T: SaisChar
    requires
        s.len() >= 1,
        s.len() <= 0xffff_fffc,
        lms_listed(text_of(s@), tail@),
        old(head).len() + tail.len() == s.len() + 1,
    ensures
        final(head).len() == old(head).len(),
        tail.len() <= final(head).len(),
        r.0 + 1 <= tail.len(),
        names_fit(text_of(s@), r.2@),
        r.0 + 1 == tail.len() ==> lms_sorted(text_of(s@), tail@),
        r.0 + 1 != tail.len() ==> {
            &&& r.1 + 1 == tail.len()
            &&& is_reduced(text_of(s@), r.2@, text_of(final(head)@.subrange(0, r.1 as int)))
            &&& forall|i: int| 0 <= i < r.1 ==> #[trigger] final(head)@[i] < r.0
        },
{
    let ghost t = text_of(s@);
    let n = s.len();
    let m = tail.len();
    proof {
        lemma_text_range(s@);
        lemma_lms_density(t, n + 1);
        lemma_last_is_l(t);
    }
    let (k, name_of) = rename_substrs(s, head, tail);
    if k + 1 == m {
        (k, 0, name_of)
    } else {
        let t1 = compact_names(head, Ghost(t), name_of, Ghost(k as int));
        (k, t1, name_of)
    }
}

/// Move the sorted lms suffixes to the front of `head`: with `unique` set
/// `tail` holds them, else it holds the suffix array of `reduced`, the
/// string of the names of the lms substrings.
pub fn restore_suffixes<T>(
    s: &[T],
    head: &mut [u32],
    tail: &mut [u32],
    unique: bool,
    Ghost(name_of): Ghost<Seq<int>>,
    Ghost(reduced): Ghost<Seq<int>>,
) where T: SaisChar
    requires
        s.len() >= 1,
        s.len() <= 0xffff_fffc,
        old(tail).len() == lms_count(text_of(s@)),
        old(tail).len() <= old(head).len(),
        unique ==> lms_sorted(text_of(s@), old(tail)@),
        !unique ==> names_fit(text_of(s@), name_of) && is_reduced(text_of(s@), name_of, reduced)
            && is_suffix_array(reduced, old(tail)@),
    ensures
        final(head).len() == old(head).len(),
        final(tail).len() == old(tail).len(),
        lms_sorted(text_of(s@), final(head)@.take(final(tail).len() as int)),
{
    let ghost t = text_of(s@);
    let n = s.len();
    let m = tail.len();
    proof {
        lemma_text_range(s@);
        lemma_last_is_l(t);
    }
    if unique {
        // lms substrings => lms suffixes
        copy_to_front(head, tail);
    } else {
        let ghost ranks = tail@;
        proof {
            crate::order::lemma_suffix_array_is_permutation(reduced, ranks);
        }

        // rearrange the lms suffixes
        copy_to_front(head, tail);
        let mut h: usize = m;
        let mut scan = for_each_lms(s, true);
        loop
            invariant
                t == text_of(s@),
                n == s.len(),
                1 <= n <= 0xffff_fffc,
                m == tail.len(),
                m == lms_count(t),
                scan.wf(t),
                h <= m,
                h == lms_below(t, scan.bound(n as int)),
                scan.bound(n as int) <= n + 1,
                forall|r: int|
                    h <= r < m ==> 0 < #[trigger] tail@[r] <= n && is_lms(t, tail@[r] as int)
                        && lms_below(t, tail@[r] as int) == r,
            ensures
                h == 0,
            decreases scan.bound(n as int),
        {
            let ghost before = scan.bound(n as int);
            match scan.next(s) {
                Some((i, _)) => {
                    proof {
                        lemma_lms_below_gap(t, scan.bound(n as int), i as int);
                        lemma_lms_below_gap(t, i + 1, before);
                        lemma_lms_below_mono(t, 0, i as int);
                        assert(lms_below(t, i + 1) == lms_below(t, i as int) + 1);
                    }
                    h -= 1;
                    tail[h] = i as u32;
                },
                None => {
                    proof {
                        reveal_with_fuel(lms_below, 2);
                        if before >= 1 {
                            lemma_lms_below_gap(t, 1, before);
                        }
                    }
                    break ;
                },
            }
        }
        assert(h == 0);
        let mut p: usize = 0;
        while p < m
            invariant
                p <= m,
                m == tail.len(),
                m <= head.len(),
                head.len() == old(head).len(),
                ranks.len() == m,
                is_permutation(m - 1, ranks),
                forall|r: int| p <= r < m ==> head@[r] == #[trigger] ranks[r],
                forall|r: int| 0 <= r < p ==> #[trigger] head@[r] == tail@[ranks[r] as int],
            decreases m - p,
        {
            assert(ranks[p as int] <= m - 1);
            let i = head[p] as usize;
            head[p] = tail[i];
            p += 1;
        }
        proof {
            let xs = head@.take(m as int);
            assert forall|a: int| 0 <= a < xs.len() implies 0 < #[trigger] xs[a] <= t.len()
                && is_lms(t, xs[a] as int) && lms_below(t, xs[a] as int) == ranks[a] by {
                assert(ranks[a] <= m - 1);
                assert(xs[a] == tail@[ranks[a] as int]);
            }
            assert forall|a: int, b: int| 0 <= a < b < xs.len() implies suf_lt(
                t,
                #[trigger] xs[a] as int,
                #[trigger] xs[b] as int,
            ) by {
                assert(lms_below(t, xs[a] as int) == ranks[a]);
                assert(lms_below(t, xs[b] as int) == ranks[b]);
                assert(suf_lt(reduced, ranks[a] as int, ranks[b] as int));
                lemma_reduced_order(t, name_of, reduced, xs[a] as int, xs[b] as int);
            }
            assert forall|v: int| 0 < v <= t.len() && is_lms(t, v) implies #[trigger] occurs_in(
                xs,
                v,
            ) by {
                let r = lms_below(t, v);
                lemma_lms_below_mono(t, 0, v);
                lemma_lms_below_mono(t, v + 1, n + 1);
                assert(occurs_in(ranks, r));
                let a = choose|a: int| 0 <= a < ranks.len() && #[trigger] ranks[a] == r;
                assert(lms_below(t, xs[a] as int) == ranks[a]);
                if xs[a] < v {
                    lemma_rank_strict(t, xs[a] as int, v);
                }
                if v < xs[a] {
                    lemma_rank_strict(t, v, xs[a] as int);
                }
            }
        }
    }
}

/// Turn the sorted lms substrings in `tail` into the sorted lms suffixes,
/// which come to stand at the front of `head`.
pub fn suffixes_from_substrs<T, S>(s: &[T], head: &mut [u32], tail: &mut [u32]) where
    T: SaisChar,
    S: SubSorter,

    requires
        s.len() >= 1,
        s.len() <= 0xffff_fffc,
        lms_listed(text_of(s@), old(tail)@),
        old(head).len() + old(tail).len() == s.len() + 1,
    ensures
        final(head).len() == old(head).len(),
        final(tail).len() == old(tail).len(),
        final(tail).len() <= final(head).len(),
        lms_sorted(text_of(s@), final(head)@.take(final(tail).len() as int)),
{
    // 1. rename lms substrings
    let (k, t1, name_of) = reduce_substrs(s, head, tail);

    // 2. sort lms suffixes
    let unique = k + 1 == tail.len();
    let ghost reduced = text_of(head@.subrange(0, t1 as int));
    if !unique {
        let (s1, _) = head.split_at_mut(t1);
        S::sort(s1, k, tail);
    }
    restore_suffixes(s, head, tail, unique, name_of, Ghost(reduced));
}

/// Copy `tail` to the front of `head`.
fn copy_to_front(head: &mut [u32], tail: &[u32])
    requires
        tail.len() <= old(head).len(),
    ensures
        final(head).len() == old(head).len(),
        final(head)@.take(tail.len() as int) == tail@,
        forall|i: int| tail.len() <= i < old(head).len() ==> final(head)@[i] == old(head)@[i],
{
    let mut i: usize = 0;
    while i < tail.len()
        invariant
            i <= tail.len() <= head.len(),
            head.len() == old(head).len(),
            forall|j: int| 0 <= j < i ==> head@[j] == tail@[j],
            forall|j: int| tail.len() <= j < head.len() ==> head@[j] == old(head)@[j],
        decreases tail.len() - i,
    {
        head[i] = tail[i];
        i += 1;
    }
    assert(head@.take(tail.len() as int) =~= tail@);
}

} // verus!
