//! The list of the LMS positions as the first induced sort leaves it, and
//! the names that are given along it.
use vstd::prelude::*;
use crate::order::{is_permutation, occurs_in, positions, suf_lt};
use crate::sais::count::{count, lemma_injection_count};
use crate::sais::model::{is_lms, kle};
use crate::construct::utils::text_of;
use crate::sais::model::lemma_last_is_l;
use crate::sais::reduce::{
    is_reduced, keq, klt, lemma_klt_suffix, lemma_lms_below_mono, lemma_lms_density,
    lemma_names_eq, lemma_names_lt, lemma_names_mono, lms_below, lms_count, names_count,
    names_fit,
};

verus! {

/// Number of LMS positions among the first `k` entries of `a`.
pub open spec fn lms_in(t: Seq<int>, a: Seq<u32>, k: int) -> int
    decreases k,
{
    if k <= 0 {
        0
    } else {
        lms_in(t, a, k - 1) + if is_lms(t, a[k - 1] as int) {
            1int
        } else {
            0int
        }
    }
}

proof fn lemma_lms_in_is_count(t: Seq<int>, a: Seq<u32>, q: spec_fn(int) -> bool, k: int)
    requires
        forall|p: int| 0 <= p < k ==> #[trigger] q(p) == is_lms(t, a[p] as int),
    ensures
        count(q, k) == lms_in(t, a, k),
    decreases k,
{
    if k > 0 {
        lemma_lms_in_is_count(t, a, q, k - 1);
    }
}

proof fn lemma_lms_below_is_count(t: Seq<int>, q: spec_fn(int) -> bool, k: int)
    requires
        forall|v: int| 0 <= v < k ==> #[trigger] q(v) == is_lms(t, v),
    ensures
        count(q, k) == lms_below(t, k),
    decreases k,
{
    if k > 0 {
        lemma_lms_below_is_count(t, q, k - 1);
    }
}

/// A permutation of the positions holds as many LMS positions as there are.
pub proof fn lemma_lms_in_perm(t: Seq<int>, a: Seq<u32>)
    requires
        is_permutation(t.len() as int, a),
    ensures
        lms_in(t, a, a.len() as int) == lms_count(t),
{
    let n = t.len() as int;
    let f = positions(a);
    let inv = Seq::new(
        (n + 1) as nat,
        |v: int| choose|p: int| 0 <= p < a.len() && #[trigger] a[p] == v,
    );
    let over_places = |p: int| is_lms(t, a[p] as int);
    let over_values = |v: int| is_lms(t, v);
    assert forall|v: int| 0 <= v <= n implies 0 <= #[trigger] inv[v] <= n && a[inv[v]] == v by {
        assert(occurs_in(a, v));
    }
    assert forall|i: int| 0 <= i < f.len() && #[trigger] over_places(i) implies 0 <= f[i] < n + 1
        && over_values(f[i]) by {
        assert(0 <= a[i] <= n);
    }
    lemma_injection_count(f, over_places, over_values, n + 1);
    lemma_injection_count(inv, over_values, over_places, n + 1);
    lemma_lms_in_is_count(t, a, over_places, n + 1);
    lemma_lms_below_is_count(t, over_values, n + 1);
}

/// Whether `v` occurs in `a` at `lo` or after it.
pub open spec fn occurs_from(a: Seq<u32>, lo: int, v: u32) -> bool {
    exists|k: int| lo <= k < a.len() && #[trigger] a[k] == v
}

pub proof fn lemma_occurs_from_earlier(a: Seq<u32>, lo: int, earlier: int, v: u32)
    requires
        occurs_from(a, lo, v),
        earlier <= lo,
    ensures
        occurs_from(a, earlier, v),
{
    let k = choose|k: int| lo <= k < a.len() && #[trigger] a[k] == v;
    assert(a[k] == v);
}

/// Whether the array is sorted by LMS substring and holds nothing twice.
pub open spec fn sorted_by_substring(t: Seq<int>, sorted: Seq<u32>) -> bool {
    &&& sorted.len() == t.len() + 1
    &&& forall|p: int| 0 <= p < sorted.len() ==> #[trigger] sorted[p] <= t.len()
    &&& forall|p: int, q: int|
        0 <= p < q < sorted.len() ==> kle(t, #[trigger] sorted[p] as int, #[trigger] sorted[q] as int, true)
            && sorted[p] != sorted[q]
}

/// Whether the LMS positions that `sorted` holds from `x` on have been
/// gathered in `sa` from `h` on, in their order, with `sa` before `x` still
/// as `sorted`.
pub open spec fn collected(t: Seq<int>, sorted: Seq<u32>, sa: Seq<u32>, h: int, x: int) -> bool {
    let len = sa.len() as int;
    &&& sorted.len() == len
    &&& len == t.len() + 1
    &&& 0 <= x <= h <= len
    &&& forall|p: int| 0 <= p < x ==> #[trigger] sa[p] == sorted[p]
    &&& len - h == lms_in(t, sorted, len) - lms_in(t, sorted, x)
    &&& forall|k: int| h <= k < len ==> is_lms(t, #[trigger] sa[k] as int)
    &&& forall|k: int| h <= k < len ==> #[trigger] occurs_from(sorted, x, sa[k])
    &&& forall|p: int|
        x <= p < len && is_lms(t, sorted[p] as int) ==> #[trigger] occurs_from(sa, h, sorted[p])
    &&& forall|a: int, b: int|
        h <= a < b < len ==> kle(t, #[trigger] sa[a] as int, #[trigger] sa[b] as int, true) && sa[a]
            != sa[b]
}

/// The gathering passes a place that holds no LMS position.
pub proof fn lemma_collect_skip(t: Seq<int>, sorted: Seq<u32>, sa: Seq<u32>, h: int, x: int)
    requires
        collected(t, sorted, sa, h, x),
        x >= 1,
        !is_lms(t, sorted[x - 1] as int),
    ensures
        collected(t, sorted, sa, h, x - 1),
{
    assert forall|k: int| h <= k < sa.len() implies #[trigger] occurs_from(sorted, x - 1, sa[k]) by {
        lemma_occurs_from_earlier(sorted, x, x - 1, sa[k]);
    }
}

/// The gathering passes places that hold no LMS position.
pub proof fn lemma_collect_skip_range(
    t: Seq<int>,
    sorted: Seq<u32>,
    sa: Seq<u32>,
    h: int,
    x: int,
    y: int,
)
    requires
        collected(t, sorted, sa, h, x),
        0 <= y <= x,
        forall|p: int| y <= p < x ==> !is_lms(t, #[trigger] sorted[p] as int),
    ensures
        collected(t, sorted, sa, h, y),
    decreases x - y,
{
    if y < x {
        assert(!is_lms(t, sorted[x - 1] as int));
        lemma_collect_skip(t, sorted, sa, h, x);
        lemma_collect_skip_range(t, sorted, sa, h, x - 1, y);
    }
}

/// The gathering takes the LMS position that the place before `x` holds.
pub proof fn lemma_collect_take(t: Seq<int>, sorted: Seq<u32>, sa: Seq<u32>, h: int, x: int)
    requires
        collected(t, sorted, sa, h, x),
        sorted_by_substring(t, sorted),
        x >= 1,
        is_lms(t, sorted[x - 1] as int),
    ensures
        0 <= x - 1 <= h - 1,
        collected(t, sorted, sa.update(h - 1, sorted[x - 1]), h - 1, x - 1),
{
    let len = sa.len() as int;
    let sa2 = sa.update(h - 1, sorted[x - 1]);
    assert forall|k: int| h - 1 <= k < len implies #[trigger] occurs_from(sorted, x - 1, sa2[k]) by {
        if k > h - 1 {
            lemma_occurs_from_earlier(sorted, x, x - 1, sa[k]);
        } else {
            assert(sorted[x - 1] == sa2[k]);
        }
    }
    assert forall|p: int|
        x - 1 <= p < len && is_lms(t, sorted[p] as int) implies #[trigger] occurs_from(
        sa2,
        h - 1,
        sorted[p],
    ) by {
        if p > x - 1 {
            assert(occurs_from(sa, h, sorted[p]));
            let k = choose|k: int| h <= k < sa.len() && #[trigger] sa[k] == sorted[p];
            assert(sa2[k] == sorted[p]);
        } else {
            assert(sa2[h - 1] == sorted[p]);
        }
    }
    assert forall|a: int, b: int| h - 1 <= a < b < len implies kle(
        t,
        #[trigger] sa2[a] as int,
        #[trigger] sa2[b] as int,
        true,
    ) && sa2[a] != sa2[b] by {
        if a == h - 1 {
            assert(occurs_from(sorted, x, sa[b]));
            let p = choose|p: int| x <= p < sorted.len() && #[trigger] sorted[p] == sa[b];
            assert(kle(t, sorted[x - 1] as int, sorted[p] as int, true));
        } else {
            assert(kle(t, sa[a] as int, sa[b] as int, true));
        }
    }
}

/// When the gathering has passed every place, the LMS positions are listed.
pub proof fn lemma_collect_done(t: Seq<int>, sorted: Seq<u32>, sa: Seq<u32>, h: int)
    requires
        t.len() >= 1,
        forall|i: int| 0 <= i < t.len() ==> 0 <= #[trigger] t[i],
        collected(t, sorted, sa, h, 0),
        is_permutation(t.len() as int, sorted),
    ensures
        h + lms_count(t) == sa.len(),
        lms_listed(t, sa.subrange(h, sa.len() as int)),
{
    let len = sa.len() as int;
    lemma_lms_in_perm(t, sorted);
    lemma_last_is_l(t);
    let xs = sa.subrange(h, len);
    assert forall|k: int| 0 <= k < xs.len() implies 0 < #[trigger] xs[k] <= t.len() && is_lms(
        t,
        xs[k] as int,
    ) by {
        assert(occurs_from(sorted, 0, sa[h + k]));
    }
    assert forall|a: int, b: int| 0 <= a < b < xs.len() implies kle(
        t,
        #[trigger] xs[a] as int,
        #[trigger] xs[b] as int,
        true,
    ) && xs[a] != xs[b] by {
        assert(kle(t, sa[h + a] as int, sa[h + b] as int, true));
    }
    assert forall|v: int| 0 < v <= t.len() && is_lms(t, v) implies #[trigger] occurs_in(xs, v) by {
        assert(occurs_in(sorted, v));
        let p = choose|p: int| 0 <= p < sorted.len() && #[trigger] sorted[p] == v;
        assert(occurs_from(sa, h, sorted[p]));
        let k = choose|k: int| h <= k < sa.len() && #[trigger] sa[k] == sorted[p];
        assert(xs[k - h] == v);
    }
}

/// Whether `xs` lists every LMS position once, by ascending LMS substring.
pub open spec fn lms_listed(t: Seq<int>, xs: Seq<u32>) -> bool {
    &&& xs.len() == lms_count(t)
    &&& forall|k: int| 0 <= k < xs.len() ==> 0 < #[trigger] xs[k] <= t.len() && is_lms(t, xs[k] as int)
    &&& forall|a: int, b: int|
        0 <= a < b < xs.len() ==> kle(t, #[trigger] xs[a] as int, #[trigger] xs[b] as int, true)
            && xs[a] != xs[b]
    &&& forall|v: int| 0 < v <= t.len() && is_lms(t, v) ==> #[trigger] occurs_in(xs, v)
}

/// Whether `xs` lists every LMS position once, by ascending suffix.
pub open spec fn lms_sorted(t: Seq<int>, xs: Seq<u32>) -> bool {
    &&& xs.len() == lms_count(t)
    &&& forall|k: int| 0 <= k < xs.len() ==> 0 < #[trigger] xs[k] <= t.len() && is_lms(t, xs[k] as int)
    &&& forall|a: int, b: int|
        0 <= a < b < xs.len() ==> suf_lt(t, #[trigger] xs[a] as int, #[trigger] xs[b] as int)
    &&& forall|v: int| 0 < v <= t.len() && is_lms(t, v) ==> #[trigger] occurs_in(xs, v)
}

/// Whether `xs` lists the ranks of the LMS positions among themselves, by
/// ascending suffix.
pub open spec fn ranks_sorted(t: Seq<int>, xs: Seq<u32>) -> bool {
    &&& is_permutation(lms_count(t) - 1, xs)
    &&& forall|a: int, b: int, u: int, v: int|
        0 <= a < b < xs.len() && 0 < u <= t.len() && 0 < v <= t.len() && is_lms(t, u) && is_lms(
            t,
            v,
        ) && #[trigger] lms_below(t, u) == #[trigger] xs[a] && #[trigger] lms_below(t, v)
            == #[trigger] xs[b] ==> suf_lt(t, u, v)
}

/// The mark of a slot that holds no name.
pub const NIL: u32 = 0xffff_ffff;

/// The LMS position whose name the slot `i` holds, or -1: the position
/// `2 * i` or the one after it, of which at most one is an LMS position.
pub open spec fn slot_lms(t: Seq<int>, i: int) -> int {
    if 2 * i < t.len() && is_lms(t, 2 * i) {
        2 * i
    } else if 2 * i + 1 < t.len() && is_lms(t, 2 * i + 1) {
        2 * i + 1
    } else {
        -1
    }
}

/// What the slot `i` holds: the name of its LMS position, once it has one.
pub open spec fn slot_name(t: Seq<int>, name_of: Seq<int>, i: int) -> int {
    if slot_lms(t, i) >= 0 && name_of[slot_lms(t, i)] >= 0 {
        name_of[slot_lms(t, i)]
    } else {
        NIL as int
    }
}

/// Whether the name at `j` in the sorted list is the one before it, or the
/// next one where the two LMS substrings differ.
pub open spec fn names_step(t: Seq<int>, xs: Seq<u32>, names: Seq<int>, j: int) -> bool {
    names[j] == names[j - 1] + if keq(t, xs[j - 1] as int, xs[j] as int, true) {
        0int
    } else {
        1int
    }
}

/// Whether the first `k` LMS substrings of the sorted list `xs` have their
/// names, in `names` by their place in the list, in `name_of` by their
/// position in the text, and in the slots of `head`.
pub open spec fn renamed(
    t: Seq<int>,
    xs: Seq<u32>,
    k: int,
    names: Seq<int>,
    name_of: Seq<int>,
    head: Seq<u32>,
) -> bool {
    &&& 1 <= k <= xs.len()
    &&& names.len() == k
    &&& names[0] == -1
    &&& forall|j: int| 1 <= j < k ==> #[trigger] names_step(t, xs, names, j)
    &&& name_of.len() == t.len() + 1
    &&& forall|j: int| 1 <= j < k ==> name_of[#[trigger] xs[j] as int] == names[j]
    &&& forall|v: int|
        0 <= v <= t.len() && #[trigger] name_of[v] >= 0 ==> 0 < v < t.len() && is_lms(t, v)
    &&& forall|v: int| 0 <= v <= t.len() ==> -1 <= #[trigger] name_of[v] <= names[k - 1]
    &&& names[k - 1] <= k - 2
    &&& k >= 2 ==> names[k - 1] >= 0
    &&& forall|i: int| 0 <= i < head.len() ==> #[trigger] head[i] == slot_name(t, name_of, i)
}

/// One more LMS substring gets its name.
pub proof fn lemma_rename_step(
    t: Seq<int>,
    xs: Seq<u32>,
    k: int,
    names: Seq<int>,
    name_of: Seq<int>,
    head: Seq<u32>,
    name: int,
)
    requires
        t.len() >= 1,
        forall|i: int| 0 <= i < t.len() ==> 0 <= #[trigger] t[i],
        lms_listed(t, xs),
        renamed(t, xs, k, names, name_of, head),
        k < xs.len(),
        head.len() + xs.len() == t.len() + 1,
        t.len() + 1 < u32::MAX,
        name == names[k - 1] + if keq(t, xs[k - 1] as int, xs[k] as int, true) {
            0int
        } else {
            1int
        },
    ensures
        0 <= name <= k - 1,
        0 <= xs[k] / 2 < head.len(),
        renamed(
            t,
            xs,
            k + 1,
            names.push(name),
            name_of.update(xs[k] as int, name),
            head.update(xs[k] as int / 2, name as u32),
        ),
{
    let n = t.len() as int;
    let x = xs[k] as int;
    let names2 = names.push(name);
    let named = name_of.update(x, name);
    let head2 = head.update(x / 2, name as u32);
    lemma_listed_first(t, xs);
    crate::sais::reduce::lemma_lms_density(t, n + 1);
    crate::sais::model::lemma_last_is_l(t);
    lemma_slot_of_lms(t, x);
    if k == 1 {
        assert(!keq(t, n, x, true));
    } else {
        assert(names_step(t, xs, names, k - 1));
        assert(name_of[xs[k - 1] as int] == names[k - 1]);
    }
    assert forall|j: int| 1 <= j < k + 1 implies #[trigger] names_step(t, xs, names2, j) by {
        if j < k {
            assert(names_step(t, xs, names, j));
        }
    }
    assert forall|j: int| 1 <= j < k + 1 implies named[#[trigger] xs[j] as int] == names2[j] by {
        if j < k {
            assert(xs[j] != xs[k]);
        }
    }
    assert forall|i: int| 0 <= i < head2.len() implies #[trigger] head2[i] == slot_name(
        t,
        named,
        i,
    ) by {
        assert(head[i] == slot_name(t, name_of, i));
        if i != x / 2 {
            assert(slot_lms(t, i) != x);
        }
    }
}

/// With all names given, they count the differences along the whole list.
pub proof fn lemma_renamed_all(
    t: Seq<int>,
    xs: Seq<u32>,
    names: Seq<int>,
    name_of: Seq<int>,
    head: Seq<u32>,
)
    requires
        lms_listed(t, xs),
        renamed(t, xs, xs.len() as int, names, name_of, head),
    ensures
        names_count(t, positions(xs), names),
{
    let ps = positions(xs);
    assert forall|j: int| 1 <= j < ps.len() implies #[trigger] names[j] == names[j - 1] + if keq(
        t,
        ps[j - 1],
        ps[j],
        true,
    ) {
        0int
    } else {
        1int
    } by {
        assert(names_step(t, xs, names, j));
    }
    assert forall|a: int, b: int| 0 <= a < b < ps.len() implies kle(
        t,
        #[trigger] ps[a],
        #[trigger] ps[b],
        true,
    ) by {
        assert(kle(t, xs[a] as int, xs[b] as int, true));
    }
}

/// An LMS position has the slot at half its number to itself.
pub proof fn lemma_slot_of_lms(t: Seq<int>, x: int)
    requires
        0 < x < t.len(),
        is_lms(t, x),
    ensures
        slot_lms(t, x / 2) == x,
{
}

/// Names that count the differences along the sorted list tell the LMS
/// substrings apart as `kle` orders them.
pub proof fn lemma_names_fit(t: Seq<int>, xs: Seq<u32>, names: Seq<int>, name_of: Seq<int>)
    requires
        t.len() >= 1,
        lms_listed(t, xs),
        names_count(t, positions(xs), names),
        name_of.len() == t.len() + 1,
        forall|k: int| 1 <= k < xs.len() ==> name_of[#[trigger] xs[k] as int] == names[k],
    ensures
        names_fit(t, name_of),
        forall|x: int|
            0 < x < t.len() && is_lms(t, x) ==> 0 <= #[trigger] name_of[x] <= names[xs.len() - 1],
{
    let ps = positions(xs);
    lemma_listed_first(t, xs);
    assert forall|x: int| 0 < x < t.len() && is_lms(t, x) implies 0 <= #[trigger] name_of[x]
        <= names[xs.len() - 1] by {
        assert(occurs_in(xs, x));
        let a = choose|a: int| 0 <= a < xs.len() && #[trigger] xs[a] == x;
        lemma_names_mono(t, ps, names, 1, a);
        lemma_names_mono(t, ps, names, a, xs.len() - 1);
        assert(!keq(t, ps[0], ps[1], true));
    }
    assert forall|x: int, y: int|
        0 < x < t.len() && 0 < y < t.len() && is_lms(t, x) && is_lms(t, y) implies {
        &&& #[trigger] name_of[x] < #[trigger] name_of[y] ==> klt(t, x, y)
        &&& name_of[x] == name_of[y] ==> keq(t, x, y, true)
    } by {
        assert(occurs_in(xs, x));
        assert(occurs_in(xs, y));
        let a = choose|a: int| 0 <= a < xs.len() && #[trigger] xs[a] == x;
        let b = choose|b: int| 0 <= b < xs.len() && #[trigger] xs[b] == y;
        assert(ps[a] == x && ps[b] == y);
        if name_of[x] < name_of[y] {
            lemma_names_lt(t, ps, names, a, b);
        }
        if name_of[x] == name_of[y] {
            if a <= b {
                lemma_names_eq(t, ps, names, a, b);
            } else {
                lemma_names_eq(t, ps, names, b, a);
            }
        }
    }
}

/// Where every LMS substring differs from the one before it, the sorted
/// list of the LMS substrings is the sorted list of the LMS suffixes.
pub proof fn lemma_all_differ(t: Seq<int>, xs: Seq<u32>, names: Seq<int>)
    requires
        t.len() >= 1,
        forall|i: int| 0 <= i < t.len() ==> 0 <= #[trigger] t[i],
        lms_listed(t, xs),
        names_count(t, positions(xs), names),
        names[xs.len() - 1] == xs.len() - 2,
    ensures
        lms_sorted(t, xs),
{
    let ps = positions(xs);
    assert forall|a: int, b: int| 0 <= a < b < xs.len() implies suf_lt(
        t,
        #[trigger] xs[a] as int,
        #[trigger] xs[b] as int,
    ) by {
        lemma_names_mono(t, ps, names, 0, a);
        lemma_names_mono(t, ps, names, a, b);
        lemma_names_mono(t, ps, names, b, xs.len() - 1);
        lemma_names_lt(t, ps, names, a, b);
        lemma_klt_suffix(t, ps[a], ps[b], true);
    }
}

/// A later LMS position has the greater rank.
pub proof fn lemma_rank_strict(t: Seq<int>, u: int, v: int)
    requires
        0 <= u < v,
        is_lms(t, u),
    ensures
        lms_below(t, u) < lms_below(t, v),
{
    lemma_lms_below_mono(t, u + 1, v);
}

/// The sorted LMS suffixes leave room in the buckets: the first `k` of them
/// begin with symbols up to that of the `k`-th, and there are at least as
/// many positions with such symbols.
pub proof fn lemma_sorted_room(t: Seq<int>, xs: Seq<u32>, k: int)
    requires
        t.len() >= 1,
        forall|i: int| 0 <= i < t.len() ==> 0 <= #[trigger] t[i],
        lms_sorted(t, xs),
        1 <= k < xs.len(),
    ensures
        xs[k] < t.len(),
        k < crate::sais::model::bucket_head(t, t[xs[k] as int] + 1),
{
    let n = t.len() as int;
    let c = t[xs[k] as int];
    lemma_sorted_first(t, xs);
    let f = positions(xs);
    let p = |i: int| 1 <= i < k + 1;
    let q = |v: int| t[v] < c + 1;
    assert forall|i: int| 0 <= i < f.len() && #[trigger] p(i) implies 0 <= f[i] < n && q(f[i]) by {
        assert(xs[i] < n);
        if i < k {
            assert(suf_lt(t, xs[i] as int, xs[k] as int));
        }
    }
    assert forall|i: int, j: int| 0 <= i < j < f.len() && #[trigger] p(i) && #[trigger] p(
        j,
    ) implies f[i] != f[j] by {
        assert(suf_lt(t, xs[i] as int, xs[j] as int));
        crate::order::lemma_lex_irreflexive(t, xs[i] as int);
    }
    lemma_injection_count(f, p, q, n);
    crate::sais::count::lemma_count_ranges(p, 1, k + 1, k + 1, k + 1, f.len() as int);
    crate::sais::count::lemma_count_symbols_below(t, q, c + 1, n);
}

/// The empty suffix is the first of the sorted LMS suffixes.
pub proof fn lemma_sorted_first(t: Seq<int>, xs: Seq<u32>)
    requires
        t.len() >= 1,
        lms_sorted(t, xs),
    ensures
        xs.len() >= 1,
        xs[0] == t.len(),
        forall|k: int| 1 <= k < xs.len() ==> #[trigger] xs[k] < t.len(),
        forall|a: int, b: int| 0 <= a < b < xs.len() ==> #[trigger] xs[a] != #[trigger] xs[b],
{
    let n = t.len() as int;
    assert(occurs_in(xs, n));
    let k = choose|k: int| 0 <= k < xs.len() && #[trigger] xs[k] == n;
    if k != 0 {
        assert(suf_lt(t, xs[0] as int, xs[k] as int));
    }
    assert forall|a: int, b: int| 0 <= a < b < xs.len() implies #[trigger] xs[a] != #[trigger] xs[b] by {
        assert(suf_lt(t, xs[a] as int, xs[b] as int));
        crate::order::lemma_lex_irreflexive(t, xs[a] as int);
    }
    assert forall|j: int| 1 <= j < xs.len() implies #[trigger] xs[j] < t.len() by {
        assert(xs[0] != xs[j]);
    }
}

/// The empty suffix is the first in the list.
pub proof fn lemma_listed_first(t: Seq<int>, xs: Seq<u32>)
    requires
        t.len() >= 1,
        lms_listed(t, xs),
    ensures
        xs.len() >= 1,
        xs[0] == t.len(),
        forall|k: int| 1 <= k < xs.len() ==> #[trigger] xs[k] < t.len(),
{
    let n = t.len() as int;
    assert(occurs_in(xs, n));
    let k = choose|k: int| 0 <= k < xs.len() && #[trigger] xs[k] == n;
    if k != 0 {
        assert(kle(t, xs[0] as int, xs[k] as int, true));
    }
}

/// Move the names to the front of `head`, in the order of their slots.
/// Returns their number.
pub fn compact_names(
    head: &mut [u32],
    Ghost(t): Ghost<Seq<int>>,
    Ghost(name_of): Ghost<Seq<int>>,
    Ghost(scale): Ghost<int>,
) -> (s1_tail: usize)
    requires
        t.len() >= 1,
        forall|i: int| 0 <= i < t.len() ==> 0 <= #[trigger] t[i],
        name_of.len() == t.len() + 1,
        old(head).len() + lms_count(t) == t.len() + 1,
        scale <= NIL,
        forall|x: int| 0 < x < t.len() && is_lms(t, x) ==> 0 <= #[trigger] name_of[x] < scale,
        forall|i: int|
            0 <= i < old(head).len() ==> #[trigger] old(head)@[i] == slot_name(t, name_of, i),
    ensures
        final(head).len() == old(head).len(),
        s1_tail + 1 == lms_count(t),
        is_reduced(t, name_of, text_of(final(head)@.subrange(0, s1_tail as int))),
        forall|r: int| 0 <= r < s1_tail ==> #[trigger] final(head)@[r] < scale,
{
    let ghost n = t.len() as int;
    proof {
        lemma_lms_density(t, n + 1);
        lemma_last_is_l(t);
    }
    let mut s1_tail: usize = 0;
    let mut i: usize = 0;
    while i < head.len()
        invariant
            n == t.len(),
            n >= 1,
            head.len() == old(head).len(),
            name_of.len() == n + 1,
            head.len() + lms_count(t) == n + 1,
            2 * lms_count(t) <= n + 1,
            forall|i: int| 0 <= i < t.len() ==> 0 <= #[trigger] t[i],
            scale <= NIL,
            forall|x: int| 0 < x < n && is_lms(t, x) ==> 0 <= #[trigger] name_of[x] < scale,
            forall|r: int| 0 <= r < s1_tail ==> #[trigger] head@[r] < scale,
            i <= head.len(),
            s1_tail <= i,
            s1_tail == lms_below(t, if 2 * i <= n { 2 * i } else { n }),
            forall|k: int|
                i <= k < head.len() ==> #[trigger] head@[k] == slot_name(t, name_of, k),
            forall|x: int|
                0 < x < n && x < 2 * i && is_lms(t, x) ==> #[trigger] head@[lms_below(t, x)]
                    == name_of[x],
        decreases head.len() - i,
    {
        let ghost before = head@;
        let ghost lim = if 2 * i <= n { 2 * i } else { n };
        proof {
            reveal_with_fuel(lms_below, 3);
            lemma_lms_density(t, lim);
            lemma_lms_below_mono(t, 0, lim);
        }
        if head[i] != NIL {
            head[s1_tail] = head[i];
            s1_tail += 1;
        }
        proof {
            let x = slot_lms(t, i as int);
            assert forall|y: int|
                0 < y < n && y < 2 * (i + 1) && is_lms(t, y) implies #[trigger] head@[lms_below(
                t,
                y,
            )] == name_of[y] by {
                lemma_lms_below_mono(t, 0, y);
                if y < 2 * i {
                    lemma_lms_below_mono(t, y + 1, lim);
                    assert(before[lms_below(t, y)] == name_of[y]);
                } else {
                    assert(y == x);
                    assert(before[i as int] == slot_name(t, name_of, i as int));
                }
            }
        }
        i += 1;
    }
    proof {
        let s1 = text_of(head@.subrange(0, s1_tail as int));
        assert forall|x: int| 0 < x < t.len() && is_lms(t, x) implies #[trigger] s1[lms_below(
            t,
            x,
        )] == name_of[x] by {
            lemma_lms_below_mono(t, x + 1, n);
            lemma_lms_below_mono(t, 0, x);
            assert(head@[lms_below(t, x)] == name_of[x]);
        }
    }
    s1_tail
}


} // verus!
