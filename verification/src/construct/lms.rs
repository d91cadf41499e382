//! LMS positions and LMS substrings, read off the string itself.
use vstd::prelude::*;
use crate::sais::model::{is_lms, is_s, lemma_last_is_l, sym};
use crate::sais::reduce::keq;

verus! {

/// Whether the strings at `u` and `v` agree symbol by symbol up to the
/// first LMS position after the start, which both reach together.
pub open spec fn ceq(t: Seq<int>, u: int, v: int, first: bool) -> bool
    decreases t.len() - u,
{
    if u >= t.len() || v >= t.len() || u < 0 || v < 0 {
        u == v
    } else if t[u] != t[v] {
        false
    } else if !first && (is_lms(t, u) || is_lms(t, v)) {
        is_lms(t, u) && is_lms(t, v)
    } else {
        ceq(t, u + 1, v + 1, false)
    }
}

/// Strings that agree up to an LMS position that both reach together agree
/// in their types too.
pub proof fn lemma_ceq_types(t: Seq<int>, u: int, v: int, first: bool)
    requires
        forall|i: int| 0 <= i < t.len() ==> 0 <= #[trigger] t[i],
        0 <= u <= t.len(),
        0 <= v <= t.len(),
        ceq(t, u, v, first),
    ensures
        is_s(t, u) == is_s(t, v),
        sym(t, u) == sym(t, v),
    decreases t.len() - u,
{
    if u < t.len() && v < t.len() {
        if !first && (is_lms(t, u) || is_lms(t, v)) {
        } else {
            lemma_ceq_types(t, u + 1, v + 1, false);
        }
    }
}

/// Two LMS substrings are the same, symbols and types, exactly if they
/// agree symbol by symbol and end together.
pub proof fn lemma_keq_is_ceq(t: Seq<int>, u: int, v: int, first: bool)
    requires
        forall|i: int| 0 <= i < t.len() ==> 0 <= #[trigger] t[i],
        0 <= u <= t.len(),
        0 <= v <= t.len(),
        !first && 0 < u < t.len() && 0 < v < t.len() ==> is_s(t, u - 1) == is_s(t, v - 1),
        !first ==> 0 < u && 0 < v,
    ensures
        keq(t, u, v, first) == ceq(t, u, v, first),
    decreases t.len() - u,
{
    if u < t.len() && v < t.len() {
        if t[u] == t[v] {
            if ceq(t, u, v, first) {
                lemma_ceq_types(t, u, v, first);
            }
            if is_s(t, u) == is_s(t, v) {
                if !first && (is_lms(t, u) || is_lms(t, v)) {
                } else {
                    lemma_keq_is_ceq(t, u + 1, v + 1, false);
                }
            }
        }
    }
}

/// Along a run of the same symbol that is not at the start of an LMS
/// substring... the comparison moves on while both runs last.
pub proof fn lemma_ceq_run(t: Seq<int>, u: int, v: int, k: int)
    requires
        0 <= k,
        0 <= u,
        0 <= v,
        u + k <= t.len(),
        v + k <= t.len(),
        forall|i: int| u <= i < u + k ==> #[trigger] t[i] == t[i - u + v],
        forall|i: int| u <= i < u + k ==> !#[trigger] is_lms(t, i),
        forall|i: int| v <= i < v + k ==> !#[trigger] is_lms(t, i),
    ensures
        ceq(t, u, v, false) == ceq(t, u + k, v + k, false),
    decreases k,
{
    if k > 0 {
        assert(t[u] == t[u - u + v]);
        assert(!is_lms(t, u));
        assert(!is_lms(t, v));
        assert forall|i: int| u + 1 <= i < u + 1 + (k - 1) implies #[trigger] t[i] == t[i - (u + 1)
            + (v + 1)] by {
            assert(t[i] == t[i - u + v]);
        }
        lemma_ceq_run(t, u + 1, v + 1, k - 1);
    }
}

/// A position is S-type exactly if the run of its symbol is followed by a
/// greater symbol.
pub proof fn lemma_run_type(t: Seq<int>, u: int, k: int)
    requires
        forall|i: int| 0 <= i < t.len() ==> 0 <= #[trigger] t[i],
        0 <= u,
        0 < k,
        u + k <= t.len(),
        forall|i: int| u <= i < u + k ==> #[trigger] t[i] == t[u],
        u + k == t.len() || t[u + k] != t[u],
    ensures
        forall|i: int| u <= i < u + k ==> #[trigger] is_s(t, i) == (u + k < t.len() && t[u + k] > t[u]),
    decreases k,
{
    let end = u + k;
    assert(t[end - 1] == t[u]);
    assert(is_s(t, end - 1) == (end < t.len() && t[end] > t[u])) by {
        if end == t.len() {
            lemma_last_is_l(t);
        }
    }
    if k > 1 {
        lemma_run_type_at(t, u, k, u);
    }
    assert forall|i: int| u <= i < u + k implies #[trigger] is_s(t, i) == (u + k < t.len() && t[u
        + k] > t[u]) by {
        lemma_run_type_at(t, u, k, i);
    }
}

proof fn lemma_run_type_at(t: Seq<int>, u: int, k: int, i: int)
    requires
        forall|i: int| 0 <= i < t.len() ==> 0 <= #[trigger] t[i],
        0 <= u <= i < u + k,
        u + k <= t.len(),
        forall|i: int| u <= i < u + k ==> #[trigger] t[i] == t[u],
        u + k == t.len() || t[u + k] != t[u],
    ensures
        is_s(t, i) == (u + k < t.len() && t[u + k] > t[u]),
    decreases u + k - i,
{
    assert(t[i] == t[u]);
    if i + 1 < u + k {
        lemma_run_type_at(t, u, k, i + 1);
        assert(t[i + 1] == t[u]);
    } else if u + k == t.len() {
        lemma_last_is_l(t);
    }
}

} // verus!
