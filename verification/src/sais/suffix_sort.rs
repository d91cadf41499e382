//! Sorting suffixes by comparing them symbol by symbol.
use vstd::prelude::*;
use crate::construct::utils::SaisChar;
use crate::sais::suffix_order::{entry_before, suffix_before, suffix_sign};
use crate::sais::utils::to_usize;
use std::cmp::Ordering;

verus! {

/// How the suffix of `s` at `i` stands to the one at `j`.
pub fn suffix_order<T: SaisChar>(s: &[T], i: usize, j: usize) -> (r: Ordering)
    requires
        i <= s.len(),
        j <= s.len(),
    ensures
        (r == Ordering::Less) == suffix_before(s@, i, j),
        (r == Ordering::Greater) == suffix_before(s@, j, i),
{
    let sign = suffix_sign(s, i, j);
    if sign < 0 {
        Ordering::Less
    } else if sign > 0 {
        Ordering::Greater
    } else {
        Ordering::Equal
    }
}

/// `<[u32]>::sort_by`, handed the order of the suffixes of `s`.
///
/// Not proved here: that the sort only rearranges the entries, and that it
/// leaves them in ascending order of the suffixes that they stand for.
#[verifier::external_body]
pub(crate) fn sort_suffixes<T: SaisChar>(s: &[T], sa: &mut [u32])
    requires
        forall|k: int| 0 <= k < old(sa)@.len() ==> #[trigger] old(sa)@[k] <= s.len(),
    ensures
        final(sa)@.to_multiset() == old(sa)@.to_multiset(),
        forall|a: int, b: int|
            0 <= a < b < final(sa)@.len() ==> !entry_before(
                s@,
                #[trigger] final(sa)@[b],
                #[trigger] final(sa)@[a],
            ),
{
    sa.sort_by(|&i, &j| suffix_order(s, to_usize(i), to_usize(j)))
}

} // verus!
