//! O(n) time and O(1) space SAIS algorithm for writable integer string,
//! the inner recursion level of the construction for byte strings.
use vstd::prelude::*;
use crate::construct::llhsais::llhsais;
use crate::construct::utils::{text_of, SubSorter};
use crate::order::is_suffix_array;

verus! {

/// Maximum length of the input string.
pub const MAX_LENGTH: usize = 0xffff_fffc;

/// Sort the suffixes of a string of integers below `k`, with the string
/// itself and the output array as the only workspace.
pub fn sais_ints_mut(s: &mut [u32], k: usize, sa: &mut [u32])
    requires
        old(s).len() <= MAX_LENGTH,
        old(s).len() + 1 == old(sa).len(),
        old(s).len() > 0 ==> k <= old(s).len(),
        forall|i: int| 0 <= i < old(s).len() ==> #[trigger] old(s)@[i] < k,
    ensures
        final(s).len() == old(s).len(),
        final(sa).len() == old(sa).len(),
        is_suffix_array(text_of(old(s)@), final(sa)@),
{
    llhsais(s, k, sa);
}

/// Sorting a string of names in place.
pub struct InPlaceSorter;

impl SubSorter for InPlaceSorter {
    fn sort(s: &mut [u32], k: usize, sa: &mut [u32]) {
        sais_ints_mut(s, k, sa);
    }
}

} // verus!
