//! O(n) time and O(1) space SAIS algorithm for read-only byte string,
//! which combines the recursion level 0 taken from [Ge Nong. 2013.
//! Practical linear-time O(1)-workspace suffix sorting for constant
//! alphabets.](https://dl.acm.org/citation.cfm?doid=2493175.2493180) and
//! the inner recursion level from Section 3 in [Li, Z., Jian, L. and Huo, H.
//! Optimal In-Place Suffix Sorting](https://arxiv.org/abs/1610.08305).
use vstd::prelude::*;
use crate::construct::sacak0::sacak0;
use crate::construct::utils::text_of;
use crate::order::is_suffix_array;
use crate::construct::sais_ints_mut::InPlaceSorter;

verus! {

/// Maximum length of the input string.
pub const MAX_LENGTH: usize = 0xffff_fffc;

/// O(n) time and O(1) space SAIS algorithm for read-only byte string.
pub fn sais_bytes(s: &[u8], sa: &mut [u32])
    requires
        s.len() <= MAX_LENGTH,
        s.len() + 1 == old(sa).len(),
    ensures
        is_suffix_array(text_of(s@), final(sa)@),
{
    sacak0::<InPlaceSorter>(s, sa);
}

} // verus!
