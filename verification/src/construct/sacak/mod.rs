//! O(n) time and O(1) space SAIS algorithm for read-only byte string,
//! as described in [Ge Nong. 2013. Practical linear-time O(1)-workspace
//! suffix sorting for constant alphabets.](https://dl.acm.org/citation.cfm?doid=2493175.2493180).
use vstd::prelude::*;
use crate::construct::sacak0::sacak0;
use crate::construct::utils::{text_of, SubSorter};
use crate::order::is_suffix_array;

pub mod bucket;
pub mod sacak_u32s;
pub mod scan;

verus! {

// The empty symbol in workspace.
pub const EMPTY: u32 = 0xffff_ffff;

/// Maximum length of the input string.
pub const MAX_LENGTH: usize = 0x7fff_ffff;

/// Sorting a string of names in place, as the inner recursion levels do.
pub struct InnerSorter;

impl SubSorter for InnerSorter {
    fn sort(s: &mut [u32], k: usize, sa: &mut [u32]) {
        sacak_u32s::sacak_u32s(s, k, sa);
    }
}

/// O(n) time and O(1) space SAIS algorithm for read-only byte string.
pub fn sacak(s: &[u8], sa: &mut [u32])
    requires
        s.len() <= MAX_LENGTH,
        s.len() + 1 == old(sa).len(),
    ensures
        is_suffix_array(text_of(s@), final(sa)@),
{
    sacak0::<InnerSorter>(s, sa);
}

} // verus!
