//! O(n) time and O(1) space SAIS algorithm for read-only byte string.
//!
//! The algorithm was described in [Ge Nong. 2013.
//! Practical linear-time O(1)-workspace suffix sorting for constant
//! alphabets.](https://dl.acm.org/citation.cfm?doid=2493175.2493180).
use vstd::prelude::*;
use crate::construct::utils::text_of;
use crate::order::is_suffix_array;

pub mod llhsais;
pub mod lms;
pub mod sacak;
pub mod sacak0;
pub mod sais_bytes;
pub mod sais_ints_mut;
pub mod utils;

verus! {

/// Maximum length of the input string.
pub const MAX_LENGTH: usize = 0x7fff_ffff;

/// Suffix array construction algorithm.
pub fn saca(s: &[u8], sa: &mut [u32])
    requires
        s.len() <= MAX_LENGTH,
        s.len() + 1 == old(sa).len(),
    ensures
        is_suffix_array(text_of(s@), final(sa)@),
{
    sacak::sacak(s, sa);
}

} // verus!
