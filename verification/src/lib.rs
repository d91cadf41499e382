//! Suffix array construction and searching for in-memory binary data.
//!
//! A suffix array of a byte string `s` of length `n` lists the positions
//! `0..=n` so that the suffixes starting there ascend in lexicographic
//! order.  The position `n` stands for the empty suffix and always comes
//! first.  On top of the array the crate offers substring search; below it,
//! several linear-time constructions by induced sorting.
use vstd::prelude::*;

pub mod bucket_table;
pub mod construct;
pub mod order;
pub mod packed_sa;
pub mod sa;
pub mod saca;
pub mod sais;
pub mod utils;

pub use self::sa::SuffixArray;
pub use self::saca::MAX_LENGTH;

verus! {

} // verus!
