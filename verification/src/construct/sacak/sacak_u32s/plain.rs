//! The workspace between the passes, when every suffix that is placed
//! stands in its own place.
use vstd::prelude::*;
use crate::construct::llhsais::layout::flat;
use crate::construct::sacak::sacak_u32s::EMPTY;

verus! {

/// The workspace with the empty places marked as the passes' invariants
/// have them.
pub open spec fn lift(sa: Seq<u32>) -> Seq<u32> {
    Seq::new(
        sa.len(),
        |z: int|
            if sa[z] == EMPTY {
                crate::construct::sacak::EMPTY
            } else {
                sa[z]
            },
    )
}

/// Whether each place holds a suffix or the empty mark.
pub open spec fn tidy(sa: Seq<u32>) -> bool {
    forall|z: int| 0 <= z < sa.len() ==> #[trigger] sa[z] <= EMPTY
}

/// Whether the workspace holds each suffix that is placed in its own
/// place, and the empty mark elsewhere.
pub open spec fn level(u: Seq<int>, b: Seq<crate::sais::utils::Span>, sa: Seq<u32>, pos: Seq<int>) -> bool {
    &&& u.len() < EMPTY
    &&& tidy(sa)
    &&& flat(u, b, lift(sa), pos)
}

} // verus!
