//! The suffix sorter behind [`SuffixArray::new`](crate::SuffixArray::new).
use vstd::prelude::*;
use crate::construct::utils::text_of;
use crate::order::{is_suffix_array, suf_lt};

verus! {

/// Maximum length of the input string.
pub const MAX_LENGTH: usize = 0x7fff_ffff;

/// `cdivsufsort::sort_in_place`, which sorts the suffixes of `s` with
/// libdivsufsort.
///
/// Not proved here: that on return `sa` lists the starts of the `s.len()`
/// non-empty suffixes of `s` in strictly ascending lexicographic order.
/// The sorter wants signed entries and refuses strings of `i32::MAX` bytes
/// and more.
#[verifier::external_body]
fn divsufsort(s: &[u8], sa: &mut [u32])
    requires
        s.len() < 0x7fff_ffff,
        old(sa).len() == s.len(),
    ensures
        final(sa).len() == s.len(),
        forall|i: int| 0 <= i < s.len() ==> #[trigger] final(sa)[i] < s.len(),
        forall|i: int, j: int|
            0 <= i < j < s.len() ==> suf_lt(
                text_of(s@),
                #[trigger] final(sa)[i] as int,
                #[trigger] final(sa)[j] as int,
            ),
{
    let mut signed: Vec<i32> = vec![0i32; sa.len()];
    cdivsufsort::sort_in_place(s, &mut signed[..]);
    for (entry, start) in sa.iter_mut().zip(signed.iter()) {
        *entry = *start as u32;
    }
}

/// Wrapper of the underlying suffix array construction algorithm.
pub fn saca(s: &[u8], sa: &mut [u32])
    requires
        s.len() <= MAX_LENGTH,
        old(sa).len() == s.len() + 1,
    ensures
        is_suffix_array(text_of(s@), final(sa)@),
{
    let n = s.len();
    if n == MAX_LENGTH {
        // one byte more than the outside sorter takes
        crate::construct::saca(s, sa);
        return ;
    }
    sa[0] = n as u32;
    let (head, tail) = sa.split_at_mut(1);
    divsufsort(s, tail);
    proof {
        let t = text_of(s@);
        let out = head@ + tail@;
        assert(out.len() == n + 1);
        assert(out[0] == n);
        assert forall|i: int| 0 <= i < out.len() implies #[trigger] out[i] <= t.len() by {
            if i > 0 {
                assert(out[i] == tail@[i - 1]);
            }
        }
        assert forall|i: int, j: int| 0 <= i < j < out.len() implies suf_lt(
            t,
            #[trigger] out[i] as int,
            #[trigger] out[j] as int,
        ) by {
            assert(out[j] == tail@[j - 1]);
            if i > 0 {
                assert(out[i] == tail@[i - 1]);
            }
        }
    }
}

} // verus!
