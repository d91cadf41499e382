use suffix_array::packed_sa::{PackError, PackedSuffixArray};
use suffix_array::sa::LoadError;
use suffix_array::SuffixArray;

fn bytes_of_length(n: usize) -> Vec<u8> {
    (0..n as u32).map(|i| (i.wrapping_mul(2654435761) >> 13) as u8 % 7).collect()
}

#[test]
fn pack_round_trip_of_small_arrays() {
    for n in 0..300 {
        let s = bytes_of_length(n);
        let (_, sa) = SuffixArray::new(&s[..]).into_parts();
        let packed = PackedSuffixArray::from_sa(&sa[..]);
        assert_eq!(packed.into_sa(), sa);
    }
}

#[test]
fn pack_round_trip_with_zero_in_the_last_block() {
    // 128 bytes make 129 entries: the last block holds one entry, here a zero
    let mut s = vec![b'a'; 128];
    s[0] = b'z';
    let (_, sa) = SuffixArray::new(&s[..]).into_parts();
    assert_eq!(sa[128], 0);
    let packed = PackedSuffixArray::from_sa(&sa[..]);
    assert_eq!(packed.into_sa(), sa);
}

#[test]
fn pack_of_the_empty_string_has_no_payload() {
    let sa = SuffixArray::new(b"");
    let bytes = sa.dump_bytes().unwrap();
    assert_eq!(bytes, vec![b'S', b'A', b'4', b'x', 1, 0, 0, 0]);
    let back = SuffixArray::load_bytes(b"", &bytes[..]).unwrap();
    assert_eq!(back.into_parts().1, vec![0]);
}

#[test]
fn pack_envelope_of_banana() {
    let sa = SuffixArray::new(b"banana");
    let bytes = sa.dump_bytes().unwrap();
    assert_eq!(&bytes[..4], b"SA4x");
    assert_eq!(&bytes[4..8], &[7, 0, 0, 0]);
    // seven entries of three bits each: the block is cut behind its last byte that is not zero
    assert!(bytes.len() > 8 && bytes.len() <= 8 + 3 * 16);
    assert_ne!(bytes[bytes.len() - 1], 0);
}

#[test]
fn dump_and_load_bytes_round_trip() {
    for n in [1usize, 2, 127, 128, 129, 255, 256, 257, 1000, 4096] {
        let s = bytes_of_length(n);
        let sa1 = SuffixArray::new(&s[..]);
        let bytes = sa1.dump_bytes().unwrap();
        let sa2 = SuffixArray::load_bytes(&s[..], &bytes[..]).unwrap();
        assert_eq!(sa1.into_parts().1, sa2.into_parts().1);
    }
}

#[test]
fn load_bytes_refuses_truncated_bytes() {
    assert_eq!(PackedSuffixArray::load_bytes(b"SA4x").err(), Some(PackError::Truncated));
    assert_eq!(
        SuffixArray::load_bytes(b"", b"SA4x\x01\x00\x00").err(),
        Some(LoadError::Pack(PackError::Truncated))
    );
}

#[test]
fn load_bytes_refuses_a_wrong_magic_word() {
    assert_eq!(
        PackedSuffixArray::load_bytes(b"SA8x\x01\x00\x00\x00").err(),
        Some(PackError::BadMagic)
    );
}

#[test]
fn load_bytes_refuses_too_many_bytes() {
    // one entry takes no bits, so no byte may follow
    assert_eq!(
        PackedSuffixArray::load_bytes(b"SA4x\x01\x00\x00\x00\x00").err(),
        Some(PackError::Oversized)
    );
}

#[test]
fn load_bytes_refuses_the_array_of_another_string() {
    let bytes = SuffixArray::new(b"banana").dump_bytes().unwrap();
    assert_eq!(
        SuffixArray::load_bytes(b"ananab", &bytes[..]).err(),
        Some(LoadError::Inconsistent)
    );
    assert!(SuffixArray::load_bytes(b"banana", &bytes[..]).is_ok());
}

#[test]
fn unchecked_load_bytes_takes_what_was_dumped() {
    let s = b"splendid splendor";
    let bytes = SuffixArray::new(s).dump_bytes().unwrap();
    let sa = SuffixArray::unchecked_load_bytes(s, &bytes[..]).unwrap();
    assert!(sa.contains(b"splend"));
}
