//! Suffix arrays packed to the width of their largest entry.
//!
//! The entries are packed in blocks of 128 with as many bits each as the
//! largest position needs.  In front of the packed blocks stand a magic word
//! and the number of entries.  Zero bytes at the end of the last block are
//! left out.
use vstd::prelude::*;
use vstd::bytes::{
    lemma_auto_spec_u32_to_from_le_bytes, spec_u32_from_le_bytes, spec_u32_to_le_bytes,
    u32_from_le_bytes, u32_to_le_bytes,
};
use vstd::std_specs::bits::{axiom_u32_leading_zeros, u32_leading_zeros};
use bitpacking::{BitPacker, BitPacker4x};

verus! {

// Little endian of b"SA4x", i.e. Compressed Suffix Array using BitPacker4x.
pub const MAGIC_CSA4: u32 = 2016690515;

/// Number of entries in a block.
pub const BLOCK_LEN: usize = 128;

/// Number of bits that the entries of an array of `length` positions need.
pub open spec fn bit_width(length: u32) -> u8 {
    (32 - u32_leading_zeros(
        if length == 0 {
            0u32
        } else {
            (length - 1) as u32
        },
    )) as u8
}

/// Whether `v` can be written with `bits` bits.
pub open spec fn fits(v: u32, bits: u8) -> bool {
    bits >= 32 || v >> (bits as u32) == 0
}

/// Whether every entry can be written with `bits` bits.
pub open spec fn all_fit(sa: Seq<u32>, bits: u8) -> bool {
    forall|i: int| 0 <= i < sa.len() ==> fits(#[trigger] sa[i], bits)
}

/// Number of bytes of a packed block.
pub open spec fn block_bytes(bits: u8) -> int {
    bits as int * 16
}

/// What `BitPacker4x::compress` writes for a block of values.
pub uninterp spec fn packed_block(values: Seq<u32>, bits: u8) -> Seq<u8>;

/// What `BitPacker4x::decompress` reads from a packed block.
pub uninterp spec fn unpacked_block(bytes: Seq<u8>, bits: u8) -> Seq<u32>;

/// `BitPacker4x::compress`, which packs a block of 128 values of `bits` bits
/// into `bits * 16` bytes.
///
/// Not proved here: that it fills `buf`, and that what it writes depends on
/// the values and the width alone.
#[verifier::external_body]
fn compress(chunk: &[u32], buf: &mut [u8], bits: u8)
    requires
        chunk.len() == BLOCK_LEN,
        bits <= 32,
        old(buf).len() == block_bytes(bits),
        all_fit(chunk@, bits),
    ensures
        final(buf).len() == old(buf).len(),
        final(buf)@ == packed_block(chunk@, bits),
{
    BitPacker4x::new().compress(chunk, buf, bits);
}

/// `BitPacker4x::decompress`, which unpacks a block of `bits * 16` bytes to
/// 128 values.
///
/// Not proved here: that it fills `buf`, that what it writes depends on the
/// bytes and the width alone, and that it gives back the values of which
/// `compress` made the bytes.
#[verifier::external_body]
fn decompress(chunk: &[u8], buf: &mut [u32], bits: u8)
    requires
        bits <= 32,
        chunk.len() == block_bytes(bits),
        old(buf).len() == BLOCK_LEN,
    ensures
        final(buf).len() == old(buf).len(),
        final(buf)@ == unpacked_block(chunk@, bits),
        forall|values: Seq<u32>|
            values.len() == BLOCK_LEN && all_fit(values, bits) && chunk@ == #[trigger] packed_block(
                values,
                bits,
            ) ==> final(buf)@ == values,
{
    BitPacker4x::new().decompress(chunk, buf, bits);
}

/// `x` filled up with zeros to `n` entries.
pub open spec fn padded<T>(x: Seq<T>, n: int, zero: T) -> Seq<T> {
    Seq::new(
        (if n >= x.len() {
            n
        } else {
            x.len() as int
        }) as nat,
        |i: int|
            if i < x.len() {
                x[i]
            } else {
                zero
            },
    )
}

/// Length of `x` without the zeros at its end.
pub open spec fn trimmed_len(x: Seq<u8>) -> int
    decreases x.len(),
{
    if x.len() == 0 || x.last() != 0 {
        x.len() as int
    } else {
        trimmed_len(x.drop_last())
    }
}

/// The `k`-th block of `sa`, filled up with zeros where the array ends in it.
pub open spec fn block_of(sa: Seq<u32>, k: int) -> Seq<u32> {
    if 128 * (k + 1) <= sa.len() {
        sa.subrange(128 * k, 128 * k + 128)
    } else {
        padded(sa.subrange(128 * k, sa.len() as int), 128, 0u32)
    }
}

/// The packed blocks of `sa` from the `k`-th on, the last one without the
/// zero bytes at its end.
pub open spec fn payload_from(sa: Seq<u32>, bits: u8, k: int) -> Seq<u8>
    decreases sa.len() - 128 * k,
{
    if k < 0 {
        Seq::empty()
    } else if 128 * (k + 1) <= sa.len() {
        packed_block(block_of(sa, k), bits) + payload_from(sa, bits, k + 1)
    } else if 128 * k < sa.len() {
        let x = packed_block(block_of(sa, k), bits);
        x.take(trimmed_len(x))
    } else {
        Seq::empty()
    }
}

/// Whether every block of `sa` packs to the size of a block.
pub open spec fn well_sized(sa: Seq<u32>, bits: u8) -> bool {
    forall|k: int|
        0 <= k && 128 * k < sa.len() ==> (#[trigger] packed_block(block_of(sa, k), bits)).len()
            == block_bytes(bits)
}

/// The values, `remain` in number, that the packed blocks in `data` hold.
/// Where `data` ends early, zero bytes stand for what is missing.
pub open spec fn unpack_from(data: Seq<u8>, bits: u8, remain: int) -> Seq<u32>
    decreases remain,
{
    if remain <= 0 {
        Seq::empty()
    } else {
        let size = block_bytes(bits);
        let here = if data.len() >= size {
            size
        } else {
            data.len() as int
        };
        let n = if remain >= 128 {
            128
        } else {
            remain
        };
        unpacked_block(padded(data.take(here), size, 0u8), bits).take(n) + unpack_from(
            data.skip(here),
            bits,
            remain - n,
        )
    }
}

/// Behind its trimmed length a block holds zeros only.
proof fn lemma_trimmed(x: Seq<u8>)
    ensures
        0 <= trimmed_len(x) <= x.len(),
        forall|i: int| trimmed_len(x) <= i < x.len() ==> #[trigger] x[i] == 0,
        padded(x.take(trimmed_len(x)), x.len() as int, 0u8) == x,
    decreases x.len(),
{
    if x.len() > 0 && x.last() == 0 {
        lemma_trimmed(x.drop_last());
        assert forall|i: int| trimmed_len(x) <= i < x.len() implies #[trigger] x[i] == 0 by {
            if i < x.len() - 1 {
                assert(x.drop_last()[i] == 0);
            }
        }
    }
    assert(padded(x.take(trimmed_len(x)), x.len() as int, 0u8) =~= x);
}

/// Number of bytes that `length` entries take when no zero byte is left out.
pub open spec fn max_payload(length: u32) -> int {
    ((length + 127) / 128) * block_bytes(bit_width(length))
}

/// The packed blocks are no longer than their blocks are together.
proof fn lemma_payload_len(sa: Seq<u32>, bits: u8, k: int)
    requires
        0 <= k,
        128 * k <= sa.len(),
        well_sized(sa, bits),
    ensures
        payload_from(sa, bits, k).len() <= ((sa.len() + 127) / 128 - k) * block_bytes(bits),
    decreases sa.len() - 128 * k,
{
    let size = block_bytes(bits);
    let blocks = (sa.len() + 127) / 128;
    if 128 * (k + 1) <= sa.len() {
        lemma_payload_len(sa, bits, k + 1);
        assert((blocks - k) * size == (blocks - (k + 1)) * size + size) by (nonlinear_arith);
    } else if 128 * k < sa.len() {
        lemma_trimmed(packed_block(block_of(sa, k), bits));
        assert(blocks - k == 1);
        assert((blocks - k) * size == size) by (nonlinear_arith)
            requires
                blocks - k == 1,
        ;
    } else {
        assert((blocks - k) * size >= 0) by (nonlinear_arith)
            requires
                blocks - k >= 0,
                size >= 0,
        ;
    }
}

/// The bytes of a packed suffix array: the magic word and the number of
/// entries, low byte first, and then the packed blocks.
pub open spec fn envelope(magic: u32, length: u32, data: Seq<u8>) -> Seq<u8> {
    spec_u32_to_le_bytes(magic) + spec_u32_to_le_bytes(length) + data
}

/// What is wrong with `bytes` as a packed suffix array, if anything.
pub open spec fn envelope_fault(bytes: Seq<u8>) -> Option<PackError> {
    if bytes.len() < 8 {
        Some(PackError::Truncated)
    } else if spec_u32_from_le_bytes(bytes.subrange(0, 4)) != MAGIC_CSA4 {
        Some(PackError::BadMagic)
    } else if bytes.len() - 8 > max_payload(spec_u32_from_le_bytes(bytes.subrange(4, 8))) {
        Some(PackError::Oversized)
    } else {
        None
    }
}

/// Bytes written for a packed suffix array are taken back as the same.
pub proof fn lemma_envelope_round_trip(length: u32, data: Seq<u8>)
    requires
        data.len() <= max_payload(length),
    ensures
        envelope_fault(envelope(MAGIC_CSA4, length, data)) is None,
        spec_u32_from_le_bytes(envelope(MAGIC_CSA4, length, data).subrange(4, 8)) == length,
        envelope(MAGIC_CSA4, length, data).skip(8) == data,
{
    lemma_auto_spec_u32_to_from_le_bytes();
    let bytes = envelope(MAGIC_CSA4, length, data);
    assert(bytes.subrange(0, 4) =~= spec_u32_to_le_bytes(MAGIC_CSA4));
    assert(bytes.subrange(4, 8) =~= spec_u32_to_le_bytes(length));
    assert(bytes.skip(8) =~= data);
}

/// The parts of the bytes written for a packed suffix array.
pub proof fn lemma_envelope_parts(length: u32, data: Seq<u8>)
    ensures
        spec_u32_from_le_bytes(envelope(MAGIC_CSA4, length, data).subrange(0, 4)) == MAGIC_CSA4,
        spec_u32_from_le_bytes(envelope(MAGIC_CSA4, length, data).subrange(4, 8)) == length,
        envelope(MAGIC_CSA4, length, data).skip(8) == data,
        envelope(MAGIC_CSA4, length, data).len() == data.len() + 8,
{
    lemma_auto_spec_u32_to_from_le_bytes();
    let bytes = envelope(MAGIC_CSA4, length, data);
    assert(bytes.subrange(0, 4) =~= spec_u32_to_le_bytes(MAGIC_CSA4));
    assert(bytes.subrange(4, 8) =~= spec_u32_to_le_bytes(length));
    assert(bytes.skip(8) =~= data);
}

/// The bytes of a packed array are not refused.
pub proof fn lemma_dump_has_no_fault(sa: Seq<u32>)
    requires
        sa.len() <= u32::MAX,
        well_sized(sa, bit_width(sa.len() as u32)),
    ensures
        envelope_fault(
            envelope(
                MAGIC_CSA4,
                sa.len() as u32,
                payload_from(sa, bit_width(sa.len() as u32), 0),
            ),
        ) is None,
{
    let bits = bit_width(sa.len() as u32);
    lemma_payload_len(sa, bits, 0);
    lemma_envelope_round_trip(sa.len() as u32, payload_from(sa, bits, 0));
}

/// Entries below the length of their array fit its width.
pub proof fn lemma_all_fit(sa: Seq<u32>)
    requires
        sa.len() <= u32::MAX,
        forall|i: int| 0 <= i < sa.len() ==> #[trigger] sa[i] < sa.len(),
    ensures
        all_fit(sa, bit_width(sa.len() as u32)),
{
    assert forall|i: int| 0 <= i < sa.len() implies fits(
        #[trigger] sa[i],
        bit_width(sa.len() as u32),
    ) by {
        lemma_fits(sa.len() as u32, sa[i]);
    }
}

proof fn lemma_fits(length: u32, v: u32)
    requires
        v < length,
    ensures
        fits(v, bit_width(length)),
        bit_width(length) <= 32,
{
    let x = (length - 1) as u32;
    axiom_u32_leading_zeros(x);
    let lz = u32_leading_zeros(x);
    let k = (32 - lz) as u32;
    assert(x >> k == 0);
    if k < 32 {
        assert(v >> k == 0) by (bit_vector)
            requires
                v <= x,
                x >> k == 0,
                k < 32,
        ;
    }
}

fn sa_bits(length: u32) -> (bits: u8)
    ensures
        bits == bit_width(length),
        bits <= 32,
{
    proof {
        axiom_u32_leading_zeros(
            if length == 0 {
                0u32
            } else {
                (length - 1) as u32
            },
        );
    }
    (32 - length.saturating_sub(1).leading_zeros()) as u8
}

/// Why bytes were not taken for a packed suffix array.
#[derive(Debug, Clone, Copy, PartialEq, Eq)]
pub enum PackError {
    /// There are fewer bytes than the magic word and the length take.
    Truncated,
    /// The bytes do not begin with the magic word.
    BadMagic,
    /// There are more bytes than entries of the stated number and width fill.
    Oversized,
}

#[derive(Debug, Clone)]
pub struct PackedSuffixArray {
    magic: u32,
    length: u32,
    data: Vec<u8>,
}

impl PackedSuffixArray {
    /// The magic word.
    pub closed spec fn magic(&self) -> u32 {
        self.magic
    }

    /// The number of entries.
    pub closed spec fn length(&self) -> u32 {
        self.length
    }

    /// The packed blocks.
    pub closed spec fn data(&self) -> Seq<u8> {
        self.data@
    }

    /// Whether the magic word is right and the packed blocks are no longer
    /// than the entries need.
    pub open spec fn wf(&self) -> bool {
        &&& self.magic() == MAGIC_CSA4
        &&& self.data().len() <= max_payload(self.length())
    }

    /// Whether this is `sa`, packed.
    pub open spec fn is_packing_of(&self, sa: Seq<u32>) -> bool {
        &&& self.magic() == MAGIC_CSA4
        &&& self.length() == sa.len()
        &&& all_fit(sa, bit_width(self.length()))
        &&& well_sized(sa, bit_width(self.length()))
        &&& self.data() == payload_from(sa, bit_width(self.length()), 0)
    }

    pub fn from_sa(sa: &[u32]) -> (r: Self)
        requires
            sa.len() <= u32::MAX,
            all_fit(sa@, bit_width(sa.len() as u32)),
        ensures
            r.is_packing_of(sa@),
            r.data().len() <= max_payload(r.length()),
    {
        let magic = MAGIC_CSA4;
        let length = sa.len() as u32;
        let bits = sa_bits(length);
        let u32_chunk_size = BLOCK_LEN;
        let u8_chunk_size = bits as usize * BLOCK_LEN / 8;
        let ghost whole = sa@;

        let mut data: Vec<u8> = Vec::new();
        let mut buf = vec![0u8; u8_chunk_size];
        let mut done: usize = 0;
        let ghost mut k: int = 0;
        while sa.len() - done >= u32_chunk_size
            invariant
                whole == sa@,
                u32_chunk_size == BLOCK_LEN,
                u8_chunk_size == block_bytes(bits),
                bits <= 32,
                all_fit(whole, bits),
                buf.len() == u8_chunk_size,
                0 <= k,
                done == 128 * k,
                done <= sa.len(),
                data@ + payload_from(whole, bits, k) == payload_from(whole, bits, 0),
                forall|j: int|
                    0 <= j < k ==> (#[trigger] packed_block(block_of(whole, j), bits)).len()
                        == block_bytes(bits),
            decreases sa.len() - done,
        {
            let chunk = vstd::slice::slice_subrange(sa, done, done + u32_chunk_size);
            assert(chunk@ == block_of(whole, k));
            assert(all_fit(chunk@, bits)) by {
                assert forall|i: int| 0 <= i < chunk@.len() implies fits(#[trigger] chunk@[i], bits) by {
                    assert(chunk@[i] == whole[done + i]);
                }
            }
            compress(chunk, buf.as_mut_slice(), bits);
            let ghost before = data@;
            data.extend_from_slice(buf.as_slice());
            proof {
                assert(data@ == before + packed_block(block_of(whole, k), bits));
                assert(data@ + payload_from(whole, bits, k + 1) =~= before + payload_from(
                    whole,
                    bits,
                    k,
                ));
                k = k + 1;
            }
            done += u32_chunk_size;
        }
        if sa.len() - done > 0 {
            let mut chunk = vec![0u32; u32_chunk_size];
            let rest = sa.len() - done;
            let mut i: usize = 0;
            while i < rest
                invariant
                    whole == sa@,
                    chunk.len() == 128,
                    rest == sa.len() - done,
                    rest < 128,
                    i <= rest,
                    forall|j: int| 0 <= j < i ==> chunk@[j] == whole[done + j],
                    forall|j: int| i <= j < 128 ==> chunk@[j] == 0,
                decreases rest - i,
            {
                chunk[i] = sa[done + i];
                i += 1;
            }
            assert(chunk@ =~= block_of(whole, k));
            assert(all_fit(chunk@, bits)) by {
                assert forall|i: int| 0 <= i < chunk@.len() implies fits(#[trigger] chunk@[i], bits) by {
                    if i < rest {
                        assert(chunk@[i] == whole[done + i]);
                    } else {
                        assert(0u32 >> (bits as u32) == 0) by (bit_vector);
                    }
                }
            }
            compress(chunk.as_slice(), buf.as_mut_slice(), bits);

            let mut tail = buf.len();
            assert(buf@.take(buf@.len() as int) == buf@);
            while tail > 0 && buf[tail - 1] == 0
                invariant
                    tail <= buf.len(),
                    trimmed_len(buf@) == trimmed_len(buf@.take(tail as int)),
                decreases tail,
            {
                assert(buf@.take(tail as int).drop_last() == buf@.take(tail - 1));
                tail -= 1;
            }
            let ghost before = data@;
            data.extend_from_slice(vstd::slice::slice_subrange(buf.as_slice(), 0, tail));
            proof {
                assert(buf@.take(buf@.len() as int) == buf@);
                assert(data@ =~= before + payload_from(whole, bits, k));
            }
        }
        proof {
            assert(data@ =~= payload_from(whole, bits, 0)) by {
                if sa.len() - done == 0 {
                    assert(payload_from(whole, bits, k) =~= Seq::<u8>::empty());
                }
            }
            assert forall|j: int| 0 <= j && 128 * j < whole.len() implies (#[trigger] packed_block(
                block_of(whole, j),
                bits,
            )).len() == block_bytes(bits) by {
            }
            lemma_payload_len(whole, bits, 0);
        }

        PackedSuffixArray { magic, length, data }
    }

    pub fn into_sa(self) -> (sa: Vec<u32>)
        requires
            self.magic() == MAGIC_CSA4,
        ensures
            sa@.len() == self.length(),
            sa@ == unpack_from(self.data(), bit_width(self.length()), self.length() as int),
            forall|orig: Seq<u32>| #[trigger] self.is_packing_of(orig) ==> sa@ == orig,
    {
        let bits = sa_bits(self.length);
        let u32_chunk_size = BLOCK_LEN;
        let u8_chunk_size = bits as usize * BLOCK_LEN / 8;
        let ghost all = self.data@;
        let ghost length = self.length as int;

        let data = self.data.as_slice();
        let mut remain = self.length as usize;
        let mut sa: Vec<u32> = Vec::new();
        let mut buf = vec![0u32; u32_chunk_size];
        let mut off: usize = 0;
        let ghost mut k: int = 0;
        proof {
            assert(all.skip(0) =~= all);
            assert(sa@ + unpack_from(all, bits, length) =~= unpack_from(all, bits, length));
        }
        while remain > 0
            invariant
                all == self.data@,
                data@ == all,
                length == self.length,
                bits == bit_width(self.length),
                bits <= 32,
                u32_chunk_size == BLOCK_LEN,
                u8_chunk_size == block_bytes(bits),
                buf.len() == BLOCK_LEN,
                off <= data.len(),
                sa.len() + remain == length,
                0 <= k,
                remain > 0 ==> sa.len() == 128 * k,
                sa@ + unpack_from(all.skip(off as int), bits, remain as int) == unpack_from(
                    all,
                    bits,
                    length,
                ),
                forall|orig: Seq<u32>| #[trigger]
                    self.is_packing_of(orig) ==> sa@ == orig.take(sa.len() as int) && (remain > 0
                        ==> all.skip(off as int) == payload_from(orig, bits, k)),
            decreases remain,
        {
            let avail = data.len() - off;
            let n = if remain >= u32_chunk_size { u32_chunk_size } else { remain };
            let ghost rest = all.skip(off as int);
            let ghost here = if avail >= u8_chunk_size { u8_chunk_size as int } else { avail as int };
            let ghost block = padded(rest.take(here), u8_chunk_size as int, 0u8);
            if avail >= u8_chunk_size {
                let chunk = vstd::slice::slice_subrange(data, off, off + u8_chunk_size);
                assert(chunk@ =~= block);
                decompress(chunk, buf.as_mut_slice(), bits);
                off += u8_chunk_size;
            } else {
                let mut chunk = vec![0u8; u8_chunk_size];
                let mut i: usize = 0;
                while i < avail
                    invariant
                        data@ == all,
                        chunk.len() == u8_chunk_size,
                        avail == data.len() - off,
                        avail < u8_chunk_size,
                        i <= avail,
                        forall|j: int| 0 <= j < i ==> chunk@[j] == all[off + j],
                        forall|j: int| i <= j < u8_chunk_size ==> chunk@[j] == 0,
                    decreases avail - i,
                {
                    chunk[i] = data[off + i];
                    i += 1;
                }
                assert(chunk@ =~= block);
                decompress(chunk.as_slice(), buf.as_mut_slice(), bits);
                off = data.len();
            }
            let ghost before = sa@;
            sa.extend_from_slice(vstd::slice::slice_subrange(buf.as_slice(), 0, n));
            proof {
                assert(all.skip(off as int) =~= rest.skip(here));
                assert(sa@ + unpack_from(all.skip(off as int), bits, remain - n) =~= before
                    + unpack_from(rest, bits, remain as int));
                assert forall|orig: Seq<u32>| #[trigger] self.is_packing_of(orig) implies sa@
                    == orig.take(sa.len() as int) && (remain - n > 0 ==> all.skip(off as int)
                    == payload_from(orig, bits, k + 1)) by {
                    let x = packed_block(block_of(orig, k), bits);
                    assert(x.len() == u8_chunk_size);
                    assert(rest == payload_from(orig, bits, k));
                    lemma_trimmed(x);
                    if 128 * (k + 1) <= orig.len() {
                        assert(rest.take(here) =~= x);
                        assert(block =~= x);
                        assert(rest.skip(here) =~= payload_from(orig, bits, k + 1));
                    } else {
                        assert(rest == x.take(trimmed_len(x)));
                        assert(rest.take(here) =~= rest);
                        assert(block =~= x);
                    }
                    assert(all_fit(block_of(orig, k), bits)) by {
                        assert forall|i: int| 0 <= i < block_of(orig, k).len() implies fits(
                            #[trigger] block_of(orig, k)[i],
                            bits,
                        ) by {
                            if 128 * k + i < orig.len() {
                                assert(block_of(orig, k)[i] == orig[128 * k + i]);
                            } else {
                                assert(0u32 >> (bits as u32) == 0) by (bit_vector);
                            }
                        }
                    }
                    assert(buf@ == block_of(orig, k));
                    assert(sa@ =~= orig.take(sa.len() as int));
                }
                k = k + 1;
            }
            remain -= n;
        }
        proof {
            assert forall|orig: Seq<u32>| #[trigger] self.is_packing_of(orig) implies sa@ == orig by {
                assert(orig.take(orig.len() as int) =~= orig);
            }
        }
        sa
    }

    /// The packed array as bytes.
    pub fn dump_bytes(&self) -> (r: Result<Vec<u8>, PackError>)
        ensures
            r matches Ok(bytes) && bytes@ == envelope(self.magic(), self.length(), self.data()),
    {
        let mut bytes = u32_to_le_bytes(self.magic);
        let mut length = u32_to_le_bytes(self.length);
        bytes.append(&mut length);
        bytes.extend_from_slice(self.data.as_slice());
        Ok(bytes)
    }

    /// Takes bytes for a packed array, if they can be one.
    pub fn load_bytes(bytes: &[u8]) -> (r: Result<Self, PackError>)
        ensures
            match r {
                Ok(packed) => {
                    &&& envelope_fault(bytes@) is None
                    &&& packed.magic() == MAGIC_CSA4
                    &&& packed.length() == spec_u32_from_le_bytes(bytes@.subrange(4, 8))
                    &&& packed.data() == bytes@.skip(8)
                },
                Err(e) => envelope_fault(bytes@) == Some(e),
            },
    {
        if bytes.len() < 8 {
            return Err(PackError::Truncated);
        }
        let magic = u32_from_le_bytes(vstd::slice::slice_subrange(bytes, 0, 4));
        if magic != MAGIC_CSA4 {
            return Err(PackError::BadMagic);
        }
        let length = u32_from_le_bytes(vstd::slice::slice_subrange(bytes, 4, 8));
        let bits = sa_bits(length);
        let blocks: u64 = (length as u64 + 127) / 128;
        let size: u64 = bits as u64 * 16;
        proof {
            assert(blocks * size <= 0x200_0000 * 512) by (nonlinear_arith)
                requires
                    0 <= blocks <= 0x200_0000,
                    0 <= size <= 512,
            ;
        }
        let limit: u64 = blocks * size;
        proof {
            assert(blocks * size == max_payload(length)) by (nonlinear_arith)
                requires
                    blocks == (length + 127) / 128,
                    size == bits as int * 16,
                    max_payload(length) == ((length + 127) / 128) * (bits as int * 16),
            ;
        }
        if (bytes.len() - 8) as u64 > limit {
            return Err(PackError::Oversized);
        }
        let data = vstd::slice::slice_to_vec(vstd::slice::slice_subrange(bytes, 8, bytes.len()));
        assert(data@ =~= bytes@.skip(8));
        Ok(PackedSuffixArray { magic, length, data })
    }
}

} // verus!
