//! Bits packed into bytes, least significant bit first.

use bitstream_io::{BitRead, BitReader, BitWrite, BitWriter, LittleEndian};
use vstd::prelude::*;

verus! {

/// The weight of bit `k` of a byte: two to the power `k`.
pub open spec fn place_value(k: int) -> int {
    if k == 0 {
        1
    } else if k == 1 {
        2
    } else if k == 2 {
        4
    } else if k == 3 {
        8
    } else if k == 4 {
        16
    } else if k == 5 {
        32
    } else if k == 6 {
        64
    } else {
        128
    }
}

/// Bit `k` of `byte`, where bit 0 is the least significant.
pub open spec fn bit_of(byte: u8, k: int) -> bool {
    (byte as int / place_value(k)) % 2 == 1
}

/// What bit `i` of `bits` adds to its byte before weighting: 1 for a set bit,
/// 0 for a clear bit and for the padding behind the last bit.
pub open spec fn bit_or_zero(bits: Seq<bool>, i: int) -> int {
    if 0 <= i < bits.len() && bits[i] {
        1
    } else {
        0
    }
}

/// Byte `j` of the packed form of `bits`: bits `8j .. 8j + 8`, the first of
/// them in the least significant place.
pub open spec fn byte_of(bits: Seq<bool>, j: int) -> u8 {
    (bit_or_zero(bits, 8 * j) + 2 * bit_or_zero(bits, 8 * j + 1) + 4 * bit_or_zero(bits, 8 * j + 2)
        + 8 * bit_or_zero(bits, 8 * j + 3) + 16 * bit_or_zero(bits, 8 * j + 4) + 32 * bit_or_zero(
        bits,
        8 * j + 5,
    ) + 64 * bit_or_zero(bits, 8 * j + 6) + 128 * bit_or_zero(bits, 8 * j + 7)) as u8
}

/// The packed form of `bits`: eight bits to a byte, the last byte padded with
/// clear bits.
pub open spec fn bytes_of_bits(bits: Seq<bool>) -> Seq<u8> {
    Seq::new(((bits.len() + 7) / 8) as nat, |j: int| byte_of(bits, j))
}

/// All the bits of `bytes`, padding included, in the order in which they were
/// packed.
pub open spec fn bits_of_bytes(bytes: Seq<u8>) -> Seq<bool> {
    Seq::new(8 * bytes.len(), |i: int| bit_of(bytes[i / 8], i % 8))
}

/// `count` clear bits.
pub open spec fn clear_bits(count: nat) -> Seq<bool> {
    Seq::new(count, |i: int| false)
}

/// The number of clear bits that bring `len` bits up to a whole byte.
pub open spec fn padding_len(len: nat) -> nat {
    ((8 - len % 8) % 8) as nat
}

/// The lowest bit of a number and the bits above it.
proof fn lemma_low_bit(b: int, rest: int)
    requires
        0 <= b <= 1,
    ensures
        (b + 2 * rest) % 2 == b,
        (b + 2 * rest) / 2 == rest,
{
}

/// Each of eight bits is found again in the number that they make up.
proof fn lemma_bit_of_sum(b0: int, b1: int, b2: int, b3: int, b4: int, b5: int, b6: int, b7: int)
    requires
        0 <= b0 <= 1,
        0 <= b1 <= 1,
        0 <= b2 <= 1,
        0 <= b3 <= 1,
        0 <= b4 <= 1,
        0 <= b5 <= 1,
        0 <= b6 <= 1,
        0 <= b7 <= 1,
    ensures
        ({
            let v = b0 + 2 * b1 + 4 * b2 + 8 * b3 + 16 * b4 + 32 * b5 + 64 * b6 + 128 * b7;
            &&& 0 <= v < 256
            &&& (v / 1) % 2 == b0
            &&& (v / 2) % 2 == b1
            &&& (v / 4) % 2 == b2
            &&& (v / 8) % 2 == b3
            &&& (v / 16) % 2 == b4
            &&& (v / 32) % 2 == b5
            &&& (v / 64) % 2 == b6
            &&& (v / 128) % 2 == b7
        }),
{
    let r7 = b7;
    let r6 = b6 + 2 * r7;
    let r5 = b5 + 2 * r6;
    let r4 = b4 + 2 * r5;
    let r3 = b3 + 2 * r4;
    let r2 = b2 + 2 * r3;
    let r1 = b1 + 2 * r2;
    let v = b0 + 2 * r1;
    lemma_low_bit(b0, r1);
    lemma_low_bit(b1, r2);
    lemma_low_bit(b2, r3);
    lemma_low_bit(b3, r4);
    lemma_low_bit(b4, r5);
    lemma_low_bit(b5, r6);
    lemma_low_bit(b6, r7);
    assert(v / 2 == r1);
    assert(v / 4 == r2) by {
        assert(v / 4 == (v / 2) / 2);
    }
    assert(v / 8 == r3) by {
        assert(v / 8 == (v / 4) / 2);
    }
    assert(v / 16 == r4) by {
        assert(v / 16 == (v / 8) / 2);
    }
    assert(v / 32 == r5) by {
        assert(v / 32 == (v / 16) / 2);
    }
    assert(v / 64 == r6) by {
        assert(v / 64 == (v / 32) / 2);
    }
    assert(v / 128 == r7) by {
        assert(v / 128 == (v / 64) / 2);
    }
}

/// Bit `k` of a packed byte is the bit that was packed into it.
pub proof fn lemma_bit_of_byte(bits: Seq<bool>, j: int, k: int)
    requires
        0 <= k < 8,
    ensures
        bit_of(byte_of(bits, j), k) == (bit_or_zero(bits, 8 * j + k) == 1),
{
    lemma_bit_of_sum(
        bit_or_zero(bits, 8 * j),
        bit_or_zero(bits, 8 * j + 1),
        bit_or_zero(bits, 8 * j + 2),
        bit_or_zero(bits, 8 * j + 3),
        bit_or_zero(bits, 8 * j + 4),
        bit_or_zero(bits, 8 * j + 5),
        bit_or_zero(bits, 8 * j + 6),
        bit_or_zero(bits, 8 * j + 7),
    );
}

/// Unpacking what was packed gives the bits back, followed by the padding.
pub proof fn lemma_unpack_pack(bits: Seq<bool>)
    ensures
        bits_of_bytes(bytes_of_bits(bits)).len() >= bits.len(),
        bits_of_bytes(bytes_of_bits(bits)).take(bits.len() as int) == bits,
{
    let bytes = bytes_of_bits(bits);
    let back = bits_of_bytes(bytes);
    assert forall|i: int| 0 <= i < bits.len() implies #[trigger] back[i] == bits[i] by {
        lemma_bit_of_byte(bits, i / 8, i % 8);
    }
    assert(back.take(bits.len() as int) =~= bits);
}

/// Clear bits behind the last bit do not change the packed bytes.
pub proof fn lemma_pack_padded(bits: Seq<bool>)
    ensures
        bytes_of_bits(bits + clear_bits(padding_len(bits.len()))) == bytes_of_bits(bits),
{
    let padded = bits + clear_bits(padding_len(bits.len()));
    assert forall|i: int| bit_or_zero(padded, i) == bit_or_zero(bits, i) by {}
    assert(bytes_of_bits(padded) =~= bytes_of_bits(bits));
}

/// A `bitstream_io::BitWriter` that writes into a byte vector of its own,
/// least significant bit first.
#[verifier::external_body]
pub struct BitSink {
    writer: BitWriter<Vec<u8>, LittleEndian>,
}

/// The bits that a sink has been given so far, oldest first.
pub uninterp spec fn written_bits(sink: BitSink) -> Seq<bool>;

/// `BitWriter::new` on an empty vector: nothing has been written.
#[verifier::external_body]
pub(crate) fn sink_new() -> (sink: BitSink)
    ensures
        written_bits(sink) == Seq::<bool>::empty(),
{
    BitSink { writer: BitWriter::new(Vec::new()) }
}

/// `BitWrite::write_bit`: the bit comes behind those written before. The
/// writer reports only errors of the vector below it, which has none.
#[verifier::external_body]
pub(crate) fn sink_push(sink: &mut BitSink, bit: bool)
    ensures
        written_bits(*final(sink)) == written_bits(*old(sink)).push(bit),
{
    sink.writer.write_bit(bit).unwrap();
}

/// `BitWrite::byte_align`: clear bits are written until the count is a
/// multiple of eight.
#[verifier::external_body]
pub(crate) fn sink_align(sink: &mut BitSink)
    ensures
        written_bits(*final(sink)) == written_bits(*old(sink)) + clear_bits(
            padding_len(written_bits(*old(sink)).len()),
        ),
{
    sink.writer.byte_align().unwrap();
}

/// `BitWriter::into_writer`: the vector that the whole bytes went to. Bits of
/// an unfinished byte would be lost, so the sink must be aligned.
#[verifier::external_body]
pub(crate) fn sink_into_bytes(sink: BitSink) -> (bytes: Vec<u8>)
    requires
        written_bits(sink).len() % 8 == 0,
    ensures
        bytes@ == bytes_of_bits(written_bits(sink)),
{
    sink.writer.into_writer()
}

/// A `bitstream_io::BitReader` over a byte slice, least significant bit
/// first.
#[verifier::external_body]
pub struct BitSource<'a> {
    reader: BitReader<&'a [u8], LittleEndian>,
}

/// The bits that a source has yet to hand out, next first.
pub uninterp spec fn unread_bits(source: BitSource) -> Seq<bool>;

/// `BitReader::new`: every bit of the slice is still to come.
#[verifier::external_body]
pub(crate) fn source_open<'a>(bytes: &'a [u8]) -> (source: BitSource<'a>)
    ensures
        unread_bits(source) == bits_of_bytes(bytes@),
{
    BitSource { reader: BitReader::new(bytes) }
}

/// `BitRead::read_bit`: the next bit, or nothing once the slice is used up
/// (the reader's only error on a slice).
#[verifier::external_body]
pub(crate) fn source_next(source: &mut BitSource) -> (bit: Option<bool>)
    ensures
        match bit {
            Some(b) => unread_bits(*old(source)).len() > 0 && b == unread_bits(*old(source))[0]
                && unread_bits(*final(source)) == unread_bits(*old(source)).skip(1),
            None => unread_bits(*old(source)).len() == 0 && unread_bits(*final(source))
                == unread_bits(*old(source)),
        },
{
    source.reader.read_bit().ok()
}

/// Packs `bits` into bytes, least significant bit first, the last byte padded
/// with clear bits.
pub fn pack_bits(bits: &Vec<bool>) -> (bytes: Vec<u8>)
    ensures
        bytes@ == bytes_of_bits(bits@),
{
    let mut sink = sink_new();
    let mut i: usize = 0;
    while i < bits.len()
        invariant
            i <= bits.len(),
            written_bits(sink) == bits@.take(i as int),
        decreases bits.len() - i,
    {
        sink_push(&mut sink, bits[i]);
        assert(bits@.take(i as int).push(bits@[i as int]) =~= bits@.take(i + 1));
        i += 1;
    }
    assert(bits@.take(i as int) =~= bits@);
    sink_align(&mut sink);
    proof {
        lemma_pack_padded(bits@);
    }
    sink_into_bytes(sink)
}

/// Reads the first `count` bits of `bytes`, or nothing where `bytes` holds
/// fewer.
pub fn unpack_bits(bytes: &[u8], count: usize) -> (bits: Option<Vec<bool>>)
    ensures
        match bits {
            Some(b) => count <= 8 * bytes@.len() && b@ == bits_of_bytes(bytes@).take(count as int),
            None => count > 8 * bytes@.len(),
        },
{
    let mut source = source_open(bytes);
    let mut out: Vec<bool> = Vec::new();
    while out.len() < count
        invariant
            out.len() <= count,
            out.len() <= 8 * bytes@.len(),
            out@ == bits_of_bytes(bytes@).take(out.len() as int),
            unread_bits(source) == bits_of_bytes(bytes@).skip(out.len() as int),
        decreases count - out.len(),
    {
        match source_next(&mut source) {
            Some(b) => {
                let ghost n = out.len() as int;
                out.push(b);
                assert(out@ =~= bits_of_bytes(bytes@).take(n + 1));
                assert(bits_of_bytes(bytes@).skip(n).skip(1) =~= bits_of_bytes(bytes@).skip(n + 1));
            },
            None => {
                return None;
            },
        }
    }
    Some(out)
}

} // verus!
