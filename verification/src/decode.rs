//! From payload bits back to text.

use crate::bits::{bits_of_bytes, source_next, source_open, unread_bits};
use crate::symbols::Symbol;
use crate::table::{Code, DecodeTable};
use crate::CodecError;
use vstd::prelude::*;
use vstd::string::*;

verus! {

/// `head` in front of `tail`, where there is a tail.
pub open spec fn prefixed(head: Seq<char>, tail: Option<Seq<char>>) -> Option<Seq<char>> {
    match tail {
        Some(rest) => Some(head + rest),
        None => None,
    }
}

/// The text that `bits` stand for when `pending` holds the bits that came
/// before them and matched no code yet. Each bit joins the pending bits; as
/// soon as these are a code of the table, the code's symbol is put out and the
/// pending bits are dropped. Bits left pending at the end stand for nothing.
pub open spec fn decode_from(table: Map<Code, Symbol>, bits: Seq<bool>, pending: Code) -> Option<
    Seq<char>,
>
    decreases bits.len(),
{
    if bits.len() == 0 {
        if pending.len() == 0 {
            Some(Seq::empty())
        } else {
            None
        }
    } else {
        let candidate = pending.push(bits[0]);
        if table.dom().contains(candidate) {
            prefixed(table[candidate], decode_from(table, bits.drop_first(), Seq::empty()))
        } else {
            decode_from(table, bits.drop_first(), candidate)
        }
    }
}

/// The text that `bits` stand for under `table`, if they stand for one.
pub open spec fn decoded(table: Map<Code, Symbol>, bits: Seq<bool>) -> Option<Seq<char>> {
    decode_from(table, bits, Seq::empty())
}

/// The text that the first `size` bits of `payload` stand for under `table`;
/// nothing where the payload holds fewer bits, or the bits stand for no text.
pub open spec fn payload_text(table: Map<Code, Symbol>, payload: Seq<u8>, size: nat) -> Option<
    Seq<char>,
> {
    if size > 8 * payload.len() {
        None
    } else {
        decoded(table, bits_of_bytes(payload).take(size as int))
    }
}

/// Pending bits longer than every code of the table never match again.
pub proof fn lemma_overlong_pending(table: Map<Code, Symbol>, bits: Seq<bool>, pending: Code, longest: nat)
    requires
        forall|code: Code| table.dom().contains(code) ==> code.len() <= longest,
        pending.len() > longest,
    ensures
        decode_from(table, bits, pending) is None,
    decreases bits.len(),
{
    if bits.len() > 0 {
        lemma_overlong_pending(table, bits.drop_first(), pending.push(bits[0]), longest);
    }
}

/// Decodes the first `size` bits of `encoded_text_bits`, taken least
/// significant bit first, with the inverted code table `huffman_codes`. The
/// bits behind them are padding and are not read.
///
/// Fails with `CorruptBitstream` where the payload holds fewer than `size`
/// bits, and where the last bits read are no code of the table.
pub fn decode_bits_to_text(encoded_text_bits: &[u8], huffman_codes: &DecodeTable, size: usize) -> (result:
    Result<String, CodecError>)
    requires
        huffman_codes.wf(),
    ensures
        match result {
            Ok(text) => payload_text(huffman_codes@, encoded_text_bits@, size as nat) == Some(text@),
            Err(e) => e == CodecError::CorruptBitstream && payload_text(
                huffman_codes@,
                encoded_text_bits@,
                size as nat,
            ) is None,
        },
{
    let needed = size / 8 + (if size % 8 == 0 {
        0
    } else {
        1
    });
    if needed > encoded_text_bits.len() {
        return Err(CodecError::CorruptBitstream);
    }
    let ghost all = bits_of_bytes(encoded_text_bits@).take(size as int);
    let longest = huffman_codes.longest_code();
    let mut source = source_open(encoded_text_bits);
    let mut decoded_text = String::new();
    let mut current_code: Vec<bool> = Vec::new();
    let mut bit_read: usize = 0;
    assert(all.skip(0) =~= all);
    assert(decoded_text@ + Seq::<char>::empty() =~= Seq::<char>::empty());
    while bit_read < size
        invariant
            huffman_codes.wf(),
            size <= 8 * encoded_text_bits@.len(),
            all == bits_of_bytes(encoded_text_bits@).take(size as int),
            forall|code: Code| huffman_codes@.dom().contains(code) ==> code.len() <= longest,
            bit_read <= size,
            unread_bits(source) == bits_of_bytes(encoded_text_bits@).skip(bit_read as int),
            decoded(huffman_codes@, all) == prefixed(
                decoded_text@,
                decode_from(huffman_codes@, all.skip(bit_read as int), current_code@),
            ),
        decreases size - bit_read,
    {
        let ghost rest = all.skip(bit_read as int);
        let ghost before = decoded_text@;
        let ghost pending = current_code@;
        assert(rest.len() > 0 && rest[0] == all[bit_read as int]);
        assert(rest.drop_first() =~= all.skip(bit_read + 1));
        let bit = match source_next(&mut source) {
            Some(b) => b,
            None => {
                return Err(CodecError::CorruptBitstream);
            },
        };
        assert(bits_of_bytes(encoded_text_bits@).skip(bit_read as int).skip(1) =~= bits_of_bytes(
            encoded_text_bits@,
        ).skip(bit_read + 1));
        bit_read += 1;
        current_code.push(bit);
        match huffman_codes.get(&current_code) {
            Some(character) => {
                decoded_text.append(character.as_str());
                current_code = Vec::new();
                proof {
                    let tail = decode_from(huffman_codes@, all.skip(bit_read as int), Seq::empty());
                    assert(prefixed(before, prefixed(huffman_codes@[pending.push(bit)], tail))
                        =~= prefixed(decoded_text@, tail)) by {
                        if let Some(t) = tail {
                            assert(before + (huffman_codes@[pending.push(bit)] + t) =~= (before
                                + huffman_codes@[pending.push(bit)]) + t);
                        }
                    }
                }
            },
            None => {
                if current_code.len() > longest {
                    proof {
                        lemma_overlong_pending(
                            huffman_codes@,
                            all.skip(bit_read as int),
                            current_code@,
                            longest as nat,
                        );
                    }
                    return Err(CodecError::CorruptBitstream);
                }
            },
        }
    }
    assert(all.skip(bit_read as int).len() == 0);
    if current_code.len() == 0 {
        assert(decoded_text@ + Seq::<char>::empty() =~= decoded_text@);
        Ok(decoded_text)
    } else {
        Err(CodecError::CorruptBitstream)
    }
}

} // verus!
