//! The whole way: from a text to its container, and back.

use crate::bits::bytes_of_bits;
use crate::builder::build_binary_tree;
use crate::codes::{code_map, generate_prefix_table, lemma_code_map_prefix_free};
use crate::container::{
    entry_codes, entry_symbols, framed, read_compressed_file, readable, unframed, written,
    write_compressed_file, Container,
};
use crate::decode::{decode_bits_to_text, payload_text};
use crate::encode::{
    codes_nonempty, covers, encode_text, encoded, inverse_of, inverted, lemma_inverse_of_inverts,
    lemma_round_trip, prefix_free, reverse_map,
};
use crate::forest::{huffman_tree, lemma_huffman_tree};
use crate::frequency::{find_freq, frequencies};
use crate::json::{json_entries, json_text};
use crate::symbols::{grapheme_clusters, Symbol};
use crate::table::Code;
use crate::CodecError;
use vstd::prelude::*;

verus! {

/// The code table of a sequence of symbols: that of the Huffman tree of their
/// counts.
pub open spec fn table_of_symbols(symbols: Seq<Symbol>) -> Map<Symbol, Code> {
    code_map(huffman_tree(frequencies(symbols)))
}

/// The code table that a text is compressed with: that of its grapheme
/// clusters.
pub open spec fn text_table(text: Seq<char>) -> Map<Symbol, Code> {
    table_of_symbols(grapheme_clusters(text))
}

/// The payload bits of a text.
pub open spec fn text_bits(text: Seq<char>) -> Seq<bool> {
    encoded(grapheme_clusters(text), text_table(text))
}

/// The code table of a sequence of symbols that is not empty has a code for
/// each of them; no code is empty, and none begins another.
pub proof fn lemma_table_of_symbols(symbols: Seq<Symbol>)
    requires
        symbols.len() > 0,
    ensures
        covers(table_of_symbols(symbols), symbols),
        codes_nonempty(table_of_symbols(symbols)),
        prefix_free(table_of_symbols(symbols)),
{
    let counts = frequencies(symbols);
    assert(counts.dom() =~= symbols.to_set());
    vstd::seq_lib::seq_to_set_is_finite(symbols);
    assert(counts.dom().contains(symbols[0]));
    lemma_huffman_tree(counts);
    lemma_code_map_prefix_free(huffman_tree(counts));
    assert forall|i: int| 0 <= i < symbols.len() implies table_of_symbols(symbols).dom().contains(
        #[trigger] symbols[i],
    ) by {
        assert(symbols.contains(symbols[i]));
    }
}

/// Round trip: the symbols of a sequence that is not empty, encoded with
/// their own code table, packed, and decoded with the inverse of the table up
/// to the number of bits that were packed, are the symbols again, joined.
pub proof fn lemma_round_trip_of_symbols(symbols: Seq<Symbol>)
    requires
        symbols.len() > 0,
    ensures
        payload_text(
            inverse_of(table_of_symbols(symbols)),
            bytes_of_bits(encoded(symbols, table_of_symbols(symbols))),
            encoded(symbols, table_of_symbols(symbols)).len(),
        ) == Some(symbols.flatten()),
{
    let table = table_of_symbols(symbols);
    lemma_table_of_symbols(symbols);
    lemma_inverse_of_inverts(table);
    lemma_round_trip(table, inverse_of(table), symbols);
}

impl Container {
    /// The text that the payload stands for under the inverse of the table;
    /// nothing where the payload is shorter than the bit count, or its bits
    /// stand for no text.
    pub open spec fn text(&self) -> Option<Seq<char>> {
        payload_text(
            inverted(self.table.symbols(), self.table.codes()),
            self.payload@,
            self.bit_count as nat,
        )
    }
}

/// The text that a readable container holds; nothing where its payload is
/// shorter than its bit count, or its bits stand for no text.
pub open spec fn container_text(blob: Seq<u8>) -> Option<Seq<char>> {
    let frame = unframed(blob)->0;
    let entries = json_entries(frame.block)->0;
    payload_text(
        inverted(entry_symbols(entries), entry_codes(entries)),
        frame.payload,
        frame.bit_count as nat,
    )
}

/// Encodes `text`: the code table of its Huffman tree, the payload, and the
/// number of payload bits. What `decode` makes of the three is `text` again.
///
/// Fails with `EmptyInput` where `text` is empty, and not otherwise.
pub fn encode(text: &str) -> (result: Result<Container, CodecError>)
    ensures
        match result {
            Ok(container) => {
                &&& text@.len() > 0
                &&& container.table.wf()
                &&& container.table@ == text_table(text@)
                &&& prefix_free(container.table@)
                &&& container.bit_count == text_bits(text@).len()
                &&& container.payload@ == bytes_of_bits(text_bits(text@))
                &&& container.text() == Some(text@)
            },
            Err(e) => e == CodecError::EmptyInput && text@.len() == 0,
        },
{
    let char_count = find_freq(text);
    let huffman_tree = match build_binary_tree(&char_count) {
        Ok(tree) => tree,
        Err(e) => {
            return Err(e);
        },
    };
    let huffman_codes = generate_prefix_table(&huffman_tree);
    proof {
        let symbols = grapheme_clusters(text@);
        assert forall|i: int| 0 <= i < symbols.len() implies huffman_codes@.dom().contains(
            #[trigger] symbols[i],
        ) by {
            assert(symbols.contains(symbols[i]));
        }
    }
    match encode_text(text, &huffman_codes) {
        Ok((encoded_text_bits, size)) => {
            proof {
                crate::encode::lemma_inverted_inverts(huffman_codes.symbols(), huffman_codes.codes());
                crate::encode::lemma_inverse_unique(
                    huffman_codes@,
                    inverted(huffman_codes.symbols(), huffman_codes.codes()),
                );
            }
            Ok(Container { table: huffman_codes, bit_count: size, payload: encoded_text_bits })
        },
        Err(e) => {
            // The table has a code for each cluster of the text it was made from.
            assert(false);
            Err(e)
        },
    }
}

/// Decodes the payload of `container` with the inverse of its table, up to
/// its bit count.
///
/// Fails with `CorruptBitstream` where the payload holds fewer bits than the
/// bit count, and where its last bits are no code of the table.
pub fn decode(container: &Container) -> (result: Result<String, CodecError>)
    requires
        container.table.wf(),
    ensures
        match result {
            Ok(text) => container.text() == Some(text@),
            Err(e) => e == CodecError::CorruptBitstream && container.text() is None,
        },
{
    let reverse_mapping = reverse_map(&container.table);
    decode_bits_to_text(container.payload.as_slice(), &reverse_mapping, container.bit_count)
}

/// Compresses `text` into the bytes of a container: the code table of its
/// Huffman tree, the number of payload bits, and the payload.
///
/// Fails with `EmptyInput` where `text` is empty, and not otherwise.
pub fn compress(text: &str) -> (result: Result<Vec<u8>, CodecError>)
    ensures
        text@.len() > 0 ==> result is Ok,
        match result {
            Ok(blob) => {
                &&& text@.len() > 0
                &&& text_bits(text@).len() <= usize::MAX
                &&& blob@ == framed(
                    json_text(written(text_table(text@))),
                    text_bits(text@).len() as u64,
                    bytes_of_bits(text_bits(text@)),
                )
            },
            Err(e) => e == CodecError::EmptyInput && text@.len() == 0,
        },
{
    let container = match encode(text) {
        Ok(container) => container,
        Err(e) => {
            return Err(e);
        },
    };
    write_compressed_file(&container.table, container.bit_count, container.payload.as_slice())
}

/// Expands the bytes of a container into the text that it holds.
///
/// Fails with `MalformedContainer` where `blob` is no readable container, and
/// with `CorruptBitstream` where the payload holds fewer bits than the bit
/// count, or its last bits are no code of the table.
pub fn decompress(blob: &[u8]) -> (result: Result<String, CodecError>)
    ensures
        match result {
            Ok(text) => readable(blob@) && container_text(blob@) == Some(text@),
            Err(e) => e == CodecError::MalformedContainer && !readable(blob@) || e
                == CodecError::CorruptBitstream && readable(blob@) && container_text(blob@) is None,
        },
{
    let container = match read_compressed_file(blob) {
        Ok(container) => container,
        Err(e) => {
            return Err(e);
        },
    };
    decode(&container)
}

} // verus!
