//! Lossless compression of text with Huffman codes.
//!
//! A text is taken grapheme cluster by grapheme cluster. The clusters are
//! counted, the counts grow into a Huffman tree, and the tree gives each
//! cluster a code that begins no other. The codes of the text, one behind the
//! other, are packed into bytes, least significant bit first; code table, bit
//! count and payload together make a container. Expanding goes the same way
//! back, and gives the text again.

use vstd::prelude::*;

pub mod assoc;
pub mod bits;
pub mod builder;
pub mod codes;
pub mod container;
pub mod decode;
pub mod encode;
pub mod forest;
pub mod frequency;
pub mod json;
pub mod pipeline;
pub mod queue;
pub mod symbols;
pub mod table;
pub mod tree;

pub use builder::build_binary_tree;
pub use codes::{build_prefix_table_recursive, generate_prefix_table};
pub use container::{
    frame_container, read_compressed_file, split_container, write_compressed_file, Container,
};
pub use decode::decode_bits_to_text;
pub use encode::{encode_symbols, encode_text, reverse_map};
pub use frequency::{count_symbols, find_freq, FrequencyTable};
pub use pipeline::{compress, decode, decompress, encode};
pub use table::{CodeTable, DecodeTable};
pub use tree::{HuffmanBaseNode, HuffmanInternalNode, HuffmanLeafNode, HuffmanTree};

verus! {

/// The ways in which compressing or expanding a text can fail.
#[derive(Clone, Copy, Debug, PartialEq, Eq, Structural)]
pub enum CodecError {
    /// There is no symbol to build a tree from.
    EmptyInput,
    /// The text holds a symbol that the code table does not.
    UnknownSymbol,
    /// The container's structure cannot be read.
    MalformedContainer,
    /// The payload ends, or its last bits match no code.
    CorruptBitstream,
}

} // verus!
