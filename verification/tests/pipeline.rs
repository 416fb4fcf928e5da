use compression_tool::{
    build_binary_tree, compress, decode, decode_bits_to_text, decompress, encode, encode_text,
    find_freq, generate_prefix_table, read_compressed_file, reverse_map, CodecError,
};

fn round_trip(text: &str) {
    let blob = compress(text).expect("a text that is not empty is compressed");
    let back = decompress(&blob).expect("what was compressed is expanded");
    assert_eq!(back, text);
}

#[test]
fn round_trip_gives_the_text_back() {
    round_trip("a");
    round_trip("ab");
    round_trip("hello, world");
    round_trip("the quick brown fox jumps over the lazy dog\n");
    round_trip("aaaaaaaaaaaaaaaabbbbbbbbccccdde");
    round_trip("line one\r\nline two\r\n");
    round_trip("\n---\n within the text \n---\n");
}

#[test]
fn round_trip_of_a_longer_text() {
    let mut text = String::new();
    for i in 0..400 {
        text.push_str(&format!("{} bottles of beer on the wall; ", 400 - i));
    }
    round_trip(&text);
}

#[test]
fn round_trip_through_encode_and_decode() {
    let text = "mississippi river";
    let tree = build_binary_tree(&find_freq(text)).unwrap();
    let table = generate_prefix_table(&tree);
    let (bytes, size) = encode_text(text, &table).unwrap();
    let decoded = decode_bits_to_text(&bytes, &reverse_map(&table), size).unwrap();
    assert_eq!(decoded, text);
}

#[test]
fn single_symbol_text() {
    let freq = find_freq("aaaa");
    assert_eq!(freq.len(), 1);
    assert_eq!(freq.get("a"), 4);
    let tree = build_binary_tree(&freq).unwrap();
    assert!(matches!(tree.root(), compression_tool::HuffmanBaseNode::Leaf(_)));
    assert_eq!(tree.weight(), 4);
    let table = generate_prefix_table(&tree);
    assert_eq!(table.len(), 1);
    assert_eq!(table.get("a"), Some(&vec![false]));
    let (bytes, size) = encode_text("aaaa", &table).unwrap();
    assert_eq!(size, 4);
    assert_eq!(bytes, vec![0u8]);
    let decoded = decode_bits_to_text(&bytes, &reverse_map(&table), size).unwrap();
    assert_eq!(decoded, "aaaa");
    round_trip("aaaa");
}

#[test]
fn two_symbol_tie_is_decided_by_the_symbols() {
    let freq = find_freq("abab");
    assert_eq!(freq.len(), 2);
    assert_eq!(freq.get("a"), 2);
    assert_eq!(freq.get("b"), 2);
    let first = generate_prefix_table(&build_binary_tree(&freq).unwrap());
    assert_eq!(first.get("a"), Some(&vec![false]));
    assert_eq!(first.get("b"), Some(&vec![true]));
    for _ in 0..10 {
        let again = generate_prefix_table(&build_binary_tree(&find_freq("abab")).unwrap());
        assert_eq!(again.get("a"), first.get("a"));
        assert_eq!(again.get("b"), first.get("b"));
    }
    let other_order = generate_prefix_table(&build_binary_tree(&find_freq("baba")).unwrap());
    assert_eq!(other_order.get("a"), Some(&vec![false]));
    assert_eq!(other_order.get("b"), Some(&vec![true]));
    assert_eq!(compress("abab").unwrap(), compress("abab").unwrap());
    round_trip("abab");
    round_trip("baba");
}

#[test]
fn grapheme_cluster_of_several_code_points_is_one_symbol() {
    let family = "\u{1F468}\u{200D}\u{1F469}\u{200D}\u{1F467}\u{200D}\u{1F466}";
    let flag = "\u{1F1F7}\u{1F1FA}";
    let text = format!("a{}b{}{}e\u{301}", family, flag, family);
    let freq = find_freq(&text);
    assert_eq!(freq.len(), 5);
    assert_eq!(freq.get(family), 2);
    assert_eq!(freq.get(flag), 1);
    assert_eq!(freq.get("e\u{301}"), 1);
    assert_eq!(freq.get("\u{1F468}"), 0);
    assert_eq!(freq.get("e"), 0);
    let table = generate_prefix_table(&build_binary_tree(&freq).unwrap());
    assert!(table.get(family).is_some());
    assert!(table.get("\u{200D}").is_none());
    round_trip(&text);
}

#[test]
fn carriage_return_and_line_feed_are_one_symbol() {
    let freq = find_freq("a\r\nb");
    assert_eq!(freq.len(), 3);
    assert_eq!(freq.get("\r\n"), 1);
    assert_eq!(freq.get("\n"), 0);
}

#[test]
fn empty_text_is_refused() {
    let freq = find_freq("");
    assert!(freq.is_empty());
    assert_eq!(freq.len(), 0);
    assert!(matches!(build_binary_tree(&freq), Err(CodecError::EmptyInput)));
    assert_eq!(compress(""), Err(CodecError::EmptyInput));
}

#[test]
fn container_without_marker_is_malformed() {
    let mut blob = compress("some text to compress").unwrap();
    let table_len = u64::from_le_bytes(blob[0..8].try_into().unwrap()) as usize;
    let marker_at = 8 + table_len + 8;
    assert_eq!(&blob[marker_at..marker_at + 5], b"\n---\n");
    blob[marker_at + 1] = b'+';
    assert_eq!(decompress(&blob), Err(CodecError::MalformedContainer));
    assert!(matches!(read_compressed_file(&blob), Err(CodecError::MalformedContainer)));
    let cut = &compress("some text to compress").unwrap()[..marker_at];
    assert_eq!(decompress(cut), Err(CodecError::MalformedContainer));
    assert_eq!(decompress(b""), Err(CodecError::MalformedContainer));
    assert_eq!(decompress(b"{\"a\":\"0\"}\n---\n\x00"), Err(CodecError::MalformedContainer));
}

#[test]
fn truncated_payload_is_corrupt() {
    let blob = compress("a text long enough to fill more than one byte of payload").unwrap();
    let container = read_compressed_file(&blob).unwrap();
    assert!(container.payload.len() > 1);
    assert!(container.bit_count > 8);
    let shorter = &blob[..blob.len() - 1];
    assert_eq!(decompress(shorter), Err(CodecError::CorruptBitstream));
    let without_payload = &blob[..blob.len() - container.payload.len()];
    assert_eq!(decompress(without_payload), Err(CodecError::CorruptBitstream));
}

#[test]
fn padding_bits_are_not_decoded() {
    let text = "aab";
    let blob = compress(text).unwrap();
    let container = read_compressed_file(&blob).unwrap();
    assert_eq!(container.bit_count, 3);
    assert_eq!(container.payload.len(), 1);
    assert_eq!(decompress(&blob).unwrap(), text);
}

#[test]
fn encode_then_decode_gives_the_text_back() {
    for text in ["x", "xy", "so much depends upon a red wheel barrow", "\u{1F1F7}\u{1F1FA} and \u{1F1F8}\u{1F1F9}"] {
        let container = encode(text).unwrap();
        assert_eq!(decode(&container).unwrap(), text);
        let (bytes, size) = encode_text(text, &container.table).unwrap();
        assert_eq!(bytes, container.payload);
        assert_eq!(size, container.bit_count);
    }
    assert!(matches!(encode(""), Err(CodecError::EmptyInput)));
}

#[test]
fn decode_of_a_shortened_container_is_corrupt() {
    let mut container = encode("abracadabra, abracadabra").unwrap();
    container.payload.pop();
    assert_eq!(decode(&container), Err(CodecError::CorruptBitstream));
    let mut other = encode("abc").unwrap();
    assert_eq!(other.table.get("c"), Some(&vec![false]));
    assert_eq!(other.table.get("a"), Some(&vec![true, false]));
    assert_eq!(other.table.get("b"), Some(&vec![true, true]));
    assert_eq!(other.bit_count, 5);
    assert_eq!(other.payload, vec![0b0000_1101u8]);
    other.bit_count = 4;
    assert_eq!(decode(&other).unwrap(), "ab");
    other.bit_count = 3;
    assert_eq!(decode(&other), Err(CodecError::CorruptBitstream));
    other.bit_count = 9;
    assert_eq!(decode(&other), Err(CodecError::CorruptBitstream));
}
