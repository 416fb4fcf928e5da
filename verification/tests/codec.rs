use compression_tool::bits::{pack_bits, unpack_bits};
use compression_tool::container::{entries_of_table, table_of_entries};
use compression_tool::json::{code_text, parse_code};
use compression_tool::symbols::{same_text, symbol_precedes};
use compression_tool::{
    decode_bits_to_text, encode_symbols, encode_text, frame_container, read_compressed_file,
    reverse_map, split_container, write_compressed_file, CodeTable, CodecError, DecodeTable,
};

fn table_abc() -> CodeTable {
    let mut table = CodeTable::new();
    assert!(table.insert("a".to_string(), vec![true]));
    assert!(table.insert("b".to_string(), vec![false, true]));
    assert!(table.insert("c".to_string(), vec![false, false]));
    table
}

#[test]
fn bits_are_packed_least_significant_first() {
    assert_eq!(pack_bits(&vec![]), Vec::<u8>::new());
    assert_eq!(pack_bits(&vec![true, false, true]), vec![5u8]);
    assert_eq!(pack_bits(&vec![false, true, true, true, false, false, false, true]), vec![0b1000_1110u8]);
    assert_eq!(
        pack_bits(&vec![true, true, true, true, false, true, false, true, false, true]),
        vec![175u8, 2u8]
    );
}

#[test]
fn bits_are_unpacked_least_significant_first() {
    assert_eq!(unpack_bits(&[5u8], 3), Some(vec![true, false, true]));
    assert_eq!(
        unpack_bits(&[0b1000_1110u8], 8),
        Some(vec![false, true, true, true, false, false, false, true])
    );
    assert_eq!(unpack_bits(&[5u8], 0), Some(vec![]));
    assert_eq!(unpack_bits(&[5u8], 9), None);
    assert_eq!(unpack_bits(&[], 1), None);
    let bits = vec![true, false, false, true, true, true, false, false, true, false, true];
    assert_eq!(unpack_bits(&pack_bits(&bits), bits.len()), Some(bits));
}

#[test]
fn bit_count_is_the_sum_of_the_code_lengths() {
    let table = table_abc();
    let (bytes, size) = encode_text("aaaabbc", &table).unwrap();
    assert_eq!(size, 4 * 1 + 2 * 2 + 1 * 2);
    assert_eq!(bytes, vec![175u8, 0u8]);
    let (bytes, size) = encode_text("cab", &table).unwrap();
    assert_eq!(size, 5);
    assert_eq!(bytes, vec![0b0001_0100u8]);
    let (bytes, size) = encode_text("", &table).unwrap();
    assert_eq!(size, 0);
    assert!(bytes.is_empty());
    let symbols = vec!["b".to_string(), "a".to_string()];
    assert_eq!(encode_symbols(&symbols, &table), Ok((vec![0b0000_0110u8], 3)));
}

#[test]
fn symbol_without_code_is_unknown() {
    let table = table_abc();
    assert_eq!(encode_text("abcd", &table), Err(CodecError::UnknownSymbol));
    assert_eq!(encode_text("d", &table), Err(CodecError::UnknownSymbol));
    assert_eq!(encode_text("a", &CodeTable::new()), Err(CodecError::UnknownSymbol));
}

#[test]
fn decoding_reads_the_counted_bits_only() {
    let inverse = reverse_map(&table_abc());
    assert_eq!(decode_bits_to_text(&[175u8, 0u8], &inverse, 10).unwrap(), "aaaabbc");
    assert_eq!(decode_bits_to_text(&[175u8, 0u8], &inverse, 8).unwrap(), "aaaabb");
    assert_eq!(decode_bits_to_text(&[175u8, 0u8], &inverse, 4).unwrap(), "aaaa");
    assert_eq!(decode_bits_to_text(&[175u8, 0u8], &inverse, 0).unwrap(), "");
    assert_eq!(decode_bits_to_text(&[175u8, 0xffu8], &inverse, 10).unwrap(), "aaaabbaa");
}

#[test]
fn bits_that_end_within_a_code_are_corrupt() {
    let inverse = reverse_map(&table_abc());
    assert_eq!(decode_bits_to_text(&[175u8, 0u8], &inverse, 9), Err(CodecError::CorruptBitstream));
    assert_eq!(decode_bits_to_text(&[175u8, 0u8], &inverse, 5), Err(CodecError::CorruptBitstream));
}

#[test]
fn payload_shorter_than_the_bit_count_is_corrupt() {
    let inverse = reverse_map(&table_abc());
    assert_eq!(decode_bits_to_text(&[175u8], &inverse, 10), Err(CodecError::CorruptBitstream));
    assert_eq!(decode_bits_to_text(&[], &inverse, 1), Err(CodecError::CorruptBitstream));
    assert_eq!(decode_bits_to_text(&[0xffu8], &inverse, usize::MAX), Err(CodecError::CorruptBitstream));
}

#[test]
fn bits_longer_than_every_code_are_corrupt() {
    let mut inverse = DecodeTable::new();
    inverse.insert(vec![true], "a".to_string());
    assert_eq!(inverse.longest_code(), 1);
    assert_eq!(decode_bits_to_text(&[0b0000_0111u8], &inverse, 3).unwrap(), "aaa");
    assert_eq!(decode_bits_to_text(&[0u8; 64], &inverse, 512), Err(CodecError::CorruptBitstream));
    assert_eq!(
        decode_bits_to_text(&[1u8], &DecodeTable::new(), 1),
        Err(CodecError::CorruptBitstream)
    );
}

#[test]
fn code_table_holds_one_code_for_a_symbol() {
    let mut table = CodeTable::new();
    assert_eq!(table.len(), 0);
    assert!(table.insert("a".to_string(), vec![false]));
    assert!(table.insert("b".to_string(), vec![true, false]));
    assert!(!table.insert("c".to_string(), vec![]));
    assert_eq!(table.len(), 2);
    assert_eq!(table.get("c"), None);
    assert!(table.insert("a".to_string(), vec![true, true]));
    assert_eq!(table.len(), 2);
    assert_eq!(table.get("a"), Some(&vec![true, true]));
    assert_eq!(table.symbol_at(0), "a");
    assert_eq!(table.code_at(0), &vec![true, true]);
    assert_eq!(table.symbol_at(1), "b");
    assert_eq!(table.code_at(1), &vec![true, false]);
}

#[test]
fn reversed_table_maps_codes_to_symbols() {
    let inverse = reverse_map(&table_abc());
    assert_eq!(inverse.len(), 3);
    assert_eq!(inverse.longest_code(), 2);
    assert_eq!(inverse.get(&vec![true]).map(String::as_str), Some("a"));
    assert_eq!(inverse.get(&vec![false, true]).map(String::as_str), Some("b"));
    assert_eq!(inverse.get(&vec![false, false]).map(String::as_str), Some("c"));
    assert_eq!(inverse.get(&vec![false]), None);
    let mut shared = CodeTable::new();
    assert!(shared.insert("x".to_string(), vec![false]));
    assert!(shared.insert("y".to_string(), vec![false]));
    let inverse = reverse_map(&shared);
    assert_eq!(inverse.len(), 1);
    assert_eq!(inverse.get(&vec![false]).map(String::as_str), Some("y"));
}

#[test]
fn symbols_are_ordered_by_their_bytes() {
    assert!(symbol_precedes("a", "b"));
    assert!(!symbol_precedes("b", "a"));
    assert!(!symbol_precedes("a", "a"));
    assert!(symbol_precedes("", "a"));
    assert!(!symbol_precedes("a", ""));
    assert!(symbol_precedes("a", "ab"));
    assert!(symbol_precedes("Z", "a"));
    assert!(symbol_precedes("z", "\u{e9}"));
    assert!(symbol_precedes("\u{e9}", "\u{1F468}"));
    assert!(same_text("e\u{301}", "e\u{301}"));
    assert!(!same_text("e\u{301}", "\u{e9}"));
    assert!(!same_text("a", "ab"));
    assert!(same_text("", ""));
}

#[test]
fn codes_are_written_in_digits() {
    assert_eq!(code_text(&vec![]), "");
    assert_eq!(code_text(&vec![false, true, true, false]), "0110");
    assert_eq!(parse_code("0110"), Some(vec![false, true, true, false]));
    assert_eq!(parse_code(""), Some(vec![]));
    assert_eq!(parse_code("012"), None);
    assert_eq!(parse_code("1 "), None);
    assert_eq!(parse_code("1\u{661}"), None);
}

#[test]
fn container_bytes_of_a_small_table() {
    let mut table = CodeTable::new();
    assert!(table.insert("a".to_string(), vec![false]));
    let blob = write_compressed_file(&table, 4, &[0u8]).unwrap();
    let mut expected: Vec<u8> = Vec::new();
    expected.extend_from_slice(&9u64.to_le_bytes());
    expected.extend_from_slice(b"{\"a\":\"0\"}");
    expected.extend_from_slice(&4u64.to_le_bytes());
    expected.extend_from_slice(b"\n---\n");
    expected.push(0);
    assert_eq!(blob, expected);
}

#[test]
fn container_table_is_written_in_the_order_of_its_symbols() {
    let mut table = CodeTable::new();
    assert!(table.insert("b".to_string(), vec![true, false]));
    assert!(table.insert("a".to_string(), vec![false]));
    assert!(table.insert("\"".to_string(), vec![true, true]));
    let blob = write_compressed_file(&table, 0, &[]).unwrap();
    let (block, count, payload) = split_container(&blob).unwrap();
    assert_eq!(block, b"{\"\\\"\":\"11\",\"a\":\"0\",\"b\":\"10\"}".to_vec());
    assert_eq!(count, 0);
    assert!(payload.is_empty());
}

#[test]
fn container_is_read_back() {
    let table = table_abc();
    let blob = write_compressed_file(&table, 10, &[175u8, 0u8]).unwrap();
    let container = read_compressed_file(&blob).unwrap();
    assert_eq!(container.bit_count, 10);
    assert_eq!(container.payload, vec![175u8, 0u8]);
    assert_eq!(container.table.len(), 3);
    assert_eq!(container.table.get("a"), Some(&vec![true]));
    assert_eq!(container.table.get("b"), Some(&vec![false, true]));
    assert_eq!(container.table.get("c"), Some(&vec![false, false]));
}

#[test]
fn container_keeps_a_symbol_that_looks_like_the_marker() {
    let mut table = CodeTable::new();
    assert!(table.insert("\n---\n".to_string(), vec![false]));
    assert!(table.insert("\n".to_string(), vec![true]));
    let payload = b"\n---\n\n---\n".to_vec();
    let blob = write_compressed_file(&table, 80, &payload).unwrap();
    let container = read_compressed_file(&blob).unwrap();
    assert_eq!(container.table.get("\n---\n"), Some(&vec![false]));
    assert_eq!(container.table.get("\n"), Some(&vec![true]));
    assert_eq!(container.bit_count, 80);
    assert_eq!(container.payload, payload);
}

#[test]
fn frame_is_taken_apart_as_it_was_put_together() {
    let blob = frame_container(b"block", 77, b"payload");
    assert_eq!(blob.len(), 8 + 5 + 8 + 5 + 7);
    assert_eq!(split_container(&blob), Ok((b"block".to_vec(), 77, b"payload".to_vec())));
    let empty = frame_container(b"", 0, b"");
    assert_eq!(empty.len(), 21);
    assert_eq!(split_container(&empty), Ok((Vec::new(), 0, Vec::new())));
}

#[test]
fn frame_that_is_too_short_or_lacks_the_marker_is_malformed() {
    let blob = frame_container(b"block", 77, b"payload");
    assert_eq!(split_container(&blob[..20]), Err(CodecError::MalformedContainer));
    assert_eq!(split_container(&blob[..25]), Err(CodecError::MalformedContainer));
    assert_eq!(split_container(&[]), Err(CodecError::MalformedContainer));
    let mut longer = blob.clone();
    longer[0] = 200;
    assert_eq!(split_container(&longer), Err(CodecError::MalformedContainer));
    let mut huge = blob.clone();
    huge[7] = 0xff;
    assert_eq!(split_container(&huge), Err(CodecError::MalformedContainer));
    let mut shifted = blob.clone();
    shifted[0] = 4;
    assert_eq!(split_container(&shifted), Err(CodecError::MalformedContainer));
    let mut marked = blob.clone();
    marked[8 + 5 + 8 + 4] = b' ';
    assert_eq!(split_container(&marked), Err(CodecError::MalformedContainer));
}

#[test]
fn table_block_that_is_no_code_table_is_malformed() {
    let blocks: [&[u8]; 8] = [
        b"",
        b"not json",
        b"[\"a\",\"0\"]",
        b"{\"a\":0}",
        b"{\"a\":\"2\"}",
        b"{\"a\":\"\"}",
        b"{\"a\":\"0\"} trailing",
        b"{\"a\":\"0\"",
    ];
    for block in blocks.iter() {
        let blob = frame_container(block, 1, &[0u8]);
        assert!(matches!(read_compressed_file(&blob), Err(CodecError::MalformedContainer)));
    }
    let good = frame_container(b" {\"a\" : \"0\", \"b\" : \"1\"} ", 1, &[0u8]);
    let container = read_compressed_file(&good).unwrap();
    assert_eq!(container.table.len(), 2);
    assert_eq!(container.table.get("b"), Some(&vec![true]));
}

#[test]
fn entries_of_a_table_and_back() {
    let table = table_abc();
    let entries = entries_of_table(&table);
    assert_eq!(
        entries,
        vec![
            ("a".to_string(), "1".to_string()),
            ("b".to_string(), "01".to_string()),
            ("c".to_string(), "00".to_string()),
        ]
    );
    let back = table_of_entries(&entries).unwrap();
    assert_eq!(back.len(), 3);
    assert_eq!(back.get("b"), Some(&vec![false, true]));
    let twice = vec![("a".to_string(), "1".to_string()), ("a".to_string(), "0".to_string())];
    assert!(table_of_entries(&twice).is_none());
    let empty_code = vec![("a".to_string(), "".to_string())];
    assert!(table_of_entries(&empty_code).is_none());
    let no_digits = vec![("a".to_string(), "x".to_string())];
    assert!(table_of_entries(&no_digits).is_none());
}
