//! The container: code table, bit count and payload in one run of bytes.
//!
//! ```text
//! [ length of the table block, 8 bytes ][ table block ][ bit count, 8 bytes ][ marker ][ payload ]
//! ```
//!
//! Both numbers are little-endian. The table block is a JSON object from each
//! symbol to its code in the digits 0 and 1. Its length stands in front of it,
//! so whatever the block holds, the marker is looked for in one place only.

use crate::assoc::{entry_map, lemma_entry_map_zipped, pairing, zipped};
use crate::json::{
    code_of_digits, code_text, digits, is_digits, json_entries, json_text, pairs, parse_code,
    read_json, write_json,
};
use crate::symbols::Symbol;
use crate::table::{Code, CodeTable};
use crate::CodecError;
use vstd::bytes::{
    lemma_auto_spec_u64_to_from_le_bytes, spec_u64_from_le_bytes, spec_u64_to_le_bytes,
    u64_from_le_bytes, u64_to_le_bytes,
};
use vstd::prelude::*;
use vstd::slice::slice_subrange;

verus! {

/// The bytes between bit count and payload: a line of three dashes.
pub open spec fn marker() -> Seq<u8> {
    seq![10u8, 45u8, 45u8, 45u8, 10u8]
}

/// The bytes of the container that holds `block`, `bit_count` and `payload`.
pub open spec fn framed(block: Seq<u8>, bit_count: u64, payload: Seq<u8>) -> Seq<u8> {
    spec_u64_to_le_bytes(block.len() as u64) + block + spec_u64_to_le_bytes(bit_count) + marker()
        + payload
}

/// The parts of a container.
pub struct Frame {
    pub block: Seq<u8>,
    pub bit_count: u64,
    pub payload: Seq<u8>,
}

/// The parts that `blob` is the container of; nothing where it is too short
/// for the block that it announces, for the bit count or for the marker, and
/// where the marker is not in its place.
pub open spec fn unframed(blob: Seq<u8>) -> Option<Frame> {
    if blob.len() < 21 {
        None
    } else {
        let n = spec_u64_from_le_bytes(blob.subrange(0, 8)) as int;
        if n > blob.len() - 21 {
            None
        } else if blob.subrange(16 + n, 21 + n) != marker() {
            None
        } else {
            Some(
                Frame {
                    block: blob.subrange(8, 8 + n),
                    bit_count: spec_u64_from_le_bytes(blob.subrange(8 + n, 16 + n)),
                    payload: blob.subrange(21 + n, blob.len() as int),
                },
            )
        }
    }
}

/// A container gives back the parts that it was made of.
pub proof fn lemma_unframed_framed(block: Seq<u8>, bit_count: u64, payload: Seq<u8>)
    requires
        block.len() <= u64::MAX,
    ensures
        unframed(framed(block, bit_count, payload)) == Some(Frame { block, bit_count, payload }),
{
    lemma_auto_spec_u64_to_from_le_bytes();
    let blob = framed(block, bit_count, payload);
    let n = block.len() as int;
    assert(blob.subrange(0, 8) =~= spec_u64_to_le_bytes(block.len() as u64));
    assert(blob.subrange(8, 8 + n) =~= block);
    assert(blob.subrange(8 + n, 16 + n) =~= spec_u64_to_le_bytes(bit_count));
    assert(blob.subrange(16 + n, 21 + n) =~= marker());
    assert(blob.subrange(21 + n, blob.len() as int) =~= payload);
}

/// Puts `block`, `bit_count` and `payload` into one container.
pub fn frame_container(block: &[u8], bit_count: u64, payload: &[u8]) -> (blob: Vec<u8>)
    ensures
        blob@ == framed(block@, bit_count, payload@),
{
    let mut blob = u64_to_le_bytes(block.len() as u64);
    let mut i: usize = 0;
    while i < block.len()
        invariant
            i <= block@.len(),
            blob@ == spec_u64_to_le_bytes(block@.len() as u64) + block@.take(i as int),
        decreases block@.len() - i,
    {
        blob.push(block[i]);
        assert(block@.take(i + 1) =~= block@.take(i as int).push(block@[i as int]));
        i += 1;
    }
    assert(block@.take(i as int) =~= block@);
    let mut count = u64_to_le_bytes(bit_count);
    blob.append(&mut count);
    blob.push(10);
    blob.push(45);
    blob.push(45);
    blob.push(45);
    blob.push(10);
    let ghost head = blob@;
    assert(head =~= spec_u64_to_le_bytes(block@.len() as u64) + block@ + spec_u64_to_le_bytes(
        bit_count,
    ) + marker());
    let mut j: usize = 0;
    while j < payload.len()
        invariant
            j <= payload@.len(),
            blob@ == head + payload@.take(j as int),
        decreases payload@.len() - j,
    {
        blob.push(payload[j]);
        assert(payload@.take(j + 1) =~= payload@.take(j as int).push(payload@[j as int]));
        j += 1;
    }
    assert(payload@.take(j as int) =~= payload@);
    blob
}

/// A copy of the bytes of `source` from `from` up to `to`.
fn copy_range(source: &[u8], from: usize, to: usize) -> (copy: Vec<u8>)
    requires
        from <= to <= source@.len(),
    ensures
        copy@ == source@.subrange(from as int, to as int),
{
    let mut copy: Vec<u8> = Vec::new();
    let mut i: usize = from;
    while i < to
        invariant
            from <= i <= to,
            to <= source@.len(),
            copy@ == source@.subrange(from as int, i as int),
        decreases to - i,
    {
        copy.push(source[i]);
        assert(source@.subrange(from as int, i + 1) =~= source@.subrange(from as int, i as int).push(
            source@[i as int],
        ));
        i += 1;
    }
    copy
}

/// Takes a container apart into table block, bit count and payload.
///
/// Fails with `MalformedContainer` where `blob` is no container.
pub fn split_container(blob: &[u8]) -> (result: Result<(Vec<u8>, u64, Vec<u8>), CodecError>)
    ensures
        match result {
            Ok((block, bit_count, payload)) => unframed(blob@) == Some(
                Frame { block: block@, bit_count, payload: payload@ },
            ),
            Err(e) => e == CodecError::MalformedContainer && unframed(blob@) is None,
        },
{
    let len = blob.len();
    if len < 21 {
        return Err(CodecError::MalformedContainer);
    }
    let announced = u64_from_le_bytes(slice_subrange(blob, 0, 8));
    if announced > (len - 21) as u64 {
        return Err(CodecError::MalformedContainer);
    }
    let n = announced as usize;
    let place = slice_subrange(blob, 16 + n, 21 + n);
    if place[0] != 10 || place[1] != 45 || place[2] != 45 || place[3] != 45 || place[4] != 10 {
        return Err(CodecError::MalformedContainer);
    }
    assert(place@ =~= marker());
    let bit_count = u64_from_le_bytes(slice_subrange(blob, 8 + n, 16 + n));
    let block = copy_range(blob, 8, 8 + n);
    let payload = copy_range(blob, 21 + n, len);
    Ok((block, bit_count, payload))
}

/// The symbols of a table block's entries, in their order.
pub open spec fn entry_symbols(entries: Seq<(Seq<char>, Seq<char>)>) -> Seq<Symbol> {
    Seq::new(entries.len(), |i: int| entries[i].0)
}

/// The codes of a table block's entries, in their order.
pub open spec fn entry_codes(entries: Seq<(Seq<char>, Seq<char>)>) -> Seq<Code> {
    Seq::new(entries.len(), |i: int| code_of_digits(entries[i].1))
}

/// Whether the entries are a code table: no symbol twice, and each code in
/// the digits 0 and 1, with one digit at least.
pub open spec fn valid_entries(entries: Seq<(Seq<char>, Seq<char>)>) -> bool {
    &&& entry_symbols(entries).no_duplicates()
    &&& forall|i: int|
        0 <= i < entries.len() ==> is_digits((#[trigger] entries[i]).1) && entries[i].1.len() > 0
}

/// The entries that a table is written as: each symbol with its code in
/// digits.
pub open spec fn table_entries(symbols: Seq<Symbol>, codes: Seq<Code>) -> Seq<(Seq<char>, Seq<char>)> {
    Seq::new(symbols.len(), |i: int| (symbols[i], digits(codes[i])))
}

/// A table as the table block holds it: each code in digits.
pub open spec fn written(table: Map<Symbol, Code>) -> Map<Seq<char>, Seq<char>> {
    Map::new(|s: Symbol| table.dom().contains(s), |s: Symbol| digits(table[s]))
}

/// The entries of a table, read back, are the table.
pub proof fn lemma_table_entries_round_trip(symbols: Seq<Symbol>, codes: Seq<Code>)
    requires
        symbols.no_duplicates(),
        symbols.len() == codes.len(),
        forall|i: int| 0 <= i < codes.len() ==> (#[trigger] codes[i]).len() > 0,
    ensures
        valid_entries(table_entries(symbols, codes)),
        entry_symbols(table_entries(symbols, codes)) == symbols,
        entry_codes(table_entries(symbols, codes)) == codes,
        entry_map(table_entries(symbols, codes)) == written(pairing(symbols, codes)),
{
    let entries = table_entries(symbols, codes);
    assert(entry_symbols(entries) =~= symbols);
    assert forall|i: int| 0 <= i < entries.len() implies code_of_digits(entries[i].1) == codes[i] by {
        crate::json::lemma_digits_round_trip(codes[i]);
    }
    assert(entry_codes(entries) =~= codes);
    assert forall|i: int| 0 <= i < entries.len() implies is_digits((#[trigger] entries[i]).1)
        && entries[i].1.len() > 0 by {
        crate::json::lemma_digits_round_trip(codes[i]);
        assert(codes[i].len() > 0);
    }
    let texts = Seq::new(codes.len(), |i: int| digits(codes[i]));
    assert(entries =~= zipped(symbols, texts));
    lemma_entry_map_zipped(symbols, texts);
    assert forall|s: Symbol| pairing(symbols, codes).dom().contains(s) implies pairing(symbols, texts)[s]
        == digits(pairing(symbols, codes)[s]) by {
        let i = symbols.index_of(s);
        assert(symbols[i] == s);
    }
    assert(pairing(symbols, texts) =~= written(pairing(symbols, codes)));
}

/// The entries of `table`, each code written in digits.
pub fn entries_of_table(table: &CodeTable) -> (entries: Vec<(String, String)>)
    requires
        table.wf(),
    ensures
        pairs(entries@) == table_entries(table.symbols(), table.codes()),
{
    let mut entries: Vec<(String, String)> = Vec::new();
    let n = table.len();
    let mut i: usize = 0;
    while i < n
        invariant
            table.wf(),
            n == table.symbols().len(),
            i <= n,
            entries@.len() == i,
            forall|k: int|
                0 <= k < i ==> (#[trigger] entries@[k]).0@ == table.symbols()[k] && entries@[k].1@
                    == digits(table.codes()[k]),
        decreases n - i,
    {
        let symbol = table.symbol_at(i).clone();
        let text = code_text(table.code_at(i));
        entries.push((symbol, text));
        i += 1;
    }
    assert(pairs(entries@) =~= table_entries(table.symbols(), table.codes()));
    entries
}

/// The code table that `entries` are; nothing where they are none.
pub fn table_of_entries(entries: &Vec<(String, String)>) -> (table: Option<CodeTable>)
    ensures
        match table {
            Some(t) => {
                &&& t.wf()
                &&& valid_entries(pairs(entries@))
                &&& t.symbols() == entry_symbols(pairs(entries@))
                &&& t.codes() == entry_codes(pairs(entries@))
            },
            None => !valid_entries(pairs(entries@)),
        },
{
    let mut table = CodeTable::new();
    let ghost all = pairs(entries@);
    let mut i: usize = 0;
    assert(entry_symbols(all.take(0)) =~= Seq::<Symbol>::empty());
    assert(entry_codes(all.take(0)) =~= Seq::<Code>::empty());
    while i < entries.len()
        invariant
            all == pairs(entries@),
            i <= entries@.len(),
            table.wf(),
            valid_entries(all.take(i as int)),
            table.symbols() == entry_symbols(all.take(i as int)),
            table.codes() == entry_codes(all.take(i as int)),
        decreases entries@.len() - i,
    {
        let ghost seen = all.take(i as int);
        let ghost next = all.take(i + 1);
        assert(all[i as int] == (entries@[i as int].0@, entries@[i as int].1@));
        proof {
            assert(next =~= seen.push(all[i as int]));
            assert(entry_symbols(next) =~= entry_symbols(seen).push(all[i as int].0));
            assert(entry_codes(next) =~= entry_codes(seen).push(code_of_digits(all[i as int].1)));
            table.lemma_dom();
        }
        let code = match parse_code(entries[i].1.as_str()) {
            Some(code) => code,
            None => {
                return None;
            },
        };
        if code.len() == 0 || table.get(entries[i].0.as_str()).is_some() {
            proof {
                if code@.len() != 0 {
                    let k = entry_symbols(seen).index_of(all[i as int].0);
                    assert(entry_symbols(seen)[k] == all[i as int].0);
                    assert(entry_symbols(all)[k] == entry_symbols(all)[i as int]);
                }
            }
            return None;
        }
        table.insert(entries[i].0.clone(), code);
        proof {
            assert forall|k: int| 0 <= k < next.len() implies is_digits((#[trigger] next[k]).1)
                && next[k].1.len() > 0 by {
                if k < i {
                    assert(next[k] == seen[k]);
                }
            }
            assert(entry_symbols(next).no_duplicates()) by {
                assert(!entry_symbols(seen).contains(all[i as int].0));
                assert forall|a: int, b: int|
                    0 <= a < next.len() && 0 <= b < next.len() && a != b implies entry_symbols(next)[a]
                    != entry_symbols(next)[b] by {
                    if a < i && b < i {
                        assert(entry_symbols(seen)[a] != entry_symbols(seen)[b]);
                    } else if a < i {
                        assert(entry_symbols(seen).contains(entry_symbols(seen)[a]));
                    } else {
                        assert(entry_symbols(seen).contains(entry_symbols(seen)[b]));
                    }
                }
            }
        }
        i += 1;
    }
    assert(all.take(i as int) =~= all);
    Some(table)
}

/// A container taken apart: the code table, the number of payload bits that
/// count, and the payload.
pub struct Container {
    pub table: CodeTable,
    pub bit_count: usize,
    pub payload: Vec<u8>,
}

/// Whether `blob` is a container that this machine can hold: its parts are in
/// place, the table block is a code table, and the bit count fits a `usize`.
pub open spec fn readable(blob: Seq<u8>) -> bool {
    &&& unframed(blob) matches Some(frame)
    &&& frame.bit_count <= usize::MAX
    &&& json_entries(frame.block) matches Some(entries)
    &&& valid_entries(entries)
}

/// Makes the container of a code table, a bit count and a payload. A code
/// table can always be written, so the result is always `Ok`.
pub fn write_compressed_file(code: &CodeTable, bit_count: usize, encoded_text_bits: &[u8]) -> (result:
    Result<Vec<u8>, CodecError>)
    requires
        code.wf(),
    ensures
        result matches Ok(blob) && blob@ == framed(
            json_text(written(code@)),
            bit_count as u64,
            encoded_text_bits@,
        ),
{
    let entries = entries_of_table(code);
    proof {
        code.lemma_codes_nonempty();
        lemma_table_entries_round_trip(code.symbols(), code.codes());
        let symbols = entry_symbols(pairs(entries@));
        assert forall|i: int, j: int| 0 <= i < j < entries@.len() implies entries@[i].0@
            != entries@[j].0@ by {
            assert(symbols[i] == entries@[i].0@ && symbols[j] == entries@[j].0@);
        }
    }
    match write_json(&entries) {
        Ok(block) => Ok(frame_container(block.as_slice(), bit_count as u64, encoded_text_bits)),
        // A map from string to string is always written.
        Err(_) => Err(CodecError::MalformedContainer),
    }
}

/// Reads a container: the code table, the bit count and the payload.
///
/// Fails with `MalformedContainer` where `compressed_data` is too short for
/// its parts, where the marker is missing, where the table block is no code
/// table, and where the bit count does not fit a `usize`.
pub fn read_compressed_file(compressed_data: &[u8]) -> (result: Result<Container, CodecError>)
    ensures
        match result {
            Ok(container) => {
                &&& readable(compressed_data@)
                &&& container.table.wf()
                &&& container.table.symbols() == entry_symbols(
                    json_entries(unframed(compressed_data@)->0.block)->0,
                )
                &&& container.table.codes() == entry_codes(
                    json_entries(unframed(compressed_data@)->0.block)->0,
                )
                &&& container.bit_count == unframed(compressed_data@)->0.bit_count
                &&& container.payload@ == unframed(compressed_data@)->0.payload
            },
            Err(e) => e == CodecError::MalformedContainer && !readable(compressed_data@),
        },
{
    let (block, count, payload) = match split_container(compressed_data) {
        Ok(parts) => parts,
        Err(e) => {
            return Err(e);
        },
    };
    if count > usize::MAX as u64 {
        return Err(CodecError::MalformedContainer);
    }
    let entries = match read_json(block.as_slice()) {
        Ok(entries) => entries,
        Err(_) => {
            return Err(CodecError::MalformedContainer);
        },
    };
    match table_of_entries(&entries) {
        Some(table) => Ok(Container { table, bit_count: count as usize, payload }),
        None => Err(CodecError::MalformedContainer),
    }
}

} // verus!
