//! The code table as text: a JSON object from each symbol to its code,
//! written with the digits 0 and 1.

use crate::assoc::entry_map;
use crate::table::Code;
use std::collections::BTreeMap;
use vstd::prelude::*;
use vstd::string::*;

verus! {

/// The error of `serde_json`.
#[verifier::external_type_specification]
#[verifier::external_body]
pub struct ExJsonError(serde_json::Error);

/// What each pair of strings holds.
pub open spec fn pairs(entries: Seq<(String, String)>) -> Seq<(Seq<char>, Seq<char>)> {
    Seq::new(entries.len(), |i: int| (entries[i].0@, entries[i].1@))
}

/// The JSON text that `serde_json::to_vec` writes for a map from string to
/// string that is walked in the order of its keys.
pub uninterp spec fn json_text(entries: Map<Seq<char>, Seq<char>>) -> Seq<u8>;

/// The entries, in the order of their keys, of the map from string to string
/// that `serde_json::from_slice` reads from `text`; nothing where it reads
/// none.
pub uninterp spec fn json_entries(text: Seq<u8>) -> Option<Seq<(Seq<char>, Seq<char>)>>;

/// `serde_json::to_vec` on the entries, of which no two have one key, as a map
/// in the order of its keys. The writer reports only errors of the vector that
/// it writes into, which has none, and keys that are no strings: on a map from
/// string to string it succeeds.
#[verifier::external_body]
pub(crate) fn write_json(entries: &Vec<(String, String)>) -> (result: Result<
    Vec<u8>,
    serde_json::Error,
>)
    requires
        forall|i: int, j: int| 0 <= i < j < entries@.len() ==> entries@[i].0@ != entries@[j].0@,
    ensures
        result is Ok,
        result matches Ok(text) ==> text@ == json_text(entry_map(pairs(entries@))),
{
    let map: BTreeMap<&str, &str> = entries.iter().map(|e| (e.0.as_str(), e.1.as_str())).collect();
    serde_json::to_vec(&map)
}

/// `serde_json::from_slice` for a map from string to string in the order of
/// its keys, handed out entry by entry.
#[verifier::external_body]
pub(crate) fn read_json(text: &[u8]) -> (result: Result<Vec<(String, String)>, serde_json::Error>)
    ensures
        match result {
            Ok(entries) => json_entries(text@) == Some(pairs(entries@)),
            Err(_) => json_entries(text@) is None,
        },
{
    let map: BTreeMap<String, String> = serde_json::from_slice(text)?;
    Ok(map.into_iter().collect())
}

/// The digit that stands for a bit.
pub open spec fn digit(bit: bool) -> char {
    if bit {
        '1'
    } else {
        '0'
    }
}

/// A code written with the digits 0 and 1.
pub open spec fn digits(code: Code) -> Seq<char> {
    Seq::new(code.len(), |i: int| digit(code[i]))
}

/// Whether `text` is written with the digits 0 and 1 alone.
pub open spec fn is_digits(text: Seq<char>) -> bool {
    forall|i: int| 0 <= i < text.len() ==> #[trigger] text[i] == '0' || text[i] == '1'
}

/// The code that `text` stands for: a set bit for each digit 1.
pub open spec fn code_of_digits(text: Seq<char>) -> Code {
    Seq::new(text.len(), |i: int| text[i] == '1')
}

/// Reading what was written gives the code back.
pub proof fn lemma_digits_round_trip(code: Code)
    ensures
        is_digits(digits(code)),
        code_of_digits(digits(code)) == code,
{
    assert(code_of_digits(digits(code)) =~= code);
}

/// Writes `code` with the digits 0 and 1.
pub fn code_text(code: &Vec<bool>) -> (text: String)
    ensures
        text@ == digits(code@),
{
    let mut text = String::new();
    let mut i: usize = 0;
    proof {
        reveal_strlit("0");
        reveal_strlit("1");
    }
    while i < code.len()
        invariant
            i <= code@.len(),
            text@ == digits(code@.take(i as int)),
            "0"@ == seq!['0'],
            "1"@ == seq!['1'],
        decreases code@.len() - i,
    {
        if code[i] {
            text.append("1");
        } else {
            text.append("0");
        }
        assert(text@ =~= digits(code@.take(i + 1)));
        i += 1;
    }
    assert(code@.take(i as int) =~= code@);
    text
}

/// Of the first 128 characters, one byte stands for one character.
proof fn lemma_char_of_byte(c: char, d: char)
    requires
        '\0' <= c <= '\u{7f}',
        '\0' <= d <= '\u{7f}',
        c as u8 == d as u8,
    ensures
        c == d,
{
    vstd::utf8::char_u32_cast(c, c as u32);
    vstd::utf8::char_u32_cast(d, d as u32);
}

/// Reads a code written with the digits 0 and 1; nothing where `text` holds
/// anything else.
pub fn parse_code(text: &str) -> (code: Option<Vec<bool>>)
    ensures
        match code {
            Some(bits) => is_digits(text@) && bits@ == code_of_digits(text@),
            None => !is_digits(text@),
        },
{
    if !text.is_ascii() {
        proof {
            if is_digits(text@) {
                assert forall|i: int| 0 <= i < text@.len() implies '\0' <= #[trigger] text@[i]
                    <= '\u{7f}' by {
                    assert(text@[i] == '0' || text@[i] == '1');
                }
            }
        }
        return None;
    }
    let bytes = text.as_bytes();
    proof {
        is_ascii_spec_bytes(text);
    }
    let mut bits: Vec<bool> = Vec::new();
    let mut i: usize = 0;
    while i < bytes.len()
        invariant
            bytes@.len() == text@.len(),
            forall|k: int| 0 <= k < text@.len() ==> bytes@[k] == #[trigger] text@[k] as u8,
            forall|k: int| 0 <= k < text@.len() ==> '\0' <= #[trigger] text@[k] <= '\u{7f}',
            i <= bytes@.len(),
            is_digits(text@.take(i as int)),
            bits@ == code_of_digits(text@.take(i as int)),
        decreases bytes@.len() - i,
    {
        let byte = bytes[i];
        assert(byte == text@[i as int] as u8);
        if byte == 48 {
            bits.push(false);
            proof {
                lemma_char_of_byte(text@[i as int], '0');
            }
        } else if byte == 49 {
            bits.push(true);
            proof {
                lemma_char_of_byte(text@[i as int], '1');
            }
        } else {
            assert(text@[i as int] != '0' && text@[i as int] != '1');
            return None;
        }
        assert(bits@ =~= code_of_digits(text@.take(i + 1)));
        assert forall|k: int| 0 <= k < text@.take(i + 1).len() implies #[trigger] text@.take(i + 1)[k]
            == '0' || text@.take(i + 1)[k] == '1' by {
            if k < i {
                assert(text@.take(i as int)[k] == text@.take(i + 1)[k]);
            }
        }
        i += 1;
    }
    assert(text@.take(i as int) =~= text@);
    Some(bits)
}

} // verus!
