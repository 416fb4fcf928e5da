//! From text to payload bits, and the law that ties it to decoding.

use crate::bits::{bytes_of_bits, lemma_unpack_pack, pack_bits};
use crate::decode::{decode_from, decoded, payload_text, prefixed};
use crate::symbols::{graphemes, grapheme_clusters, texts, Symbol};
use crate::table::{Code, CodeTable, DecodeTable};
use crate::CodecError;
use vstd::prelude::*;

verus! {

/// Whether `table` has a code for each of `symbols`.
pub open spec fn covers(table: Map<Symbol, Code>, symbols: Seq<Symbol>) -> bool {
    forall|i: int| 0 <= i < symbols.len() ==> table.dom().contains(#[trigger] symbols[i])
}

/// The code of each of `symbols`, in their order.
pub open spec fn code_sequence(symbols: Seq<Symbol>, table: Map<Symbol, Code>) -> Seq<Code> {
    Seq::new(symbols.len(), |i: int| table[symbols[i]])
}

/// The bits that stand for `symbols`: their codes, one behind the other.
pub open spec fn encoded(symbols: Seq<Symbol>, table: Map<Symbol, Code>) -> Seq<bool> {
    code_sequence(symbols, table).flatten()
}

/// The lengths of the codes of `symbols`, added up.
pub open spec fn code_lengths(symbols: Seq<Symbol>, table: Map<Symbol, Code>) -> nat
    decreases symbols.len(),
{
    if symbols.len() == 0 {
        0
    } else {
        code_lengths(symbols.drop_last(), table) + table[symbols.last()].len()
    }
}

/// Bit count: the bits that stand for a sequence of symbols are as many as
/// the lengths of the symbols' codes together.
pub proof fn lemma_encoded_len(symbols: Seq<Symbol>, table: Map<Symbol, Code>)
    ensures
        encoded(symbols, table).len() == code_lengths(symbols, table),
    decreases symbols.len(),
{
    if symbols.len() == 0 {
        assert(code_sequence(symbols, table) =~= Seq::<Code>::empty());
    } else {
        let before = code_sequence(symbols.drop_last(), table);
        lemma_encoded_len(symbols.drop_last(), table);
        assert(code_sequence(symbols, table) =~= before.push(table[symbols.last()]));
        before.lemma_flatten_push(table[symbols.last()]);
    }
}

/// No code of the table begins another symbol's code; in particular no two
/// symbols share a code.
pub open spec fn prefix_free(table: Map<Symbol, Code>) -> bool {
    forall|a: Symbol, b: Symbol|
        #![trigger table[a], table[b]]
        table.dom().contains(a) && table.dom().contains(b) && a != b ==> !table[a].is_prefix_of(
            table[b],
        )
}

/// Every code of the table has at least one bit.
pub open spec fn codes_nonempty(table: Map<Symbol, Code>) -> bool {
    forall|a: Symbol| table.dom().contains(a) ==> (#[trigger] table[a]).len() > 0
}

/// `inverse` maps exactly the codes of `table`, each to a symbol that has it.
pub open spec fn inverts(inverse: Map<Code, Symbol>, table: Map<Symbol, Code>) -> bool {
    &&& forall|a: Symbol|
        table.dom().contains(a) ==> inverse.dom().contains(#[trigger] table[a])
    &&& forall|c: Code|
        inverse.dom().contains(c) ==> table.dom().contains(#[trigger] inverse[c])
            && table[inverse[c]] == c
}

/// The inverse of a table in which no two symbols share a code: from each
/// code to the symbol that has it.
pub open spec fn inverse_of(table: Map<Symbol, Code>) -> Map<Code, Symbol> {
    Map::new(
        |c: Code| exists|s: Symbol| table.dom().contains(s) && table[s] == c,
        |c: Code| choose|s: Symbol| table.dom().contains(s) && table[s] == c,
    )
}

/// The inverse of a table maps exactly the table's codes, each to a symbol
/// that has it.
pub proof fn lemma_inverse_of_inverts(table: Map<Symbol, Code>)
    ensures
        inverts(inverse_of(table), table),
{
    let inverse = inverse_of(table);
    assert forall|c: Code| inverse.dom().contains(c) implies table.dom().contains(
        #[trigger] inverse[c],
    ) && table[inverse[c]] == c by {
        let s = choose|s: Symbol| table.dom().contains(s) && table[s] == c;
        assert(table.dom().contains(s) && table[s] == c);
    }
}

/// A prefix-free table has one inverse only.
pub proof fn lemma_inverse_unique(table: Map<Symbol, Code>, inverse: Map<Code, Symbol>)
    requires
        prefix_free(table),
        inverts(inverse, table),
    ensures
        inverse == inverse_of(table),
{
    let other = inverse_of(table);
    assert forall|c: Code| inverse.dom().contains(c) == other.dom().contains(c) by {
        if inverse.dom().contains(c) {
            assert(table.dom().contains(inverse[c]) && table[inverse[c]] == c);
        }
        if other.dom().contains(c) {
            let s = choose|s: Symbol| table.dom().contains(s) && table[s] == c;
            assert(inverse.dom().contains(table[s]));
        }
    }
    assert forall|c: Code| inverse.dom().contains(c) implies inverse[c] == other[c] by {
        let a = inverse[c];
        let b = other[c];
        assert(table.dom().contains(a) && table[a] == c);
        assert(table.dom().contains(b) && table[b] == c);
        if a != b {
            assert(table[a].is_prefix_of(table[b]));
        }
    }
    assert(inverse =~= other);
}

/// The inverse of the table that holds `symbols[i] -> codes[i]`: of two
/// symbols with one code the later one stays.
pub open spec fn inverted(symbols: Seq<Symbol>, codes: Seq<Code>) -> Map<Code, Symbol>
    decreases symbols.len(),
{
    if symbols.len() == 0 || codes.len() != symbols.len() {
        Map::empty()
    } else {
        inverted(symbols.drop_last(), codes.drop_last()).insert(codes.last(), symbols.last())
    }
}

/// The inverse of a table maps each of its codes to a symbol that has that
/// code, and nothing else.
pub proof fn lemma_inverted_inverts(symbols: Seq<Symbol>, codes: Seq<Code>)
    requires
        symbols.len() == codes.len(),
        symbols.no_duplicates(),
    ensures
        inverts(inverted(symbols, codes), crate::assoc::pairing(symbols, codes)),
    decreases symbols.len(),
{
    let table = crate::assoc::pairing(symbols, codes);
    let inverse = inverted(symbols, codes);
    if symbols.len() > 0 {
        let n = symbols.len() - 1;
        let symbols0 = symbols.drop_last();
        let codes0 = codes.drop_last();
        let table0 = crate::assoc::pairing(symbols0, codes0);
        let inverse0 = inverted(symbols0, codes0);
        lemma_inverted_inverts(symbols0, codes0);
        assert(!symbols0.contains(symbols.last())) by {
            if symbols0.contains(symbols.last()) {
                let j = choose|j: int| 0 <= j < symbols0.len() && symbols0[j] == symbols.last();
                assert(symbols[j] == symbols[n]);
            }
        }
        crate::assoc::lemma_pairing_push(symbols0, codes0, symbols.last(), codes.last());
        assert(symbols0.push(symbols.last()) =~= symbols);
        assert(codes0.push(codes.last()) =~= codes);
        assert(table == table0.insert(symbols.last(), codes.last()));
        assert forall|a: Symbol| table.dom().contains(a) implies inverse.dom().contains(
            #[trigger] table[a],
        ) by {
            if a != symbols.last() {
                assert(table0.dom().contains(a));
                assert(inverse0.dom().contains(table0[a]));
            }
        }
        assert forall|c: Code| inverse.dom().contains(c) implies table.dom().contains(
            #[trigger] inverse[c],
        ) && table[inverse[c]] == c by {
            if c != codes.last() {
                assert(inverse0.dom().contains(c));
                assert(table0.dom().contains(inverse0[c]));
            }
        }
    }
}

/// While the pending bits are the first `k` bits of a symbol's code, with more
/// of the code to come, decoding puts out that symbol and goes on behind the
/// code.
proof fn lemma_decode_one(
    table: Map<Symbol, Code>,
    inverse: Map<Code, Symbol>,
    symbol: Symbol,
    tail: Seq<bool>,
    k: int,
)
    requires
        prefix_free(table),
        inverts(inverse, table),
        table.dom().contains(symbol),
        0 <= k < table[symbol].len(),
    ensures
        decode_from(inverse, table[symbol].skip(k) + tail, table[symbol].take(k)) == prefixed(
            symbol,
            decoded(inverse, tail),
        ),
    decreases table[symbol].len() - k,
{
    let code = table[symbol];
    let bits = code.skip(k) + tail;
    let candidate = code.take(k).push(bits[0]);
    assert(candidate =~= code.take(k + 1));
    assert(bits.drop_first() =~= code.skip(k + 1) + tail);
    if k + 1 == code.len() {
        assert(code.take(k + 1) =~= code);
        assert(code.skip(k + 1) + tail =~= tail);
        assert(inverse.dom().contains(table[symbol]));
        let other = inverse[code];
        assert(table.dom().contains(other) && table[other] == code);
        if other != symbol {
            assert(table[other].is_prefix_of(table[symbol]));
        }
    } else {
        if inverse.dom().contains(candidate) {
            let other = inverse[candidate];
            assert(table.dom().contains(other) && table[other] == candidate);
            assert(table[other].is_prefix_of(table[symbol]));
        }
        lemma_decode_one(table, inverse, symbol, tail, k + 1);
    }
}

/// Round trip, on bits: under a prefix-free table without empty codes, the
/// bits that stand for a sequence of symbols decode to those symbols, joined.
pub proof fn lemma_decode_encoded(
    table: Map<Symbol, Code>,
    inverse: Map<Code, Symbol>,
    symbols: Seq<Symbol>,
)
    requires
        prefix_free(table),
        codes_nonempty(table),
        inverts(inverse, table),
        covers(table, symbols),
    ensures
        decoded(inverse, encoded(symbols, table)) == Some(symbols.flatten()),
    decreases symbols.len(),
{
    if symbols.len() == 0 {
        assert(code_sequence(symbols, table) =~= Seq::<Code>::empty());
    } else {
        let first = symbols[0];
        let rest = symbols.drop_first();
        assert(table.dom().contains(first));
        assert(covers(table, rest)) by {
            assert forall|i: int| 0 <= i < rest.len() implies table.dom().contains(
                #[trigger] rest[i],
            ) by {
                assert(rest[i] == symbols[i + 1]);
            }
        }
        lemma_decode_encoded(table, inverse, rest);
        assert(code_sequence(symbols, table).drop_first() =~= code_sequence(rest, table));
        assert(encoded(symbols, table) == table[first] + encoded(rest, table));
        lemma_decode_one(table, inverse, first, encoded(rest, table), 0);
        assert(table[first].skip(0) =~= table[first]);
        assert(table[first].take(0) =~= Seq::<bool>::empty());
    }
}

/// Round trip, on bytes: the packed payload of a sequence of symbols, read
/// back up to the number of bits that were packed, decodes to the symbols,
/// joined.
pub proof fn lemma_round_trip(
    table: Map<Symbol, Code>,
    inverse: Map<Code, Symbol>,
    symbols: Seq<Symbol>,
)
    requires
        prefix_free(table),
        codes_nonempty(table),
        inverts(inverse, table),
        covers(table, symbols),
    ensures
        payload_text(inverse, bytes_of_bits(encoded(symbols, table)), encoded(symbols, table).len())
            == Some(symbols.flatten()),
{
    lemma_unpack_pack(encoded(symbols, table));
    lemma_decode_encoded(table, inverse, symbols);
}

/// Turns a code table round: from each code to its symbol. Where two symbols
/// have one code, the later entry of the table stays.
pub fn reverse_map(table: &CodeTable) -> (reversed: DecodeTable)
    requires
        table.wf(),
    ensures
        reversed.wf(),
        reversed@ == inverted(table.symbols(), table.codes()),
        inverts(reversed@, table@),
        prefix_free(table@) ==> reversed@ == inverse_of(table@),
{
    let mut reversed = DecodeTable::new();
    let n = table.len();
    let mut i: usize = 0;
    assert(table.symbols().take(0) =~= Seq::<Symbol>::empty());
    while i < n
        invariant
            table.wf(),
            n == table.symbols().len(),
            i <= n,
            reversed.wf(),
            reversed@ == inverted(table.symbols().take(i as int), table.codes().take(i as int)),
        decreases n - i,
    {
        let symbol = table.symbol_at(i).clone();
        let code = table.code_at(i).clone();
        proof {
            let s1 = table.symbols().take(i + 1);
            let c1 = table.codes().take(i + 1);
            assert(s1.drop_last() =~= table.symbols().take(i as int));
            assert(c1.drop_last() =~= table.codes().take(i as int));
            assert(code@ =~= table.codes()[i as int]);
        }
        reversed.insert(code, symbol);
        i += 1;
    }
    proof {
        assert(table.symbols().take(i as int) =~= table.symbols());
        assert(table.codes().take(i as int) =~= table.codes());
        lemma_inverted_inverts(table.symbols(), table.codes());
        if prefix_free(table@) {
            lemma_inverse_unique(table@, reversed@);
        }
    }
    reversed
}

/// Encodes `symbols` with the table `code`: the codes of the symbols, one
/// behind the other, packed least significant bit first, and the number of
/// bits before padding.
///
/// Fails with `UnknownSymbol` where the table lacks one of the symbols.
pub fn encode_symbols(symbols: &Vec<String>, code: &CodeTable) -> (result: Result<
    (Vec<u8>, usize),
    CodecError,
>)
    requires
        code.wf(),
    ensures
        match result {
            Ok((bytes, size)) => {
                &&& covers(code@, texts(symbols@))
                &&& size == code_lengths(texts(symbols@), code@)
                &&& size == encoded(texts(symbols@), code@).len()
                &&& bytes@ == bytes_of_bits(encoded(texts(symbols@), code@))
            },
            Err(e) => e == CodecError::UnknownSymbol && !covers(code@, texts(symbols@)),
        },
{
    let mut bits: Vec<bool> = Vec::new();
    let mut i: usize = 0;
    let ghost all = texts(symbols@);
    assert(code_sequence(all.take(0), code@) =~= Seq::<Code>::empty());
    while i < symbols.len()
        invariant
            code.wf(),
            all == texts(symbols@),
            i <= symbols@.len(),
            covers(code@, all.take(i as int)),
            bits@ == encoded(all.take(i as int), code@),
        decreases symbols@.len() - i,
    {
        match code.get(symbols[i].as_str()) {
            Some(c) => {
                let ghost before = bits@;
                let mut j: usize = 0;
                while j < c.len()
                    invariant
                        j <= c@.len(),
                        bits@ == before + c@.take(j as int),
                    decreases c@.len() - j,
                {
                    bits.push(c[j]);
                    assert(bits@ =~= before + c@.take(j + 1));
                    j += 1;
                }
                proof {
                    assert(c@.take(j as int) =~= c@);
                    let done = code_sequence(all.take(i as int), code@);
                    assert(code_sequence(all.take(i + 1), code@) =~= done.push(c@));
                    done.lemma_flatten_push(c@);
                    assert forall|k: int| 0 <= k < all.take(i + 1).len() implies code@.dom().contains(
                        #[trigger] all.take(i + 1)[k],
                    ) by {
                        if k < i {
                            assert(all.take(i as int)[k] == all.take(i + 1)[k]);
                        }
                    }
                }
            },
            None => {
                assert(all[i as int] == symbols@[i as int]@);
                return Err(CodecError::UnknownSymbol);
            },
        }
        i += 1;
    }
    assert(all.take(i as int) =~= all);
    proof {
        lemma_encoded_len(all, code@);
    }
    let bytes = pack_bits(&bits);
    Ok((bytes, bits.len()))
}

/// Encodes `text`, taken grapheme cluster by grapheme cluster, with the table
/// `code`: the packed payload and the number of bits in it before padding.
///
/// Fails with `UnknownSymbol` where the table lacks one of the clusters. Under
/// a prefix-free table the payload decodes to `text` again.
pub fn encode_text(text: &str, code: &CodeTable) -> (result: Result<(Vec<u8>, usize), CodecError>)
    requires
        code.wf(),
    ensures
        match result {
            Ok((bytes, size)) => {
                &&& covers(code@, grapheme_clusters(text@))
                &&& size == code_lengths(grapheme_clusters(text@), code@)
                &&& size == encoded(grapheme_clusters(text@), code@).len()
                &&& bytes@ == bytes_of_bits(encoded(grapheme_clusters(text@), code@))
                &&& prefix_free(code@) ==> payload_text(inverse_of(code@), bytes@, size as nat)
                    == Some(text@)
            },
            Err(e) => e == CodecError::UnknownSymbol && !covers(code@, grapheme_clusters(text@)),
        },
{
    let symbols = graphemes(text);
    let result = encode_symbols(&symbols, code);
    proof {
        if result is Ok && prefix_free(code@) {
            code.lemma_codes_nonempty();
            lemma_inverted_inverts(code.symbols(), code.codes());
            lemma_inverse_unique(code@, inverted(code.symbols(), code.codes()));
            lemma_round_trip(code@, inverse_of(code@), texts(symbols@));
        }
    }
    result
}

} // verus!
