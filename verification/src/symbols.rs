//! Symbols: the grapheme clusters of a text, their equality and their order.

use unicode_segmentation::UnicodeSegmentation;
use vstd::prelude::*;
use vstd::utf8::*;

verus! {

/// A symbol as contracts see it: the characters of one grapheme cluster.
pub type Symbol = Seq<char>;

/// The extended grapheme clusters of a text, in order, as
/// `UnicodeSegmentation::graphemes` finds them.
pub uninterp spec fn grapheme_clusters(text: Seq<char>) -> Seq<Symbol>;

/// What each string of a vector holds.
pub open spec fn texts(strings: Seq<String>) -> Seq<Seq<char>> {
    Seq::new(strings.len(), |i: int| strings[i]@)
}

/// `UnicodeSegmentation::graphemes` with extended clusters, each cluster
/// copied into a string of its own. The iterator hands out consecutive slices
/// of the text, from its start to its end and each up to the next boundary
/// behind its start: the clusters joined are the text, and none is empty.
#[verifier::external_body]
pub(crate) fn graphemes(text: &str) -> (clusters: Vec<String>)
    ensures
        texts(clusters@) == grapheme_clusters(text@),
        texts(clusters@).flatten() == text@,
        forall|i: int| 0 <= i < clusters@.len() ==> (#[trigger] texts(clusters@)[i]).len() > 0,
{
    text.graphemes(true).map(String::from).collect()
}

/// Pieces of which none is empty join to an empty text only where there is
/// no piece.
pub proof fn lemma_flatten_empty(pieces: Seq<Seq<char>>)
    requires
        forall|i: int| 0 <= i < pieces.len() ==> (#[trigger] pieces[i]).len() > 0,
    ensures
        pieces.flatten().len() == 0 <==> pieces.len() == 0,
{
    if pieces.len() > 0 {
        assert(pieces.flatten() == pieces.first() + pieces.drop_first().flatten());
        assert(pieces[0].len() > 0);
    }
}

/// Lexicographic order on byte strings: `x` comes strictly before `y`.
pub open spec fn bytes_before(x: Seq<u8>, y: Seq<u8>) -> bool
    decreases x.len(),
{
    if y.len() == 0 {
        false
    } else if x.len() == 0 {
        true
    } else if x[0] != y[0] {
        x[0] < y[0]
    } else {
        bytes_before(x.drop_first(), y.drop_first())
    }
}

/// The order of symbols: that of their UTF-8 encodings, byte by byte, which
/// is the order of `str`.
pub open spec fn symbol_before(a: Symbol, b: Symbol) -> bool {
    bytes_before(encode_utf8(a), encode_utf8(b))
}

/// No byte string comes before itself.
pub proof fn lemma_bytes_before_irreflexive(x: Seq<u8>)
    ensures
        !bytes_before(x, x),
    decreases x.len(),
{
    if x.len() > 0 {
        lemma_bytes_before_irreflexive(x.drop_first());
    }
}

/// The order of byte strings is transitive.
pub proof fn lemma_bytes_before_transitive(x: Seq<u8>, y: Seq<u8>, z: Seq<u8>)
    requires
        bytes_before(x, y),
        bytes_before(y, z),
    ensures
        bytes_before(x, z),
    decreases x.len(),
{
    if x.len() > 0 && x[0] == y[0] && y[0] == z[0] {
        lemma_bytes_before_transitive(x.drop_first(), y.drop_first(), z.drop_first());
    }
}

/// Of two different byte strings one comes before the other.
pub proof fn lemma_bytes_before_total(x: Seq<u8>, y: Seq<u8>)
    ensures
        x == y || bytes_before(x, y) || bytes_before(y, x),
    decreases x.len(),
{
    if x.len() == 0 || y.len() == 0 {
        if x.len() == 0 && y.len() == 0 {
            assert(x =~= y);
        }
    } else if x[0] == y[0] {
        lemma_bytes_before_total(x.drop_first(), y.drop_first());
        if x.drop_first() == y.drop_first() {
            assert(x =~= seq![x[0]] + x.drop_first());
            assert(y =~= seq![y[0]] + y.drop_first());
        }
    }
}

/// Two symbols with the same encoding are the same symbol.
pub proof fn lemma_encoding_injective(a: Symbol, b: Symbol)
    requires
        encode_utf8(a) == encode_utf8(b),
    ensures
        a == b,
{
    encode_utf8_decode_utf8(a);
    encode_utf8_decode_utf8(b);
}

/// No symbol comes before itself.
pub proof fn lemma_symbol_before_irreflexive(a: Symbol)
    ensures
        !symbol_before(a, a),
{
    lemma_bytes_before_irreflexive(encode_utf8(a));
}

/// The order of symbols is transitive.
pub proof fn lemma_symbol_before_transitive(a: Symbol, b: Symbol, c: Symbol)
    requires
        symbol_before(a, b),
        symbol_before(b, c),
    ensures
        symbol_before(a, c),
{
    lemma_bytes_before_transitive(encode_utf8(a), encode_utf8(b), encode_utf8(c));
}

/// Of two different symbols one comes before the other.
pub proof fn lemma_symbol_before_total(a: Symbol, b: Symbol)
    ensures
        a == b || symbol_before(a, b) || symbol_before(b, a),
{
    lemma_bytes_before_total(encode_utf8(a), encode_utf8(b));
    if encode_utf8(a) == encode_utf8(b) {
        lemma_encoding_injective(a, b);
    }
}

/// Whether `a` comes before `b` in the order of symbols.
pub fn symbol_precedes(a: &str, b: &str) -> (before: bool)
    ensures
        before == symbol_before(a@, b@),
{
    let x = a.as_bytes();
    let y = b.as_bytes();
    let mut i: usize = 0;
    assert(x@.skip(0) =~= x@ && y@.skip(0) =~= y@);
    while i < x.len() && i < y.len()
        invariant
            x@ == encode_utf8(a@),
            y@ == encode_utf8(b@),
            i <= x@.len(),
            i <= y@.len(),
            bytes_before(x@, y@) == bytes_before(x@.skip(i as int), y@.skip(i as int)),
        decreases x@.len() - i,
    {
        assert(x@.skip(i as int)[0] == x@[i as int] && y@.skip(i as int)[0] == y@[i as int]);
        if x[i] != y[i] {
            return x[i] < y[i];
        }
        assert(x@.skip(i as int).drop_first() =~= x@.skip(i + 1));
        assert(y@.skip(i as int).drop_first() =~= y@.skip(i + 1));
        i += 1;
    }
    i < y.len()
}

/// Whether `a` and `b` hold the same characters.
pub fn same_text(a: &str, b: &str) -> (same: bool)
    ensures
        same == (a@ == b@),
{
    let x = a.as_bytes();
    let y = b.as_bytes();
    if x.len() != y.len() {
        return false;
    }
    let mut i: usize = 0;
    while i < x.len()
        invariant
            x@ == encode_utf8(a@),
            y@ == encode_utf8(b@),
            i <= x@.len(),
            x@.len() == y@.len(),
            x@.take(i as int) == y@.take(i as int),
        decreases x@.len() - i,
    {
        if x[i] != y[i] {
            return false;
        }
        assert(x@.take(i + 1) =~= x@.take(i as int).push(x@[i as int]));
        assert(y@.take(i + 1) =~= y@.take(i as int).push(y@[i as int]));
        i += 1;
    }
    proof {
        assert(x@ =~= x@.take(i as int));
        assert(y@ =~= y@.take(i as int));
        lemma_encoding_injective(a@, b@);
    }
    true
}

/// Where `symbol` stands in `symbols`: the first place that holds it.
pub fn find_symbol(symbols: &Vec<String>, symbol: &str) -> (place: Option<usize>)
    ensures
        match place {
            Some(i) => i < symbols@.len() && symbols@[i as int]@ == symbol@ && forall|j: int|
                0 <= j < i ==> texts(symbols@)[j] != symbol@,
            None => !texts(symbols@).contains(symbol@),
        },
{
    let mut i: usize = 0;
    while i < symbols.len()
        invariant
            i <= symbols@.len(),
            forall|j: int| 0 <= j < i ==> texts(symbols@)[j] != symbol@,
        decreases symbols@.len() - i,
    {
        if same_text(symbols[i].as_str(), symbol) {
            return Some(i);
        }
        i += 1;
    }
    None
}

} // verus!
