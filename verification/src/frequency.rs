//! How often each symbol occurs in a text.

use crate::assoc::{
    lemma_pairing_at, lemma_pairing_dom, lemma_pairing_push, lemma_pairing_update, pairing,
};
use crate::symbols::{
    find_symbol, grapheme_clusters, graphemes, lemma_flatten_empty, texts, Symbol,
};
use vstd::prelude::*;

verus! {

/// The number of times that each symbol of `symbols` occurs in it.
pub open spec fn frequencies(symbols: Seq<Symbol>) -> Map<Symbol, nat> {
    Map::new(|s: Symbol| symbols.contains(s), |s: Symbol| symbols.to_multiset().count(s))
}

/// The counts as natural numbers.
pub open spec fn naturals(counts: Seq<usize>) -> Seq<nat> {
    Seq::new(counts.len(), |i: int| counts[i] as nat)
}

/// The sum of `counts`.
pub open spec fn sum(counts: Seq<nat>) -> nat
    decreases counts.len(),
{
    if counts.len() == 0 {
        0
    } else {
        sum(counts.drop_last()) + counts.last()
    }
}

/// One more at place `i` is one more in the sum.
proof fn lemma_sum_update(counts: Seq<nat>, i: int)
    requires
        0 <= i < counts.len(),
    ensures
        sum(counts.update(i, counts[i] + 1)) == sum(counts) + 1,
        counts[i] <= sum(counts),
    decreases counts.len(),
{
    let next = counts.update(i, counts[i] + 1);
    if i == counts.len() - 1 {
        assert(next.drop_last() =~= counts.drop_last());
    } else {
        assert(next.drop_last() =~= counts.drop_last().update(i, counts[i] + 1));
        lemma_sum_update(counts.drop_last(), i);
    }
}

/// The count of each symbol of a text. No symbol stands twice, no count is
/// zero, and the counts together fit a `usize`.
pub struct FrequencyTable {
    symbols: Vec<String>,
    counts: Vec<usize>,
}

impl View for FrequencyTable {
    type V = Map<Symbol, nat>;

    open spec fn view(&self) -> Map<Symbol, nat> {
        pairing(self.symbols(), self.counts())
    }
}

impl FrequencyTable {
    /// The symbols, in the order in which they first occurred.
    pub closed spec fn symbols(&self) -> Seq<Symbol> {
        texts(self.symbols@)
    }

    /// The count of each symbol, in the same order.
    pub closed spec fn counts(&self) -> Seq<nat> {
        naturals(self.counts@)
    }

    /// The table's invariant.
    pub open spec fn wf(&self) -> bool {
        &&& self.symbols().len() == self.counts().len()
        &&& self.symbols().no_duplicates()
        &&& forall|i: int| 0 <= i < self.counts().len() ==> #[trigger] self.counts()[i] > 0
        &&& sum(self.counts()) <= usize::MAX
    }

    /// The number of symbols.
    pub fn len(&self) -> (n: usize)
        requires
            self.wf(),
        ensures
            n == self.symbols().len(),
            n == self@.dom().len(),
            self@.dom().finite(),
    {
        proof {
            lemma_pairing_dom(self.symbols(), self.counts());
        }
        self.symbols.len()
    }

    /// Whether the table holds no symbol.
    pub fn is_empty(&self) -> (empty: bool)
        requires
            self.wf(),
        ensures
            empty == (self@.dom().len() == 0),
            empty == (self.symbols().len() == 0),
    {
        self.len() == 0
    }

    /// The symbol of entry `i`.
    pub fn symbol_at(&self, i: usize) -> (symbol: &String)
        requires
            self.wf(),
            i < self.symbols().len(),
        ensures
            symbol@ == self.symbols()[i as int],
    {
        &self.symbols[i]
    }

    /// The count of entry `i`.
    pub fn count_at(&self, i: usize) -> (count: usize)
        requires
            self.wf(),
            i < self.symbols().len(),
        ensures
            count == self.counts()[i as int],
            count == self@[self.symbols()[i as int]],
            count > 0,
    {
        proof {
            lemma_pairing_at(self.symbols(), self.counts(), i as int);
        }
        self.counts[i]
    }

    /// How often `symbol` occurred: zero where the table does not hold it.
    pub fn get(&self, symbol: &str) -> (count: usize)
        requires
            self.wf(),
        ensures
            self@.dom().contains(symbol@) ==> count == self@[symbol@] && count > 0,
            !self@.dom().contains(symbol@) ==> count == 0,
    {
        match find_symbol(&self.symbols, symbol) {
            Some(i) => {
                proof {
                    assert(self.symbols()[i as int] == symbol@);
                    lemma_pairing_at(self.symbols(), self.counts(), i as int);
                }
                self.counts[i]
            },
            None => 0,
        }
    }
}

/// One more symbol behind a sequence is one more occurrence of that symbol.
proof fn lemma_frequencies_push(symbols: Seq<Symbol>, s: Symbol)
    ensures
        frequencies(symbols.push(s)) == frequencies(symbols).insert(
            s,
            symbols.to_multiset().count(s) + 1,
        ),
        symbols.contains(s) <==> symbols.to_multiset().count(s) > 0,
{
    vstd::seq_lib::to_multiset_build(symbols, s);
    let longer = symbols.push(s);
    let m = frequencies(symbols).insert(s, symbols.to_multiset().count(s) + 1);
    assert forall|x: Symbol| frequencies(longer).dom().contains(x) == m.dom().contains(x) by {
        if symbols.contains(x) {
            let i = choose|i: int| 0 <= i < symbols.len() && symbols[i] == x;
            assert(longer[i] == x);
        }
        if longer.contains(x) {
            let i = choose|i: int| 0 <= i < longer.len() && longer[i] == x;
            if i < symbols.len() {
                assert(symbols[i] == x);
            }
        }
        if x == s {
            assert(longer[symbols.len() as int] == s);
        }
    }
    assert(frequencies(longer) =~= m);
    vstd::seq_lib::to_multiset_contains(symbols, s);
}

/// Counts how often each of `symbols` occurs.
pub fn count_symbols(symbols: &Vec<String>) -> (table: FrequencyTable)
    ensures
        table.wf(),
        table@ == frequencies(texts(symbols@)),
{
    let mut table = FrequencyTable { symbols: Vec::new(), counts: Vec::new() };
    let ghost all = texts(symbols@);
    let mut i: usize = 0;
    proof {
        assert(table.symbols() =~= Seq::<Symbol>::empty());
        assert(table.counts() =~= Seq::<nat>::empty());
        assert(all.take(0) =~= Seq::<Symbol>::empty());
        assert(table@ =~= frequencies(all.take(0)));
    }
    while i < symbols.len()
        invariant
            all == texts(symbols@),
            i <= symbols@.len(),
            table.symbols().len() == table.counts().len(),
            table.symbols().no_duplicates(),
            forall|k: int| 0 <= k < table.counts().len() ==> #[trigger] table.counts()[k] > 0,
            sum(table.counts()) == i,
            table@ == frequencies(all.take(i as int)),
        decreases symbols@.len() - i,
    {
        let ghost seen = all.take(i as int);
        let ghost old_symbols = table.symbols();
        let ghost old_counts = table.counts();
        proof {
            assert(all.take(i + 1) =~= seen.push(all[i as int]));
            assert(all[i as int] == symbols@[i as int]@);
            lemma_frequencies_push(seen, all[i as int]);
            lemma_pairing_dom(old_symbols, old_counts);
        }
        match find_symbol(&table.symbols, symbols[i].as_str()) {
            Some(k) => {
                proof {
                    assert(old_symbols[k as int] == all[i as int]);
                    lemma_pairing_at(old_symbols, old_counts, k as int);
                    lemma_sum_update(old_counts, k as int);
                    lemma_pairing_update(old_symbols, old_counts, k as int, old_counts[k as int] + 1);
                }
                let count = table.counts[k];
                table.counts.set(k, count + 1);
                assert(table.counts() =~= old_counts.update(k as int, old_counts[k as int] + 1));
            },
            None => {
                proof {
                    lemma_pairing_push(old_symbols, old_counts, all[i as int], 1nat);
                    assert(old_counts.push(1nat).drop_last() =~= old_counts);
                    assert(!seen.contains(all[i as int])) by {
                        assert(!table@.dom().contains(all[i as int]));
                    }
                }
                table.symbols.push(symbols[i].clone());
                table.counts.push(1);
                assert(table.symbols() =~= old_symbols.push(all[i as int]));
                assert(table.counts() =~= old_counts.push(1nat));
            },
        }
        i += 1;
    }
    assert(all.take(i as int) =~= all);
    table
}

/// Counts how often each grapheme cluster of `text` occurs. An empty text
/// gives an empty table.
pub fn find_freq(text: &str) -> (table: FrequencyTable)
    ensures
        table.wf(),
        table@ == frequencies(grapheme_clusters(text@)),
        text@.len() == 0 <==> table@.dom().len() == 0,
{
    let symbols = graphemes(text);
    let table = count_symbols(&symbols);
    proof {
        let clusters = texts(symbols@);
        lemma_pairing_dom(table.symbols(), table.counts());
        lemma_flatten_empty(clusters);
        if clusters.len() == 0 {
            assert(table@.dom() =~= Set::<Symbol>::empty());
        } else {
            assert(clusters.contains(clusters[0]));
            assert(table@.dom().contains(clusters[0]));
        }
    }
    table
}

} // verus!
