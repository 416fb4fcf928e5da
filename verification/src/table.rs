//! The code table, from symbol to code, and its inverse, from code to symbol.

use crate::assoc::{
    lemma_index_of_unique, lemma_pairing_at, lemma_pairing_dom, lemma_pairing_push,
    lemma_pairing_update, pairing,
};
use crate::symbols::{find_symbol, texts, Symbol};
use vstd::prelude::*;

verus! {

/// A code as contracts see it: its bits, first bit first.
pub type Code = Seq<bool>;

/// What each bit vector of a vector holds.
pub open spec fn rows(vectors: Seq<Vec<bool>>) -> Seq<Code> {
    Seq::new(vectors.len(), |i: int| vectors[i]@)
}

/// Whether `a` and `b` hold the same bits.
pub fn same_bits(a: &Vec<bool>, b: &Vec<bool>) -> (same: bool)
    ensures
        same == (a@ == b@),
{
    if a.len() != b.len() {
        return false;
    }
    let mut i: usize = 0;
    while i < a.len()
        invariant
            i <= a@.len(),
            a@.len() == b@.len(),
            a@.take(i as int) == b@.take(i as int),
        decreases a@.len() - i,
    {
        if a[i] != b[i] {
            return false;
        }
        assert(a@.take(i + 1) =~= a@.take(i as int).push(a@[i as int]));
        assert(b@.take(i + 1) =~= b@.take(i as int).push(b@[i as int]));
        i += 1;
    }
    assert(a@ =~= a@.take(i as int) && b@ =~= b@.take(i as int));
    true
}

/// The code of each symbol. No symbol stands twice, and no code is empty: an
/// empty code would add nothing to the payload, and its symbol would be lost.
pub struct CodeTable {
    symbols: Vec<String>,
    codes: Vec<Vec<bool>>,
}

impl View for CodeTable {
    type V = Map<Symbol, Code>;

    open spec fn view(&self) -> Map<Symbol, Code> {
        pairing(self.symbols(), self.codes())
    }
}

impl CodeTable {
    /// The symbols, in the order in which they came into the table.
    pub closed spec fn symbols(&self) -> Seq<Symbol> {
        texts(self.symbols@)
    }

    /// The code of each symbol, in the same order.
    pub closed spec fn codes(&self) -> Seq<Code> {
        rows(self.codes@)
    }

    /// The table's invariant.
    pub open spec fn wf(&self) -> bool {
        &&& self.symbols().len() == self.codes().len()
        &&& self.symbols().no_duplicates()
        &&& forall|i: int| 0 <= i < self.codes().len() ==> (#[trigger] self.codes()[i]).len() > 0
    }

    /// A well-formed table has no empty code and no symbol twice.
    pub proof fn lemma_codes_nonempty(&self)
        requires
            self.wf(),
        ensures
            self.symbols().no_duplicates(),
            self.symbols().len() == self.codes().len(),
            forall|a: Symbol| self@.dom().contains(a) ==> (#[trigger] self@[a]).len() > 0,
    {
        assert forall|a: Symbol| self@.dom().contains(a) implies (#[trigger] self@[a]).len() > 0 by {
            let i = self.symbols().index_of(a);
            assert(self.symbols()[i] == a);
            assert(self.codes()[i].len() > 0);
        }
    }

    /// The table holds a symbol where the symbol stands among its symbols.
    pub proof fn lemma_dom(&self)
        ensures
            forall|a: Symbol| self@.dom().contains(a) <==> self.symbols().contains(a),
    {
    }

    /// A table without entries.
    pub fn new() -> (table: CodeTable)
        ensures
            table.wf(),
            table.symbols() == Seq::<Symbol>::empty(),
            table.codes() == Seq::<Code>::empty(),
            table@ == Map::<Symbol, Code>::empty(),
    {
        let table = CodeTable { symbols: Vec::new(), codes: Vec::new() };
        assert(table.symbols() =~= Seq::<Symbol>::empty());
        assert(table.codes() =~= Seq::<Code>::empty());
        assert(table@ =~= Map::<Symbol, Code>::empty());
        table
    }

    /// The number of entries.
    pub fn len(&self) -> (n: usize)
        requires
            self.wf(),
        ensures
            n == self.symbols().len(),
            n == self@.dom().len(),
    {
        proof {
            lemma_pairing_dom(self.symbols(), self.codes());
        }
        self.symbols.len()
    }

    /// The symbol of entry `i`.
    pub fn symbol_at(&self, i: usize) -> (symbol: &String)
        requires
            self.wf(),
            i < self.symbols().len(),
        ensures
            symbol@ == self.symbols()[i as int],
    {
        &self.symbols[i]
    }

    /// The code of entry `i`.
    pub fn code_at(&self, i: usize) -> (code: &Vec<bool>)
        requires
            self.wf(),
            i < self.symbols().len(),
        ensures
            code@ == self.codes()[i as int],
            code@ == self@[self.symbols()[i as int]],
            code@.len() > 0,
    {
        proof {
            lemma_pairing_at(self.symbols(), self.codes(), i as int);
        }
        &self.codes[i]
    }

    /// The code of `symbol`, if the table holds the symbol.
    pub fn get(&self, symbol: &str) -> (code: Option<&Vec<bool>>)
        requires
            self.wf(),
        ensures
            match code {
                Some(c) => self@.dom().contains(symbol@) && c@ == self@[symbol@] && c@.len() > 0,
                None => !self@.dom().contains(symbol@),
            },
    {
        match find_symbol(&self.symbols, symbol) {
            Some(i) => {
                proof {
                    assert(self.symbols()[i as int] == symbol@);
                    lemma_pairing_at(self.symbols(), self.codes(), i as int);
                }
                Some(&self.codes[i])
            },
            None => None,
        }
    }

    /// Gives `symbol` the code `code`, in place of the code it had, if any. An
    /// empty code is refused, and the table stays as it was.
    pub fn insert(&mut self, symbol: String, code: Vec<bool>) -> (accepted: bool)
        requires
            old(self).wf(),
        ensures
            final(self).wf(),
            accepted == (code@.len() > 0),
            accepted ==> final(self)@ == old(self)@.insert(symbol@, code@),
            accepted && old(self)@.dom().contains(symbol@) ==> final(self).symbols() == old(
                self,
            ).symbols() && final(self).codes() == old(self).codes().update(
                old(self).symbols().index_of(symbol@),
                code@,
            ),
            accepted && !old(self)@.dom().contains(symbol@) ==> final(self).symbols() == old(
                self,
            ).symbols().push(symbol@) && final(self).codes() == old(self).codes().push(code@),
            !accepted ==> final(self).symbols() == old(self).symbols() && final(self).codes()
                == old(self).codes(),
    {
        if code.len() == 0 {
            return false;
        }
        match find_symbol(&self.symbols, symbol.as_str()) {
            Some(i) => {
                proof {
                    assert(self.symbols()[i as int] == symbol@);
                    lemma_index_of_unique(self.symbols(), i as int);
                    lemma_pairing_update(self.symbols(), self.codes(), i as int, code@);
                }
                self.codes.set(i, code);
                assert(self.codes() =~= old(self).codes().update(i as int, code@));
            },
            None => {
                proof {
                    lemma_pairing_push(self.symbols(), self.codes(), symbol@, code@);
                }
                self.symbols.push(symbol);
                self.codes.push(code);
                assert(self.symbols() =~= old(self).symbols().push(symbol@));
                assert(self.codes() =~= old(self).codes().push(code@));
            },
        }
        true
    }
}

/// The symbol of each code: a code table turned round. No code stands twice.
pub struct DecodeTable {
    codes: Vec<Vec<bool>>,
    symbols: Vec<String>,
    longest: usize,
}

impl View for DecodeTable {
    type V = Map<Code, Symbol>;

    open spec fn view(&self) -> Map<Code, Symbol> {
        pairing(self.codes(), self.symbols())
    }
}

impl DecodeTable {
    /// The codes, in the order in which they came into the table.
    pub closed spec fn codes(&self) -> Seq<Code> {
        rows(self.codes@)
    }

    /// The symbol of each code, in the same order.
    pub closed spec fn symbols(&self) -> Seq<Symbol> {
        texts(self.symbols@)
    }

    /// A length that no code of the table exceeds.
    pub closed spec fn longest(&self) -> nat {
        self.longest as nat
    }

    /// The table's invariant.
    pub open spec fn wf(&self) -> bool {
        &&& self.symbols().len() == self.codes().len()
        &&& self.codes().no_duplicates()
        &&& forall|i: int|
            0 <= i < self.codes().len() ==> (#[trigger] self.codes()[i]).len() <= self.longest()
    }

    /// A table without entries; no code of it is longer than zero bits.
    pub fn new() -> (table: DecodeTable)
        ensures
            table.wf(),
            table.codes() == Seq::<Code>::empty(),
            table.symbols() == Seq::<Symbol>::empty(),
            table@ == Map::<Code, Symbol>::empty(),
            table.longest() == 0,
    {
        let table = DecodeTable { codes: Vec::new(), symbols: Vec::new(), longest: 0 };
        assert(table.symbols() =~= Seq::<Symbol>::empty());
        assert(table.codes() =~= Seq::<Code>::empty());
        assert(table@ =~= Map::<Code, Symbol>::empty());
        table
    }

    /// The number of entries.
    pub fn len(&self) -> (n: usize)
        requires
            self.wf(),
        ensures
            n == self.codes().len(),
            n == self@.dom().len(),
    {
        proof {
            lemma_pairing_dom(self.codes(), self.symbols());
        }
        self.codes.len()
    }

    /// The length of the longest code that the table ever held.
    pub fn longest_code(&self) -> (n: usize)
        requires
            self.wf(),
        ensures
            n == self.longest(),
            forall|code: Code| self@.dom().contains(code) ==> code.len() <= n,
    {
        proof {
            assert forall|code: Code| self@.dom().contains(code) implies code.len()
                <= self.longest() by {
                let i = self.codes().index_of(code);
                assert(self.codes()[i] == code);
            }
        }
        self.longest
    }

    /// Where `code` stands among the codes.
    fn find(&self, code: &Vec<bool>) -> (place: Option<usize>)
        ensures
            match place {
                Some(i) => i < self.codes().len() && self.codes()[i as int] == code@,
                None => !self.codes().contains(code@),
            },
    {
        let mut i: usize = 0;
        while i < self.codes.len()
            invariant
                i <= self.codes().len(),
                self.codes().len() == self.codes@.len(),
                forall|j: int| 0 <= j < i ==> self.codes()[j] != code@,
            decreases self.codes@.len() - i,
        {
            if same_bits(&self.codes[i], code) {
                return Some(i);
            }
            i += 1;
        }
        None
    }

    /// The symbol of `code`, if the table holds the code.
    pub fn get(&self, code: &Vec<bool>) -> (symbol: Option<&String>)
        requires
            self.wf(),
        ensures
            match symbol {
                Some(s) => self@.dom().contains(code@) && s@ == self@[code@],
                None => !self@.dom().contains(code@),
            },
    {
        match self.find(code) {
            Some(i) => {
                proof {
                    lemma_pairing_at(self.codes(), self.symbols(), i as int);
                }
                Some(&self.symbols[i])
            },
            None => None,
        }
    }

    /// Gives `code` the symbol `symbol`, in place of the symbol it had, if any.
    /// A new code that is longer than every code before it is the new
    /// longest.
    pub fn insert(&mut self, code: Vec<bool>, symbol: String)
        requires
            old(self).wf(),
        ensures
            final(self).wf(),
            final(self)@ == old(self)@.insert(code@, symbol@),
            final(self).longest() == if old(self)@.dom().contains(code@) || code@.len() <= old(
                self,
            ).longest() {
                old(self).longest()
            } else {
                code@.len()
            },
    {
        match self.find(&code) {
            Some(i) => {
                proof {
                    lemma_pairing_update(self.codes(), self.symbols(), i as int, symbol@);
                }
                self.symbols.set(i, symbol);
                assert(self.symbols() =~= old(self).symbols().update(i as int, symbol@));
                assert(self.codes() =~= old(self).codes());
            },
            None => {
                proof {
                    lemma_pairing_push(self.codes(), self.symbols(), code@, symbol@);
                }
                if code.len() > self.longest {
                    self.longest = code.len();
                }
                self.codes.push(code);
                self.symbols.push(symbol);
                assert(self.symbols() =~= old(self).symbols().push(symbol@));
                assert(self.codes() =~= old(self).codes().push(code@));
            },
        }
    }
}

} // verus!
