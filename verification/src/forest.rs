//! The rule by which a forest of trees grows into one tree: the two least
//! trees are joined, again and again.

use crate::symbols::{
    lemma_symbol_before_irreflexive, lemma_symbol_before_total, lemma_symbol_before_transitive,
    symbol_before, Symbol,
};
use crate::tree::{joined, lemma_first_is_symbol, Tree};
use vstd::prelude::*;

verus! {

/// The order in which trees leave the queue: the lighter tree first, and of two
/// trees of one weight the one whose first symbol is the earlier. It does not
/// depend on the order in which the trees came.
pub open spec fn tree_before(a: Tree, b: Tree) -> bool {
    a.weight() < b.weight() || (a.weight() == b.weight() && symbol_before(a.first(), b.first()))
}

/// No tree comes before itself.
pub proof fn lemma_tree_before_irreflexive(a: Tree)
    ensures
        !tree_before(a, a),
{
    lemma_symbol_before_irreflexive(a.first());
}

/// The order of trees is transitive.
pub proof fn lemma_tree_before_transitive(a: Tree, b: Tree, c: Tree)
    requires
        tree_before(a, b),
        tree_before(b, c),
    ensures
        tree_before(a, c),
{
    if a.weight() == b.weight() && b.weight() == c.weight() {
        lemma_symbol_before_transitive(a.first(), b.first(), c.first());
    }
}

/// Never both `a` before `b` and `b` before `a`.
pub proof fn lemma_tree_before_asymmetric(a: Tree, b: Tree)
    ensures
        !(tree_before(a, b) && tree_before(b, a)),
{
    if tree_before(a, b) && tree_before(b, a) {
        lemma_tree_before_transitive(a, b, a);
        lemma_tree_before_irreflexive(a);
    }
}

/// Where `b` is not before `a` and `c` is not before `b`, `c` is not before
/// `a`.
pub proof fn lemma_not_before_transitive(a: Tree, b: Tree, c: Tree)
    requires
        !tree_before(b, a),
        !tree_before(c, b),
    ensures
        !tree_before(c, a),
{
    if tree_before(c, a) {
        lemma_symbol_before_total(a.first(), b.first());
        lemma_symbol_before_total(b.first(), c.first());
        if a.first() != b.first() && b.first() != c.first() {
            lemma_symbol_before_transitive(a.first(), b.first(), c.first());
        }
        if symbol_before(a.first(), c.first()) {
            lemma_symbol_before_transitive(a.first(), c.first(), a.first());
        }
        lemma_symbol_before_irreflexive(a.first());
    }
}

/// Of two trees with different first symbols one comes before the other.
pub proof fn lemma_tree_before_total(a: Tree, b: Tree)
    requires
        a.first() != b.first(),
    ensures
        tree_before(a, b) || tree_before(b, a),
{
    lemma_symbol_before_total(a.first(), b.first());
}

/// Whether no tree of `forest` comes before its tree `t`.
pub open spec fn is_least(forest: Set<Tree>, t: Tree) -> bool {
    forest.contains(t) && forall|u: Tree| forest.contains(u) ==> !tree_before(u, t)
}

/// The tree of `forest` that comes before all its others.
pub open spec fn least(forest: Set<Tree>) -> Tree {
    choose|t: Tree| is_least(forest, t)
}

/// One round: the two least trees of `forest` leave it, the least as the left
/// and the next as the right subtree of the tree that takes their place.
pub open spec fn merge_step(forest: Set<Tree>) -> Set<Tree> {
    let a = least(forest);
    let b = least(forest.remove(a));
    forest.remove(a).remove(b).insert(joined(a, b))
}

/// The forest after `rounds` rounds.
pub open spec fn merge_rounds(forest: Set<Tree>, rounds: nat) -> Set<Tree>
    decreases rounds,
{
    if rounds == 0 {
        forest
    } else {
        merge_step(merge_rounds(forest, (rounds - 1) as nat))
    }
}

/// The forest that a frequency table starts from: one leaf for each symbol,
/// weighing the symbol's count.
pub open spec fn leaf_forest(frequencies: Map<Symbol, nat>) -> Set<Tree> {
    Set::new(
        |t: Tree|
            t matches Tree::Leaf { symbol, weight } && frequencies.dom().contains(symbol)
                && frequencies[symbol] == weight,
    )
}

/// The Huffman tree of a frequency table with at least one symbol: what is
/// left of the forest of its leaves after one round fewer than it has symbols.
pub open spec fn huffman_tree(frequencies: Map<Symbol, nat>) -> Tree {
    merge_rounds(leaf_forest(frequencies), (frequencies.dom().len() - 1) as nat).choose()
}

/// The trees of `forest` are consistent, and no two of them share a symbol.
pub open spec fn separate(forest: Set<Tree>) -> bool {
    &&& forall|t: Tree| forest.contains(t) ==> t.consistent()
    &&& forall|t: Tree, u: Tree|
        forest.contains(t) && forest.contains(u) && t != u ==> t.symbols().disjoint(u.symbols())
}

/// The symbols of all trees of `forest`.
pub open spec fn forest_symbols(forest: Set<Tree>) -> Set<Symbol> {
    Set::new(|s: Symbol| exists|t: Tree| forest.contains(t) && t.symbols().contains(s))
}

/// In a forest whose trees share no symbol, a tree that no other comes before
/// is the least.
pub proof fn lemma_least_unique(forest: Set<Tree>, t: Tree)
    requires
        separate(forest),
        is_least(forest, t),
    ensures
        least(forest) == t,
{
    let m = least(forest);
    assert(is_least(forest, m));
    if m != t {
        lemma_first_is_symbol(m);
        lemma_first_is_symbol(t);
        assert(m.symbols().disjoint(t.symbols()));
        assert(m.first() != t.first());
        lemma_tree_before_total(m, t);
    }
}

/// Taking a tree out of a forest keeps its trees apart.
pub proof fn lemma_separate_remove(forest: Set<Tree>, t: Tree)
    requires
        separate(forest),
    ensures
        separate(forest.remove(t)),
{
}

/// Joining two trees of a forest keeps its trees apart and its symbols the
/// same, and the joined tree is a new one.
pub proof fn lemma_separate_join(forest: Set<Tree>, a: Tree, b: Tree)
    requires
        separate(forest),
        forest.contains(a),
        forest.contains(b),
        a != b,
    ensures
        joined(a, b).consistent(),
        joined(a, b).symbols() == a.symbols().union(b.symbols()),
        !forest.contains(joined(a, b)),
        separate(forest.remove(a).remove(b).insert(joined(a, b))),
        forest_symbols(forest.remove(a).remove(b).insert(joined(a, b))) == forest_symbols(forest),
{
    let j = joined(a, b);
    let next = forest.remove(a).remove(b).insert(j);
    lemma_first_is_symbol(a);
    assert(a.symbols().disjoint(b.symbols()));
    assert(a.consistent() && b.consistent());
    assert(j.consistent());
    assert(j.symbols() == a.symbols().union(b.symbols()));
    assert forall|t: Tree| next.contains(t) implies t.consistent() by {}
    assert(j.symbols().contains(a.first()));
    if forest.contains(j) {
        if j != a {
            assert(j.symbols().disjoint(a.symbols()));
        } else {
            assert(false) by {
                lemma_joined_differs(a, b);
            }
        }
    }
    assert forall|t: Tree, u: Tree| next.contains(t) && next.contains(u) && t != u implies t.symbols().disjoint(
        u.symbols(),
    ) by {
        if t == j {
            assert(u.symbols().disjoint(a.symbols()));
            assert(u.symbols().disjoint(b.symbols()));
        } else if u == j {
            assert(t.symbols().disjoint(a.symbols()));
            assert(t.symbols().disjoint(b.symbols()));
        }
    }
    assert forall|s: Symbol| forest_symbols(next).contains(s) == forest_symbols(forest).contains(s) by {
        if forest_symbols(next).contains(s) {
            let t = choose|t: Tree| next.contains(t) && t.symbols().contains(s);
            if t == j {
                if a.symbols().contains(s) {
                    assert(forest.contains(a) && a.symbols().contains(s));
                } else {
                    assert(forest.contains(b) && b.symbols().contains(s));
                }
            } else {
                assert(forest.contains(t) && t.symbols().contains(s));
            }
        }
        if forest_symbols(forest).contains(s) {
            let t = choose|t: Tree| forest.contains(t) && t.symbols().contains(s);
            if t == a || t == b {
                assert(next.contains(j) && j.symbols().contains(s));
            } else {
                assert(next.contains(t) && t.symbols().contains(s));
            }
        }
    }
    assert(forest_symbols(next) =~= forest_symbols(forest));
}

/// A tree is not its own left subtree.
proof fn lemma_joined_differs(a: Tree, b: Tree)
    ensures
        joined(a, b) != a,
{
    if joined(a, b) == a {
        assert(joined(a, b).size() == 1 + a.size() + b.size());
    }
}

/// The leaves of a frequency table are apart, and their symbols are the
/// table's.
pub proof fn lemma_leaf_forest(frequencies: Map<Symbol, nat>)
    ensures
        separate(leaf_forest(frequencies)),
        forest_symbols(leaf_forest(frequencies)) == frequencies.dom(),
{
    let forest = leaf_forest(frequencies);
    assert forall|s: Symbol| forest_symbols(forest).contains(s) == frequencies.dom().contains(s) by {
        if frequencies.dom().contains(s) {
            let leaf = Tree::Leaf { symbol: s, weight: frequencies[s] };
            assert(forest.contains(leaf) && leaf.symbols().contains(s));
        }
    }
    assert(forest_symbols(forest) =~= frequencies.dom());
}

/// A forest that is not empty, and whose trees share no symbol, has a least
/// tree.
pub proof fn lemma_least_exists(forest: Set<Tree>)
    requires
        forest.finite(),
        forest.len() > 0,
        separate(forest),
    ensures
        is_least(forest, least(forest)),
    decreases forest.len(),
{
    let x = forest.choose();
    let rest = forest.remove(x);
    lemma_tree_before_irreflexive(x);
    if rest.len() == 0 {
        assert forall|u: Tree| forest.contains(u) implies !tree_before(u, x) by {
            if u != x {
                assert(rest.contains(u));
            }
        }
        assert(is_least(forest, x));
    } else {
        lemma_least_exists(rest);
        let m = least(rest);
        lemma_first_is_symbol(m);
        lemma_first_is_symbol(x);
        assert(m.symbols().disjoint(x.symbols()));
        lemma_tree_before_total(m, x);
        lemma_tree_before_asymmetric(m, x);
        if tree_before(x, m) {
            assert forall|u: Tree| forest.contains(u) implies !tree_before(u, x) by {
                if u != x {
                    assert(rest.contains(u));
                    if tree_before(u, x) {
                        lemma_tree_before_transitive(u, x, m);
                    }
                }
            }
            assert(is_least(forest, x));
        } else {
            assert forall|u: Tree| forest.contains(u) implies !tree_before(u, m) by {
                if u != x {
                    assert(rest.contains(u));
                }
            }
            assert(is_least(forest, m));
        }
    }
}

/// Each round leaves one tree fewer; the trees still share no symbol, and
/// their symbols are those of the forest at the start.
pub proof fn lemma_merge_rounds(forest: Set<Tree>, rounds: nat)
    requires
        forest.finite(),
        separate(forest),
        rounds < forest.len(),
    ensures
        merge_rounds(forest, rounds).finite(),
        merge_rounds(forest, rounds).len() == forest.len() - rounds,
        separate(merge_rounds(forest, rounds)),
        forest_symbols(merge_rounds(forest, rounds)) == forest_symbols(forest),
    decreases rounds,
{
    if rounds > 0 {
        let before = merge_rounds(forest, (rounds - 1) as nat);
        lemma_merge_rounds(forest, (rounds - 1) as nat);
        lemma_least_exists(before);
        let a = least(before);
        let rest = before.remove(a);
        lemma_separate_remove(before, a);
        lemma_least_exists(rest);
        let b = least(rest);
        lemma_separate_join(before, a, b);
    }
}

/// The Huffman tree of a frequency table with at least one symbol is
/// consistent, and its symbols are the table's.
pub proof fn lemma_huffman_tree(frequencies: Map<Symbol, nat>)
    requires
        frequencies.dom().finite(),
        frequencies.dom().len() > 0,
    ensures
        huffman_tree(frequencies).consistent(),
        huffman_tree(frequencies).symbols() == frequencies.dom(),
{
    let start = leaf_forest(frequencies);
    let leaf = |s: Symbol| Tree::Leaf { symbol: s, weight: frequencies[s] };
    assert(frequencies.dom().map(leaf) =~= start) by {
        assert forall|t: Tree| start.contains(t) implies frequencies.dom().map(leaf).contains(t) by {
            assert(frequencies.dom().contains(t->symbol) && t == leaf(t->symbol));
        }
    }
    assert(vstd::relations::injective_on(leaf, frequencies.dom()));
    vstd::set_lib::lemma_map_size(frequencies.dom(), start, leaf);
    lemma_leaf_forest(frequencies);
    let rounds = (frequencies.dom().len() - 1) as nat;
    lemma_merge_rounds(start, rounds);
    let last = merge_rounds(start, rounds);
    let tree = last.choose();
    assert(last.contains(tree));
    assert forall|u: Tree| last.contains(u) implies u == tree by {
        if u != tree {
            assert(last.remove(tree).contains(u));
        }
    }
    assert forall|s: Symbol| tree.symbols().contains(s) == frequencies.dom().contains(s) by {
        if frequencies.dom().contains(s) {
            assert(forest_symbols(last).contains(s));
        }
        if tree.symbols().contains(s) {
            assert(forest_symbols(last).contains(s));
        }
    }
    assert(tree.symbols() =~= frequencies.dom());
}

} // verus!
