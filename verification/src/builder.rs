//! From a frequency table to its Huffman tree.

use crate::assoc::{lemma_pairing_at, lemma_pairing_dom};
use crate::forest::{
    forest_symbols, huffman_tree, is_least, leaf_forest, least, lemma_leaf_forest,
    lemma_least_unique, lemma_separate_join, lemma_separate_remove, merge_rounds, merge_step,
    separate,
};
use crate::frequency::{sum, FrequencyTable};
use crate::queue::TreeQueue;
use crate::symbols::{symbol_precedes, Symbol};
use crate::tree::{
    joined, HuffmanBaseNode, HuffmanInternalNode, HuffmanLeafNode, HuffmanTree, Tree,
};
use crate::CodecError;
use vstd::multiset::Multiset;
use vstd::prelude::*;

verus! {

/// The leaves of the table that holds `symbols[i] -> counts[i]`, in its order.
spec fn leaves(symbols: Seq<Symbol>, counts: Seq<nat>) -> Seq<Tree> {
    Seq::new(symbols.len(), |i: int| Tree::Leaf { symbol: symbols[i], weight: counts[i] })
}

/// The trees of a queue that holds no tree twice are a set: taking one out of
/// the queue takes it out of the set.
proof fn lemma_dom_remove(trees: Multiset<Tree>, t: Tree)
    requires
        trees.count(t) == 1,
    ensures
        trees.remove(t).dom() == trees.dom().remove(t),
        forall|u: Tree| trees.remove(t).count(u) <= trees.count(u),
{
    broadcast use vstd::multiset::group_multiset_axioms;

    assert(trees.remove(t).dom() =~= trees.dom().remove(t));
}

/// Putting a tree into the queue puts it into the set.
proof fn lemma_dom_insert(trees: Multiset<Tree>, t: Tree)
    ensures
        trees.insert(t).dom() == trees.dom().insert(t),
        trees.insert(t).count(t) == trees.count(t) + 1,
        forall|u: Tree| u != t ==> trees.insert(t).count(u) == trees.count(u),
{
    broadcast use vstd::multiset::group_multiset_axioms;

    assert(trees.insert(t).dom() =~= trees.dom().insert(t));
}

/// The leaves of a table, taken as a set, are its leaf forest, and none
/// stands twice among them.
proof fn lemma_leaves(symbols: Seq<Symbol>, counts: Seq<nat>)
    requires
        symbols.no_duplicates(),
        symbols.len() == counts.len(),
    ensures
        leaves(symbols, counts).to_multiset().dom() == leaf_forest(
            crate::assoc::pairing(symbols, counts),
        ),
        forall|t: Tree| leaves(symbols, counts).to_multiset().count(t) <= 1,
{
    let all = leaves(symbols, counts);
    let table = crate::assoc::pairing(symbols, counts);
    assert(all.no_duplicates());
    all.lemma_multiset_has_no_duplicates();
    assert forall|t: Tree| all.to_multiset().dom().contains(t) == leaf_forest(table).contains(t) by {
        vstd::seq_lib::to_multiset_contains(all, t);
        if all.contains(t) {
            let i = choose|i: int| 0 <= i < all.len() && all[i] == t;
            lemma_pairing_at(symbols, counts, i);
        }
        if leaf_forest(table).contains(t) {
            let i = symbols.index_of(t->symbol);
            assert(symbols[i] == t->symbol);
            lemma_pairing_at(symbols, counts, i);
            assert(all[i] == t);
        }
    }
    assert(all.to_multiset().dom() =~= leaf_forest(table));
}

/// Builds the Huffman tree of a frequency table: each symbol starts as a leaf
/// that weighs its count; the two least trees are joined under the sum of
/// their weights, the least on the left, until one tree is left. Of trees of
/// one weight the one with the earlier first symbol is the lesser, so the tree
/// depends on the counts alone and not on the order of the table.
///
/// Fails with `EmptyInput` where the table holds no symbol.
pub fn build_binary_tree(character_weight: &FrequencyTable) -> (result: Result<
    HuffmanTree,
    CodecError,
>)
    requires
        character_weight.wf(),
    ensures
        match result {
            Ok(tree) => {
                &&& character_weight@.dom().len() > 0
                &&& tree@ == huffman_tree(character_weight@)
                &&& tree@.consistent()
                &&& tree@.symbols() == character_weight@.dom()
                &&& tree@.weight() == sum(character_weight.counts())
            },
            Err(e) => e == CodecError::EmptyInput && character_weight@.dom().len() == 0,
        },
{
    let n = character_weight.len();
    if n == 0 {
        return Err(CodecError::EmptyInput);
    }
    let ghost symbols = character_weight.symbols();
    let ghost counts = character_weight.counts();
    let ghost all = leaves(symbols, counts);
    let mut min_heap = TreeQueue::new();
    let mut i: usize = 0;
    proof {
        assert(all.take(0) =~= min_heap.trees());
        assert(counts.take(0) =~= Seq::<nat>::empty());
    }
    while i < n
        invariant
            character_weight.wf(),
            symbols == character_weight.symbols(),
            counts == character_weight.counts(),
            all == leaves(symbols, counts),
            n == symbols.len(),
            i <= n,
            min_heap.wf(),
            min_heap.trees().len() == i,
            min_heap.forest() == all.take(i as int).to_multiset(),
            min_heap.weight() == sum(counts.take(i as int)),
        decreases n - i,
    {
        let element = character_weight.symbol_at(i).clone();
        let first = element.clone();
        let weight = character_weight.count_at(i);
        let node = HuffmanBaseNode::Leaf(HuffmanLeafNode::new(element, weight));
        proof {
            node.lemma_view();
            assert(all.take(i + 1) =~= all.take(i as int).push(all[i as int]));
            vstd::seq_lib::to_multiset_build(all.take(i as int), all[i as int]);
            assert(counts.take(i + 1).drop_last() =~= counts.take(i as int));
        }
        min_heap.push(HuffmanTree::new(node), first);
        i += 1;
    }
    let ghost start = leaf_forest(character_weight@);
    let ghost total = sum(counts);
    let ghost rounds: nat = 0;
    proof {
        assert(all.take(n as int) =~= all);
        assert(counts.take(n as int) =~= counts);
        lemma_leaves(symbols, counts);
        lemma_leaf_forest(character_weight@);
        lemma_pairing_dom(symbols, counts);
    }
    while min_heap.len() > 1
        invariant
            min_heap.wf(),
            min_heap.forest().dom() == merge_rounds(start, rounds),
            forall|t: Tree| min_heap.forest().count(t) <= 1,
            separate(min_heap.forest().dom()),
            forest_symbols(min_heap.forest().dom()) == character_weight@.dom(),
            min_heap.weight() == total,
            total <= usize::MAX,
            min_heap.trees().len() + rounds == n,
            min_heap.trees().len() >= 1,
        decreases min_heap.trees().len(),
    {
        let ghost bag = min_heap.forest();
        let ghost forest = bag.dom();
        let (t1, first1) = min_heap.pop().unwrap();
        let ghost bag1 = min_heap.forest();
        let (t2, first2) = min_heap.pop().unwrap();
        let ghost bag2 = min_heap.forest();
        let ghost a = t1@;
        let ghost b = t2@;
        proof {
            assert(is_least(forest, a));
            lemma_least_unique(forest, a);
            lemma_dom_remove(bag, a);
            lemma_separate_remove(forest, a);
            assert(is_least(forest.remove(a), b));
            lemma_least_unique(forest.remove(a), b);
            lemma_dom_remove(bag1, b);
            lemma_separate_join(forest, a, b);
            lemma_dom_insert(bag2, joined(a, b));
            assert(merge_step(forest) == forest.remove(a).remove(b).insert(joined(a, b)));
        }
        let weight = t1.weight() + t2.weight();
        let first = if symbol_precedes(first2.as_str(), first1.as_str()) {
            first2
        } else {
            first1
        };
        let node = HuffmanBaseNode::Internal(
            HuffmanInternalNode::new(weight, Box::new(t1.into_root()), Box::new(t2.into_root())),
        );
        proof {
            node.lemma_view();
            assert(node@ == joined(a, b));
        }
        min_heap.push(HuffmanTree::new(node), first);
        proof {
            rounds = rounds + 1;
        }
    }
    let ghost bag = min_heap.forest();
    let (tree, _first) = min_heap.pop().unwrap();
    proof {
        broadcast use vstd::multiset::group_multiset_axioms;

        let forest = bag.dom();
        lemma_dom_remove(bag, tree@);
        vstd::multiset::lemma_multiset_empty_len(min_heap.forest());
        assert forall|u: Tree| forest.contains(u) implies u == tree@ by {
            if u != tree@ {
                assert(min_heap.forest().count(u) > 0);
            }
        }
        assert(forest.contains(forest.choose()));
        assert forall|s: Symbol| tree@.symbols().contains(s) == character_weight@.dom().contains(s) by {
            if character_weight@.dom().contains(s) {
                assert(forest_symbols(forest).contains(s));
            }
            if tree@.symbols().contains(s) {
                assert(forest.contains(tree@));
                assert(forest_symbols(forest).contains(s));
            }
        }
        assert(tree@.symbols() =~= character_weight@.dom());
    }
    Ok(tree)
}

} // verus!
