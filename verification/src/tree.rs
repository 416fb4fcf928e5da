//! The Huffman tree: leaves that hold a symbol, inner nodes that hold two
//! subtrees, and a weight on each.

use crate::symbols::{symbol_before, Symbol};
use vstd::prelude::*;

verus! {

/// A tree as contracts see it.
pub enum Tree {
    /// A symbol with its weight.
    Leaf { symbol: Symbol, weight: nat },
    /// Two subtrees under a weight.
    Node { weight: nat, left: Box<Tree>, right: Box<Tree> },
}

/// The earlier of two symbols in the order of symbols.
pub open spec fn earlier(a: Symbol, b: Symbol) -> Symbol {
    if symbol_before(b, a) {
        b
    } else {
        a
    }
}

impl Tree {
    /// The weight at the root.
    pub open spec fn weight(self) -> nat {
        match self {
            Tree::Leaf { weight, .. } => weight,
            Tree::Node { weight, .. } => weight,
        }
    }

    /// The symbols at the leaves.
    pub open spec fn symbols(self) -> Set<Symbol>
        decreases self,
    {
        match self {
            Tree::Leaf { symbol, .. } => set![symbol],
            Tree::Node { left, right, .. } => left.symbols().union(right.symbols()),
        }
    }

    /// The earliest symbol of the tree in the order of symbols: what decides
    /// between trees of equal weight.
    pub open spec fn first(self) -> Symbol
        decreases self,
    {
        match self {
            Tree::Leaf { symbol, .. } => symbol,
            Tree::Node { left, right, .. } => earlier(left.first(), right.first()),
        }
    }

    /// The number of nodes, leaves included.
    pub open spec fn size(self) -> nat
        decreases self,
    {
        match self {
            Tree::Leaf { .. } => 1,
            Tree::Node { left, right, .. } => 1 + left.size() + right.size(),
        }
    }

    /// The tree's invariant: an inner node weighs what its two subtrees weigh
    /// together, and the two share no symbol.
    pub open spec fn consistent(self) -> bool
        decreases self,
    {
        match self {
            Tree::Leaf { .. } => true,
            Tree::Node { weight, left, right } => {
                &&& weight == left.weight() + right.weight()
                &&& left.symbols().disjoint(right.symbols())
                &&& left.consistent()
                &&& right.consistent()
            },
        }
    }
}

/// The tree that holds `left` and `right` under the sum of their weights.
pub open spec fn joined(left: Tree, right: Tree) -> Tree {
    Tree::Node { weight: left.weight() + right.weight(), left: Box::new(left), right: Box::new(right) }
}

/// A tree has finitely many symbols, and its first symbol is one of them.
pub proof fn lemma_first_is_symbol(tree: Tree)
    ensures
        tree.symbols().finite(),
        tree.symbols().contains(tree.first()),
        forall|s: Symbol| tree.symbols().contains(s) && s != tree.first() ==> symbol_before(tree.first(), s),
    decreases tree,
{
    match tree {
        Tree::Leaf { .. } => {},
        Tree::Node { left, right, .. } => {
            lemma_first_is_symbol(*left);
            lemma_first_is_symbol(*right);
            let a = left.first();
            let b = right.first();
            crate::symbols::lemma_symbol_before_total(a, b);
            assert forall|s: Symbol| tree.symbols().contains(s) && s != tree.first() implies symbol_before(
                tree.first(),
                s,
            ) by {
                if symbol_before(b, a) {
                    if left.symbols().contains(s) && s != a {
                        crate::symbols::lemma_symbol_before_transitive(b, a, s);
                    }
                } else {
                    if right.symbols().contains(s) && s != b && a != b {
                        crate::symbols::lemma_symbol_before_transitive(a, b, s);
                    }
                }
            }
        },
    }
}

/// A leaf: one symbol with its weight.
pub struct HuffmanLeafNode {
    element: String,
    weight: usize,
}

/// An inner node: two subtrees under a weight.
pub struct HuffmanInternalNode {
    weight: usize,
    left: Box<HuffmanBaseNode>,
    right: Box<HuffmanBaseNode>,
}

/// A node of either kind.
pub enum HuffmanBaseNode {
    Leaf(HuffmanLeafNode),
    Internal(HuffmanInternalNode),
}

/// A tree, held by its root.
pub struct HuffmanTree {
    root: HuffmanBaseNode,
}

/// The model of the tree under `node`.
pub closed spec fn model(node: HuffmanBaseNode) -> Tree
    decreases node,
{
    match node {
        HuffmanBaseNode::Leaf(leaf) => Tree::Leaf { symbol: leaf.element@, weight: leaf.weight as nat },
        HuffmanBaseNode::Internal(inner) => Tree::Node {
            weight: inner.weight as nat,
            left: Box::new(model(*inner.left)),
            right: Box::new(model(*inner.right)),
        },
    }
}

impl View for HuffmanLeafNode {
    type V = Tree;

    closed spec fn view(&self) -> Tree {
        Tree::Leaf { symbol: self.element@, weight: self.weight as nat }
    }
}

impl View for HuffmanInternalNode {
    type V = Tree;

    closed spec fn view(&self) -> Tree {
        Tree::Node {
            weight: self.weight as nat,
            left: Box::new(model(*self.left)),
            right: Box::new(model(*self.right)),
        }
    }
}

impl View for HuffmanBaseNode {
    type V = Tree;

    closed spec fn view(&self) -> Tree {
        model(*self)
    }
}

impl View for HuffmanTree {
    type V = Tree;

    closed spec fn view(&self) -> Tree {
        model(self.root)
    }
}

impl HuffmanLeafNode {
    /// The leaf that holds `element` with `weight`.
    pub fn new(element: String, weight: usize) -> (leaf: Self)
        ensures
            leaf@ == (Tree::Leaf { symbol: element@, weight: weight as nat }),
    {
        HuffmanLeafNode { element, weight }
    }

    /// The leaf's weight.
    pub fn weight(&self) -> (weight: usize)
        ensures
            weight == self@.weight(),
    {
        self.weight
    }

    /// The leaf's symbol.
    pub fn element(&self) -> (element: &String)
        ensures
            self@ is Leaf,
            element@ == self@->symbol,
    {
        &self.element
    }
}

impl HuffmanInternalNode {
    /// The node that holds `left` and `right` under `weight`. It is consistent
    /// where `weight` is the sum of the two weights and the rest is.
    pub fn new(weight: usize, left: Box<HuffmanBaseNode>, right: Box<HuffmanBaseNode>) -> (node: Self)
        ensures
            node@ == (Tree::Node {
                weight: weight as nat,
                left: Box::new(left@),
                right: Box::new(right@),
            }),
    {
        HuffmanInternalNode { weight, left, right }
    }

    /// The node's weight.
    pub fn weight(&self) -> (weight: usize)
        ensures
            weight == self@.weight(),
    {
        self.weight
    }

    /// The left subtree.
    pub fn left(&self) -> (left: &HuffmanBaseNode)
        ensures
            self@ is Node,
            left@ == *self@->left,
    {
        &*self.left
    }

    /// The right subtree.
    pub fn right(&self) -> (right: &HuffmanBaseNode)
        ensures
            self@ is Node,
            right@ == *self@->right,
    {
        &*self.right
    }
}

impl HuffmanBaseNode {
    /// The node's weight.
    pub fn weight(&self) -> (weight: usize)
        ensures
            weight == self@.weight(),
    {
        match self {
            HuffmanBaseNode::Leaf(leaf) => leaf.weight(),
            HuffmanBaseNode::Internal(inner) => inner.weight(),
        }
    }

    /// A node is seen as the leaf or the inner node that it holds.
    pub proof fn lemma_view(&self)
        ensures
            self matches HuffmanBaseNode::Leaf(leaf) ==> self@ == leaf@,
            self matches HuffmanBaseNode::Internal(inner) ==> self@ == inner@,
    {
    }
}

impl HuffmanTree {
    /// The tree with the root `node`.
    pub fn new(node: HuffmanBaseNode) -> (tree: Self)
        ensures
            tree@ == node@,
    {
        HuffmanTree { root: node }
    }

    /// The weight at the root.
    pub fn weight(&self) -> (weight: usize)
        ensures
            weight == self@.weight(),
    {
        match &self.root {
            HuffmanBaseNode::Leaf(leaf) => leaf.weight(),
            HuffmanBaseNode::Internal(internal) => internal.weight(),
        }
    }

    /// The root.
    pub fn root(&self) -> (root: &HuffmanBaseNode)
        ensures
            root@ == self@,
    {
        &self.root
    }

    /// Gives up the tree for its root.
    pub fn into_root(self) -> (root: HuffmanBaseNode)
        ensures
            root@ == self@,
    {
        self.root
    }
}

} // verus!
