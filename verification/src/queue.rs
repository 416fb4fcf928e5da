//! The priority queue of the tree builder: a binary heap of trees, the least
//! tree at its root.

use crate::forest::{
    lemma_not_before_transitive, lemma_tree_before_asymmetric, lemma_tree_before_irreflexive,
    lemma_tree_before_transitive, tree_before,
};
use crate::symbols::symbol_precedes;
use crate::tree::{HuffmanTree, Tree};
use vstd::multiset::Multiset;
use vstd::prelude::*;

verus! {

/// A tree of the queue with its first symbol, kept beside it so that two
/// trees are compared without a walk through either.
struct Entry {
    tree: HuffmanTree,
    first: String,
}

/// The place above place `j` of the heap.
pub open spec fn parent(j: int) -> int {
    (j - 1) / 2
}

/// The trees that the entries hold.
spec fn models(entries: Seq<Entry>) -> Seq<Tree> {
    Seq::new(entries.len(), |i: int| entries[i].tree@)
}

/// Each entry holds the first symbol of its tree.
spec fn firsts_kept(entries: Seq<Entry>) -> bool {
    forall|i: int| 0 <= i < entries.len() ==> (#[trigger] entries[i]).first@ == entries[i].tree@.first()
}

/// The tree at place `i` is not later than the tree at place `j`.
spec fn no_later(trees: Seq<Tree>, i: int, j: int) -> bool {
    !tree_before(trees[j], trees[i])
}

/// The tree at place `j` is in order with the tree above it.
spec fn in_order(trees: Seq<Tree>, j: int) -> bool {
    no_later(trees, parent(j), j)
}

/// The heap's order: no tree comes before the tree above it.
spec fn heap_ordered(trees: Seq<Tree>) -> bool {
    forall|j: int| 1 <= j < trees.len() ==> #[trigger] in_order(trees, j)
}

/// The heap's order but for the tree at `hole`, which may come before the
/// tree above it; the trees below `hole` are in order with the tree above it.
spec fn ordered_but_above(trees: Seq<Tree>, hole: int) -> bool {
    &&& forall|j: int| 1 <= j < trees.len() && j != hole ==> #[trigger] in_order(trees, j)
    &&& hole > 0 ==> forall|j: int|
        1 <= j < trees.len() && parent(j) == hole ==> #[trigger] no_later(trees, parent(hole), j)
}

/// The heap's order but for the tree at `hole`, which may come behind the
/// trees below it; these are in order with the tree above `hole`.
spec fn ordered_but_below(trees: Seq<Tree>, hole: int) -> bool {
    &&& forall|j: int| 1 <= j < trees.len() && parent(j) != hole ==> #[trigger] in_order(trees, j)
    &&& hole > 0 ==> forall|j: int|
        1 <= j < trees.len() && parent(j) == hole ==> #[trigger] no_later(trees, parent(hole), j)
}

/// The weights of `trees` together.
pub open spec fn total_weight(trees: Seq<Tree>) -> nat
    decreases trees.len(),
{
    if trees.len() == 0 {
        0
    } else {
        total_weight(trees.drop_last()) + trees.last().weight()
    }
}

/// Another tree at place `i` changes the total by the difference of the two.
proof fn lemma_weight_update(trees: Seq<Tree>, i: int, t: Tree)
    requires
        0 <= i < trees.len(),
    ensures
        total_weight(trees.update(i, t)) + trees[i].weight() == total_weight(trees) + t.weight(),
    decreases trees.len(),
{
    let next = trees.update(i, t);
    if i == trees.len() - 1 {
        assert(next.drop_last() =~= trees.drop_last());
    } else {
        assert(next.drop_last() =~= trees.drop_last().update(i, t));
        lemma_weight_update(trees.drop_last(), i, t);
    }
}

/// The trees at `i` and `j` in each other's place.
spec fn swapped(trees: Seq<Tree>, i: int, j: int) -> Seq<Tree> {
    trees.update(i, trees[j]).update(j, trees[i])
}

/// Two trees that change places leave the trees and their weight as they were.
proof fn lemma_swapped(trees: Seq<Tree>, i: int, j: int)
    requires
        0 <= i < trees.len(),
        0 <= j < trees.len(),
    ensures
        swapped(trees, i, j).to_multiset() == trees.to_multiset(),
        total_weight(swapped(trees, i, j)) == total_weight(trees),
{
    broadcast use vstd::multiset::group_multiset_axioms;

    let once = trees.update(i, trees[j]);
    vstd::seq_lib::to_multiset_update(trees, i, trees[j]);
    vstd::seq_lib::to_multiset_update(once, j, trees[i]);
    vstd::seq_lib::to_multiset_contains(trees, trees[i]);
    vstd::seq_lib::to_multiset_contains(trees, trees[j]);
    assert(trees.contains(trees[i]) && trees.contains(trees[j]));
    assert(swapped(trees, i, j).to_multiset() =~= trees.to_multiset());
    lemma_weight_update(trees, i, trees[j]);
    lemma_weight_update(once, j, trees[i]);
}

/// In a heap the tree at the root is not later than any other.
proof fn lemma_root_least(trees: Seq<Tree>, j: int)
    requires
        heap_ordered(trees),
        0 <= j < trees.len(),
    ensures
        !tree_before(trees[j], trees[0]),
    decreases j,
{
    if j == 0 {
        lemma_tree_before_irreflexive(trees[0]);
    } else {
        assert(in_order(trees, j));
        lemma_root_least(trees, parent(j));
        lemma_not_before_transitive(trees[0], trees[parent(j)], trees[j]);
    }
}

/// `slice::swap` on a vector: the items at `i` and `j` change places, and the
/// others stay.
#[verifier::external_body]
fn swap_items<T>(items: &mut Vec<T>, i: usize, j: usize)
    requires
        i < old(items)@.len(),
        j < old(items)@.len(),
    ensures
        final(items)@ == old(items)@.update(i as int, old(items)@[j as int]).update(
            j as int,
            old(items)@[i as int],
        ),
{
    items.swap(i, j);
}

/// Whether the tree of `a` comes before the tree of `b`.
fn entry_before(a: &Entry, b: &Entry) -> (before: bool)
    requires
        a.first@ == a.tree@.first(),
        b.first@ == b.tree@.first(),
    ensures
        before == tree_before(a.tree@, b.tree@),
{
    let wa = a.tree.weight();
    let wb = b.tree.weight();
    wa < wb || (wa == wb && symbol_precedes(a.first.as_str(), b.first.as_str()))
}

/// A queue of trees that hands out the least tree first.
pub struct TreeQueue {
    entries: Vec<Entry>,
}

impl TreeQueue {
    /// The trees in the queue, as the heap holds them.
    pub closed spec fn trees(&self) -> Seq<Tree> {
        models(self.entries@)
    }

    /// The trees in the queue.
    pub open spec fn forest(&self) -> Multiset<Tree> {
        self.trees().to_multiset()
    }

    /// The weights of the trees in the queue together.
    pub open spec fn weight(&self) -> nat {
        total_weight(self.trees())
    }

    /// The queue's invariant: the heap's order.
    pub closed spec fn wf(&self) -> bool {
        &&& firsts_kept(self.entries@)
        &&& heap_ordered(self.trees())
    }

    /// An empty queue.
    pub fn new() -> (queue: TreeQueue)
        ensures
            queue.wf(),
            queue.trees() == Seq::<Tree>::empty(),
    {
        let queue = TreeQueue { entries: Vec::new() };
        assert(queue.trees() =~= Seq::<Tree>::empty());
        queue
    }

    /// The number of trees in the queue.
    pub fn len(&self) -> (n: usize)
        ensures
            n == self.trees().len(),
            n == self.forest().len(),
    {
        proof {
            vstd::seq_lib::to_multiset_len(self.trees());
        }
        self.entries.len()
    }

    /// Puts `tree` into the queue; `first` is the tree's first symbol.
    pub fn push(&mut self, tree: HuffmanTree, first: String)
        requires
            old(self).wf(),
            first@ == tree@.first(),
        ensures
            final(self).wf(),
            final(self).forest() == old(self).forest().insert(tree@),
            final(self).weight() == old(self).weight() + tree@.weight(),
            final(self).trees().len() == old(self).trees().len() + 1,
    {
        let ghost before = self.trees();
        self.entries.push(Entry { tree, first });
        let mut hole: usize = self.entries.len() - 1;
        proof {
            let now = self.trees();
            assert(now =~= before.push(tree@));
            assert(now.drop_last() =~= before);
            vstd::seq_lib::to_multiset_build(before, tree@);
            assert forall|j: int| 1 <= j < now.len() && j != hole implies #[trigger] in_order(now, j) by {
                assert(in_order(before, j));
            }
        }
        while hole > 0 && entry_before(&self.entries[hole], &self.entries[(hole - 1) / 2])
            invariant
                hole < self.entries@.len(),
                self.entries@.len() == before.len() + 1,
                firsts_kept(self.entries@),
                self.trees().to_multiset() == before.to_multiset().insert(tree@),
                total_weight(self.trees()) == total_weight(before) + tree@.weight(),
                ordered_but_above(self.trees(), hole as int),
            decreases hole,
        {
            let above: usize = (hole - 1) / 2;
            let ghost s = self.trees();
            swap_items(&mut self.entries, hole, above);
            proof {
                let t = self.trees();
                assert(t =~= swapped(s, hole as int, above as int));
                lemma_swapped(s, hole as int, above as int);
                assert(tree_before(s[hole as int], s[above as int]));
                assert forall|j: int| 1 <= j < t.len() && j != above implies #[trigger] in_order(t, j) by {
                    if j == hole {
                        lemma_tree_before_asymmetric(s[hole as int], s[above as int]);
                    } else if parent(j) == hole {
                        assert(no_later(s, parent(hole as int), j));
                    } else if parent(j) == above {
                        assert(in_order(s, j));
                        if tree_before(s[j], s[hole as int]) {
                            lemma_tree_before_transitive(s[j], s[hole as int], s[above as int]);
                        }
                    } else {
                        assert(in_order(s, j));
                    }
                }
                if above > 0 {
                    assert forall|j: int| 1 <= j < t.len() && parent(j) == above implies #[trigger] no_later(
                        t,
                        parent(above as int),
                        j,
                    ) by {
                        assert(in_order(s, above as int));
                        if j != hole {
                            assert(in_order(s, j));
                            lemma_not_before_transitive(
                                s[parent(above as int)],
                                s[above as int],
                                s[j],
                            );
                        }
                    }
                }
            }
            hole = above;
        }
        assert(heap_ordered(self.trees()));
    }

    /// Takes the least tree out of the queue, with its first symbol: the tree
    /// that none of the queue comes before. An empty queue gives nothing.
    pub fn pop(&mut self) -> (least: Option<(HuffmanTree, String)>)
        requires
            old(self).wf(),
        ensures
            final(self).wf(),
            match least {
                Some((tree, first)) => {
                    &&& first@ == tree@.first()
                    &&& old(self).forest().contains(tree@)
                    &&& forall|u: Tree| old(self).forest().contains(u) ==> !tree_before(u, tree@)
                    &&& final(self).forest() == old(self).forest().remove(tree@)
                    &&& final(self).weight() + tree@.weight() == old(self).weight()
                    &&& final(self).trees().len() + 1 == old(self).trees().len()
                },
                None => old(self).trees().len() == 0 && final(self).trees() == old(self).trees(),
            },
    {
        let n = self.entries.len();
        if n == 0 {
            return None;
        }
        let ghost before = self.trees();
        proof {
            assert forall|u: Tree| before.to_multiset().contains(u) implies !tree_before(u, before[0]) by {
                vstd::seq_lib::to_multiset_contains(before, u);
                let j = choose|j: int| 0 <= j < before.len() && before[j] == u;
                lemma_root_least(before, j);
            }
            vstd::seq_lib::to_multiset_contains(before, before[0]);
            assert(before.contains(before[0]));
        }
        swap_items(&mut self.entries, 0, n - 1);
        let ghost turned = self.trees();
        let top = self.entries.pop().unwrap();
        let len = self.entries.len();
        proof {
            assert(turned =~= swapped(before, 0, n - 1));
            lemma_swapped(before, 0, n - 1);
            let now = self.trees();
            assert(now =~= turned.remove(n - 1));
            assert(now =~= turned.drop_last());
            vstd::seq_lib::to_multiset_remove(turned, n - 1);
            assert(turned[n - 1] == before[0]);
            assert forall|j: int| 1 <= j < now.len() && parent(j) != 0 implies #[trigger] in_order(now, j) by {
                assert(in_order(before, j));
            }
        }
        let mut hole: usize = 0;
        let mut settled = false;
        while !settled && hole < len / 2
            invariant
                len == self.entries@.len(),
                len + 1 == before.len(),
                hole <= len,
                firsts_kept(self.entries@),
                self.trees().to_multiset() == before.to_multiset().remove(before[0]),
                total_weight(self.trees()) + before[0].weight() == total_weight(before),
                ordered_but_below(self.trees(), hole as int),
                settled ==> heap_ordered(self.trees()),
            decreases len - hole, if settled { 0int } else { 1int },
        {
            let left: usize = 2 * hole + 1;
            let right: usize = left + 1;
            let child: usize = if right < len && entry_before(&self.entries[right], &self.entries[left]) {
                right
            } else {
                left
            };
            let ghost s = self.trees();
            if entry_before(&self.entries[child], &self.entries[hole]) {
                swap_items(&mut self.entries, hole, child);
                proof {
                    let t = self.trees();
                    assert(t =~= swapped(s, hole as int, child as int));
                    lemma_swapped(s, hole as int, child as int);
                    assert forall|j: int| 1 <= j < t.len() && parent(j) != child implies #[trigger] in_order(
                        t,
                        j,
                    ) by {
                        if j == child {
                            lemma_tree_before_asymmetric(s[child as int], s[hole as int]);
                        } else if parent(j) == hole {
                            if child == left {
                                assert(j == right);
                            } else {
                                assert(j == left);
                                lemma_tree_before_asymmetric(s[right as int], s[left as int]);
                            }
                        } else if j == hole {
                            assert(no_later(s, parent(hole as int), child as int));
                        } else {
                            assert(in_order(s, j));
                        }
                    }
                    assert forall|j: int| 1 <= j < t.len() && parent(j) == child implies #[trigger] no_later(
                        t,
                        parent(child as int),
                        j,
                    ) by {
                        assert(in_order(s, j));
                    }
                }
                hole = child;
            } else {
                settled = true;
                proof {
                    assert forall|j: int| 1 <= j < s.len() implies #[trigger] in_order(s, j) by {
                        if parent(j) == hole && j != child {
                            if child == left {
                                assert(j == right);
                                lemma_not_before_transitive(
                                    s[hole as int],
                                    s[left as int],
                                    s[right as int],
                                );
                            } else {
                                assert(j == left);
                                lemma_tree_before_asymmetric(s[right as int], s[left as int]);
                                lemma_not_before_transitive(
                                    s[hole as int],
                                    s[right as int],
                                    s[left as int],
                                );
                            }
                        }
                    }
                }
            }
        }
        proof {
            let t = self.trees();
            if !settled {
                assert forall|j: int| 1 <= j < t.len() implies #[trigger] in_order(t, j) by {
                    assert(parent(j) != hole);
                }
            }
        }
        Some((top.tree, top.first))
    }
}

} // verus!
