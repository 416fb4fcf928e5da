//! From a tree to the code of each symbol: the path from the root to its leaf.

use crate::encode::{codes_nonempty, prefix_free};
use crate::symbols::Symbol;
use crate::table::{Code, CodeTable};
use crate::tree::{HuffmanBaseNode, HuffmanTree, Tree};
use vstd::prelude::*;

verus! {

/// The code of a leaf that is reached by `path`. A leaf that is itself the
/// root is reached by the empty path, and gets the one-bit code `0` in its
/// place: an empty code would leave nothing in the payload to decode.
pub open spec fn leaf_code(path: Code) -> Code {
    if path.len() == 0 {
        seq![false]
    } else {
        path
    }
}

/// The code of each symbol of `tree`, where `path` leads to the tree's root: a
/// clear bit is added on the way to a left subtree, a set bit on the way to a
/// right one. Of two leaves with one symbol the right one decides.
pub open spec fn paths(tree: Tree, path: Code) -> Map<Symbol, Code>
    decreases tree,
{
    match tree {
        Tree::Leaf { symbol, .. } => map![symbol => leaf_code(path)],
        Tree::Node { left, right, .. } => paths(*left, path.push(false)).union_prefer_right(
            paths(*right, path.push(true)),
        ),
    }
}

/// The code table of `tree`.
pub open spec fn code_map(tree: Tree) -> Map<Symbol, Code> {
    paths(tree, Seq::empty())
}

/// The codes below a root reached by `path` are those of the tree's symbols,
/// none is empty, and each begins with `path`.
pub proof fn lemma_paths_extend(tree: Tree, path: Code)
    ensures
        paths(tree, path).dom() == tree.symbols(),
        codes_nonempty(paths(tree, path)),
        forall|a: Symbol|
            paths(tree, path).dom().contains(a) ==> path.is_prefix_of(#[trigger] paths(tree, path)[a]),
    decreases tree,
{
    match tree {
        Tree::Leaf { symbol, .. } => {
            assert(paths(tree, path).dom() =~= tree.symbols());
        },
        Tree::Node { left, right, .. } => {
            lemma_paths_extend(*left, path.push(false));
            lemma_paths_extend(*right, path.push(true));
            assert(paths(tree, path).dom() =~= tree.symbols());
            assert forall|a: Symbol| paths(tree, path).dom().contains(a) implies path.is_prefix_of(
                #[trigger] paths(tree, path)[a],
            ) by {
                let code = paths(tree, path)[a];
                if paths(*right, path.push(true)).dom().contains(a) {
                    assert(path.push(true).is_prefix_of(code));
                    assert(code.subrange(0, path.len() as int) =~= path.push(true).subrange(
                        0,
                        path.len() as int,
                    ));
                } else {
                    assert(path.push(false).is_prefix_of(code));
                    assert(code.subrange(0, path.len() as int) =~= path.push(false).subrange(
                        0,
                        path.len() as int,
                    ));
                }
            }
        },
    }
}

/// A code that begins with `path` and a clear bit begins no code that begins
/// with `path` and a set bit, nor the other way round.
proof fn lemma_branches_part(path: Code, low: Code, high: Code)
    requires
        path.push(false).is_prefix_of(low),
        path.push(true).is_prefix_of(high),
    ensures
        !low.is_prefix_of(high),
        !high.is_prefix_of(low),
{
    let n = path.len() as int;
    assert(low[n] == path.push(false)[n]);
    assert(high[n] == path.push(true)[n]);
    if low.is_prefix_of(high) {
        assert(high.subrange(0, low.len() as int)[n] == low[n]);
    }
    if high.is_prefix_of(low) {
        assert(low.subrange(0, high.len() as int)[n] == high[n]);
    }
}

/// The codes of a tree are prefix-free: no code begins the code of another
/// symbol.
pub proof fn lemma_paths_prefix_free(tree: Tree, path: Code)
    ensures
        prefix_free(paths(tree, path)),
    decreases tree,
{
    match tree {
        Tree::Leaf { .. } => {},
        Tree::Node { left, right, .. } => {
            let low = paths(*left, path.push(false));
            let high = paths(*right, path.push(true));
            lemma_paths_prefix_free(*left, path.push(false));
            lemma_paths_prefix_free(*right, path.push(true));
            lemma_paths_extend(*left, path.push(false));
            lemma_paths_extend(*right, path.push(true));
            let all = paths(tree, path);
            assert forall|a: Symbol, b: Symbol|
                #![trigger all[a], all[b]]
                all.dom().contains(a) && all.dom().contains(b) && a != b implies !all[a].is_prefix_of(
                all[b],
            ) by {
                if high.dom().contains(a) && high.dom().contains(b) {
                    assert(!high[a].is_prefix_of(high[b]));
                } else if high.dom().contains(a) {
                    lemma_branches_part(path, low[b], high[a]);
                } else if high.dom().contains(b) {
                    lemma_branches_part(path, low[a], high[b]);
                } else {
                    assert(!low[a].is_prefix_of(low[b]));
                }
            }
        },
    }
}

/// Prefix-free: in the code table of a tree no code is empty, and no code
/// begins the code of another symbol.
pub proof fn lemma_code_map_prefix_free(tree: Tree)
    ensures
        prefix_free(code_map(tree)),
        codes_nonempty(code_map(tree)),
        code_map(tree).dom() == tree.symbols(),
{
    lemma_paths_extend(tree, Seq::empty());
    lemma_paths_prefix_free(tree, Seq::empty());
}

/// One piece of work of the walk: a subtree, and the path that leads to it.
struct Visit {
    tree: Tree,
    path: Code,
}

/// The table once the subtrees of `stack` have been walked, the last one
/// first.
spec fn walked(table: Map<Symbol, Code>, stack: Seq<Visit>) -> Map<Symbol, Code>
    decreases stack.len(),
{
    if stack.len() == 0 {
        table
    } else {
        walked(
            table.union_prefer_right(paths(stack.last().tree, stack.last().path)),
            stack.drop_last(),
        )
    }
}

/// The nodes that the walk has yet to visit.
spec fn work(stack: Seq<Visit>) -> nat
    decreases stack.len(),
{
    if stack.len() == 0 {
        0
    } else {
        work(stack.drop_last()) + stack.last().tree.size()
    }
}

/// What the work list of the walk stands for.
spec fn visits(stack: Seq<(&HuffmanBaseNode, Vec<bool>)>) -> Seq<Visit> {
    Seq::new(stack.len(), |i: int| Visit { tree: stack[i].0@, path: stack[i].1@ })
}

/// A copy of `bits` with `bit` behind it.
fn extended(bits: &Vec<bool>, bit: bool) -> (longer: Vec<bool>)
    ensures
        longer@ == bits@.push(bit),
{
    let mut longer = bits.clone();
    assert(longer@ =~= bits@);
    longer.push(bit);
    longer
}

/// Enters into `prefix_table` the code of each symbol below `node`, where
/// `code` is the path that leads to `node`; a symbol that the table holds
/// already gets its new code. The descent into the two subtrees is kept on a
/// work list and not on the call stack, so a deep tree cannot exhaust it.
pub fn build_prefix_table_recursive(
    node: &HuffmanBaseNode,
    code: Vec<bool>,
    prefix_table: &mut CodeTable,
)
    requires
        old(prefix_table).wf(),
    ensures
        final(prefix_table).wf(),
        final(prefix_table)@ == old(prefix_table)@.union_prefer_right(paths(node@, code@)),
{
    let ghost start = prefix_table@;
    let ghost goal = prefix_table@.union_prefer_right(paths(node@, code@));
    let mut stack: Vec<(&HuffmanBaseNode, Vec<bool>)> = Vec::new();
    stack.push((node, code));
    proof {
        let s = visits(stack@);
        assert(s.drop_last() =~= Seq::<Visit>::empty());
        assert(walked(start, s) == walked(goal, s.drop_last()));
    }
    while stack.len() > 0
        invariant
            prefix_table.wf(),
            walked(prefix_table@, visits(stack@)) == goal,
        decreases work(visits(stack@)),
    {
        let ghost before = visits(stack@);
        let ghost table_before = prefix_table@;
        let (current, path) = stack.pop().unwrap();
        let ghost rest = visits(stack@);
        proof {
            assert(rest =~= before.drop_last());
            assert(before.last() == Visit { tree: current@, path: path@ });
            current.lemma_view();
        }
        match current {
            HuffmanBaseNode::Leaf(leaf) => {
                let symbol = leaf.element().clone();
                let bits = if path.len() == 0 {
                    let mut zero: Vec<bool> = Vec::new();
                    zero.push(false);
                    zero
                } else {
                    path
                };
                assert(bits@ =~= leaf_code(before.last().path));
                prefix_table.insert(symbol, bits);
                assert(prefix_table@ =~= table_before.union_prefer_right(
                    paths(before.last().tree, before.last().path),
                ));
                assert(walked(table_before, before) == walked(prefix_table@, rest));
                assert(walked(prefix_table@, visits(stack@)) == goal);
            },
            HuffmanBaseNode::Internal(inner) => {
                let low = extended(&path, false);
                let high = extended(&path, true);
                let left = inner.left();
                let right = inner.right();
                stack.push((right, high));
                stack.push((left, low));
                proof {
                    let after = visits(stack@);
                    let mid = after.drop_last();
                    assert(mid.drop_last() =~= rest);
                    assert(after.last() == Visit { tree: left@, path: path@.push(false) });
                    assert(mid.last() == Visit { tree: right@, path: path@.push(true) });
                    let low_map = paths(left@, path@.push(false));
                    let high_map = paths(right@, path@.push(true));
                    assert(table_before.union_prefer_right(low_map).union_prefer_right(high_map)
                        =~= table_before.union_prefer_right(low_map.union_prefer_right(high_map)));
                    assert(walked(table_before, after) == walked(
                        table_before.union_prefer_right(low_map),
                        mid,
                    ));
                    assert(walked(table_before.union_prefer_right(low_map), mid) == walked(
                        table_before.union_prefer_right(low_map).union_prefer_right(high_map),
                        rest,
                    ));
                    assert(paths(current@, path@) == low_map.union_prefer_right(high_map));
                    assert(walked(table_before, before) == walked(
                        table_before.union_prefer_right(paths(current@, path@)),
                        rest,
                    ));
                    assert(work(after) == work(mid) + left@.size());
                    assert(work(mid) == work(rest) + right@.size());
                }
            },
        }
    }
    assert(visits(stack@) =~= Seq::<Visit>::empty());
}

/// The code table of `tree`: the code of each symbol is the path to its leaf,
/// and the only symbol of a tree of one leaf has the code `0`. No code is
/// empty, and none begins another.
pub fn generate_prefix_table(tree: &HuffmanTree) -> (table: CodeTable)
    ensures
        table.wf(),
        table@ == code_map(tree@),
        table@.dom() == tree@.symbols(),
        prefix_free(table@),
{
    let mut prefix_table = CodeTable::new();
    build_prefix_table_recursive(tree.root(), Vec::new(), &mut prefix_table);
    proof {
        assert(prefix_table@ =~= code_map(tree@));
        lemma_code_map_prefix_free(tree@);
    }
    prefix_table
}

} // verus!
