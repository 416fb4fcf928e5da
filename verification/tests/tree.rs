use compression_tool::{
    build_binary_tree, build_prefix_table_recursive, count_symbols, find_freq,
    generate_prefix_table, CodeTable, CodecError, HuffmanBaseNode, HuffmanInternalNode,
    HuffmanLeafNode, HuffmanTree,
};

fn strings(items: &[&str]) -> Vec<String> {
    items.iter().map(|s| s.to_string()).collect()
}

fn leaf(node: &HuffmanBaseNode) -> (&str, usize) {
    match node {
        HuffmanBaseNode::Leaf(leaf) => (leaf.element().as_str(), leaf.weight()),
        HuffmanBaseNode::Internal(_) => panic!("a leaf was expected"),
    }
}

fn inner(node: &HuffmanBaseNode) -> &HuffmanInternalNode {
    match node {
        HuffmanBaseNode::Internal(inner) => inner,
        HuffmanBaseNode::Leaf(_) => panic!("an inner node was expected"),
    }
}

fn is_prefix(a: &[bool], b: &[bool]) -> bool {
    a.len() <= b.len() && &b[..a.len()] == a
}

#[test]
fn leaf_and_inner_node_keep_what_they_are_given() {
    let left = HuffmanLeafNode::new("x".to_string(), 3);
    assert_eq!(left.weight(), 3);
    assert_eq!(left.element(), "x");
    let right = HuffmanLeafNode::new("y".to_string(), 4);
    let node = HuffmanInternalNode::new(
        7,
        Box::new(HuffmanBaseNode::Leaf(left)),
        Box::new(HuffmanBaseNode::Leaf(right)),
    );
    assert_eq!(node.weight(), 7);
    assert_eq!(leaf(node.left()), ("x", 3));
    assert_eq!(leaf(node.right()), ("y", 4));
    let tree = HuffmanTree::new(HuffmanBaseNode::Internal(node));
    assert_eq!(tree.weight(), 7);
    assert_eq!(tree.root().weight(), 7);
    assert_eq!(tree.into_root().weight(), 7);
}

#[test]
fn counts_of_a_text() {
    let freq = find_freq("aaaabbc");
    assert_eq!(freq.len(), 3);
    assert!(!freq.is_empty());
    assert_eq!(freq.get("a"), 4);
    assert_eq!(freq.get("b"), 2);
    assert_eq!(freq.get("c"), 1);
    assert_eq!(freq.get("d"), 0);
    assert_eq!(freq.symbol_at(0), "a");
    assert_eq!(freq.count_at(0), 4);
    assert_eq!(freq.symbol_at(2), "c");
    assert_eq!(freq.count_at(2), 1);
    let same = count_symbols(&strings(&["a", "a", "a", "a", "b", "b", "c"]));
    assert_eq!(same.get("a"), 4);
    assert_eq!(same.get("b"), 2);
    assert_eq!(same.get("c"), 1);
}

#[test]
fn tree_of_three_symbols() {
    let tree = build_binary_tree(&find_freq("aaaabbc")).unwrap();
    assert_eq!(tree.weight(), 7);
    let root = inner(tree.root());
    assert_eq!(leaf(root.right()), ("a", 4));
    let low = inner(root.left());
    assert_eq!(low.weight(), 3);
    assert_eq!(leaf(low.left()), ("c", 1));
    assert_eq!(leaf(low.right()), ("b", 2));
    let table = generate_prefix_table(&tree);
    assert_eq!(table.len(), 3);
    assert_eq!(table.get("c"), Some(&vec![false, false]));
    assert_eq!(table.get("b"), Some(&vec![false, true]));
    assert_eq!(table.get("a"), Some(&vec![true]));
    assert_eq!(table.get("d"), None);
}

#[test]
fn equal_weights_are_ordered_by_first_symbol() {
    // d, c, b and a all weigh one: a and b are joined first, then c and d,
    // and of the two joined trees the one that holds a is the lesser.
    let tree = build_binary_tree(&count_symbols(&strings(&["d", "c", "b", "a"]))).unwrap();
    let root = inner(tree.root());
    assert_eq!(root.weight(), 4);
    let left = inner(root.left());
    let right = inner(root.right());
    assert_eq!(leaf(left.left()), ("a", 1));
    assert_eq!(leaf(left.right()), ("b", 1));
    assert_eq!(leaf(right.left()), ("c", 1));
    assert_eq!(leaf(right.right()), ("d", 1));
}

#[test]
fn tree_does_not_depend_on_the_order_of_the_table() {
    let orders: [&[&str]; 4] = [
        &["a", "b", "c", "d", "e", "a", "b", "c", "a", "a"],
        &["e", "d", "c", "b", "a", "a", "a", "a", "b", "c"],
        &["c", "a", "b", "a", "e", "a", "d", "c", "b", "a"],
        &["a", "a", "a", "a", "b", "b", "c", "c", "d", "e"],
    ];
    let first = generate_prefix_table(&build_binary_tree(&count_symbols(&strings(orders[0]))).unwrap());
    for order in orders.iter() {
        let table = generate_prefix_table(&build_binary_tree(&count_symbols(&strings(order))).unwrap());
        for symbol in ["a", "b", "c", "d", "e"] {
            assert_eq!(table.get(symbol), first.get(symbol));
        }
    }
}

#[test]
fn tree_of_many_symbols_has_their_weight_and_prefix_free_codes() {
    let mut symbols: Vec<String> = Vec::new();
    for i in 0..60u32 {
        for _ in 0..(1 + (i * 7) % 13) {
            symbols.push(format!("s{}", i));
        }
    }
    let freq = count_symbols(&symbols);
    assert_eq!(freq.len(), 60);
    let tree = build_binary_tree(&freq).unwrap();
    assert_eq!(tree.weight(), symbols.len());
    let table = generate_prefix_table(&tree);
    assert_eq!(table.len(), 60);
    for i in 0..table.len() {
        assert!(!table.code_at(i).is_empty());
        for j in 0..table.len() {
            if i != j {
                assert!(!is_prefix(table.code_at(i), table.code_at(j)));
            }
        }
    }
}

#[test]
fn skewed_counts_give_a_deep_tree() {
    let mut symbols: Vec<String> = Vec::new();
    let mut count = 1usize;
    for i in 0..12 {
        for _ in 0..count {
            symbols.push(format!("{}", (b'a' + i as u8) as char));
        }
        count *= 2;
    }
    let table = generate_prefix_table(&build_binary_tree(&count_symbols(&symbols)).unwrap());
    assert_eq!(table.get("l").unwrap().len(), 1);
    assert_eq!(table.get("a").unwrap().len(), 11);
    assert_eq!(table.get("b").unwrap().len(), 11);
}

#[test]
fn empty_table_gives_no_tree() {
    let freq = count_symbols(&Vec::new());
    assert!(matches!(build_binary_tree(&freq), Err(CodecError::EmptyInput)));
}

#[test]
fn walk_from_a_subtree_with_a_path() {
    let node = HuffmanBaseNode::Internal(HuffmanInternalNode::new(
        2,
        Box::new(HuffmanBaseNode::Leaf(HuffmanLeafNode::new("p".to_string(), 1))),
        Box::new(HuffmanBaseNode::Leaf(HuffmanLeafNode::new("q".to_string(), 1))),
    ));
    let mut table = CodeTable::new();
    assert!(table.insert("q".to_string(), vec![false]));
    build_prefix_table_recursive(&node, vec![true, true], &mut table);
    assert_eq!(table.len(), 2);
    assert_eq!(table.get("p"), Some(&vec![true, true, false]));
    assert_eq!(table.get("q"), Some(&vec![true, true, true]));
    let single = HuffmanBaseNode::Leaf(HuffmanLeafNode::new("z".to_string(), 9));
    let mut other = CodeTable::new();
    build_prefix_table_recursive(&single, Vec::new(), &mut other);
    assert_eq!(other.get("z"), Some(&vec![false]));
    build_prefix_table_recursive(&single, vec![true], &mut other);
    assert_eq!(other.get("z"), Some(&vec![true]));
}

#[test]
fn deep_tree_is_walked_without_recursion() {
    let depth = 2000usize;
    let mut node = HuffmanBaseNode::Leaf(HuffmanLeafNode::new("s0".to_string(), 1));
    for i in 1..=depth {
        let leaf = HuffmanBaseNode::Leaf(HuffmanLeafNode::new(format!("s{}", i), 1));
        let weight = node.weight() + 1;
        node = HuffmanBaseNode::Internal(HuffmanInternalNode::new(weight, Box::new(node), Box::new(leaf)));
    }
    let tree = HuffmanTree::new(node);
    assert_eq!(tree.weight(), depth + 1);
    let table = generate_prefix_table(&tree);
    assert_eq!(table.len(), depth + 1);
    assert_eq!(table.get("s0").unwrap().len(), depth);
    assert!(table.get("s0").unwrap().iter().all(|bit| !bit));
    assert_eq!(table.get(&format!("s{}", depth)), Some(&vec![true]));
    assert_eq!(table.get("s1").unwrap().len(), depth);
    assert_eq!(table.get("s1").unwrap().last(), Some(&true));
}
