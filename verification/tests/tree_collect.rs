use parbench::method::Method;
use parbench::tree_collect::{
    build_tree, collect_orx, collect_rayon, collect_seq, execute, expected_output, make_input, Node,
    ROOT_SEED,
};

/// A cheap stand-in for the CPU-bound mixing function.
fn add_mix(weight: u64, x: u64) -> u64 {
    weight.wrapping_mul(31).wrapping_add(x)
}

/// A stand-in mixing function that spreads values over the modulus.
fn spread_mix(weight: u64, x: u64) -> u64 {
    (x ^ weight).wrapping_mul(0x9E37_79B9_7F4A_7C15) >> 17
}

fn count_nodes(node: &Node) -> usize {
    1 + node.children.iter().map(count_nodes).sum::<usize>()
}

fn preorder<'a>(node: &'a Node, out: &mut Vec<&'a Node>) {
    out.push(node);
    for child in &node.children {
        preorder(child, out);
    }
}

#[test]
fn trees_have_the_requested_shape_and_seeds() {
    let root = build_tree(2, 3, 40, &add_mix);
    assert_eq!(count_nodes(&root), 1 + 3 + 9);
    assert_eq!(root.value, add_mix(2, 40));
    for (i, child) in root.children.iter().enumerate() {
        assert_eq!(child.value, add_mix(2, 40 ^ i as u64));
        assert_eq!(child.children.len(), 3);
        for (j, grandchild) in child.children.iter().enumerate() {
            assert_eq!(grandchild.value, add_mix(2, (40 ^ i as u64) ^ j as u64));
            assert!(grandchild.children.is_empty());
        }
    }
    let leaf = build_tree(0, 5, 1, &add_mix);
    assert!(leaf.children.is_empty());
    let input = make_input(1, 2, &add_mix);
    assert_eq!(input.value, add_mix(2, ROOT_SEED));
}

#[test]
fn threshold_test() {
    let node = Node { value: 10_005, children: vec![] };
    // 31 * 1 + 10_005 = 10_036, modulo 10_000 is 36
    assert!(parbench::tree_collect::matches(&node, 37, 1, &add_mix));
    assert!(!parbench::tree_collect::matches(&node, 36, 1, &add_mix));
}

#[test]
fn sequential_collection_is_in_preorder() {
    let root = build_tree(3, 3, ROOT_SEED, &add_mix);
    let mut all = Vec::new();
    preorder(&root, &mut all);
    let expected: Vec<&Node> = all.into_iter().filter(|n| parbench::tree_collect::matches(n, 5000, 7, &add_mix)).collect();
    let mut nodes = Vec::new();
    collect_seq(&root, 5000, 7, &add_mix, &mut nodes);
    assert_eq!(nodes.len(), expected.len());
    assert!(nodes.iter().zip(expected.iter()).all(|(a, b)| std::ptr::eq(*a, *b)));
    assert_eq!(expected_output(&root, 5000, 7, &add_mix), expected.len());
    // everything passes a threshold above the modulus, nothing passes zero
    assert_eq!(expected_output(&root, 10_000, 7, &add_mix), count_nodes(&root));
    assert_eq!(expected_output(&root, 0, 7, &add_mix), 0);
}

#[test]
fn rayon_collection_is_in_preorder_too() {
    let root = build_tree(4, 4, ROOT_SEED, &spread_mix);
    let mut expected = Vec::new();
    collect_seq(&root, 3000, 3, &spread_mix, &mut expected);
    let nodes = collect_rayon(&root, 3000, 3, &spread_mix);
    assert_eq!(nodes.len(), expected.len());
    assert!(nodes.iter().zip(expected.iter()).all(|(a, b)| std::ptr::eq(*a, *b)));
}

#[test]
fn orx_collection_has_the_same_nodes() {
    let root = build_tree(4, 4, ROOT_SEED, &spread_mix);
    let mut expected = Vec::new();
    collect_seq(&root, 3000, 3, &spread_mix, &mut expected);
    let nodes = collect_orx(&root, 3000, 3, &spread_mix);
    assert_eq!(nodes.len(), expected.len());
    for node in &nodes {
        assert_eq!(nodes.iter().filter(|n| std::ptr::eq(**n, *node)).count(), 1);
        assert!(expected.iter().any(|n| std::ptr::eq(*n, *node)));
    }
}

#[test]
fn every_method_counts_alike() {
    let root = build_tree(5, 3, ROOT_SEED, &spread_mix);
    let expected = expected_output(&root, 5000, 11, &spread_mix);
    assert!(expected > 0 && expected < count_nodes(&root));
    for method in Method::get() {
        assert_eq!(execute(method, &root, 5000, 11, &spread_mix), expected);
    }
}

#[test]
fn counts_grow_with_the_threshold() {
    let root = build_tree(4, 3, 7, &add_mix);
    let mut last = 0;
    for threshold in [0, 100, 2500, 5000, 7500, 9999, 10_000] {
        let count = expected_output(&root, threshold, 5, &add_mix);
        assert!(count >= last);
        last = count;
    }
    assert_eq!(last, count_nodes(&root));
}
