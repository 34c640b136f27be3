use merkle_tree::merkle_tree::MerkleError;
use merkle_tree::merkle_tree::MerkleTree;

#[test]
fn simple_tree_1() {
    // Create three nodes.
    // node_0 will be the parent to node_1, node_2.
    //      node_0
    //      /    \
    //     /      \
    //  node_1   node_2

    let mut merkle_tree: MerkleTree<&str> = MerkleTree::new_empty();

    let node_id_1 = merkle_tree.add_leaf("hello");
    let node_id_2 = merkle_tree.add_leaf("world");
    assert_eq!(merkle_tree.nodes.len(), 3);

    // Node Id 1 should have no left sibling since it is the far left most
    // leaf.
    assert!(merkle_tree.nodes[node_id_1].sibling_left == None);
    assert!(merkle_tree.nodes[node_id_1].sibling_right != None);

    // Check the right sibling of node_1.
    assert_eq!(merkle_tree.nodes[node_id_1].sibling_right.unwrap(), 2);

    // Get the right sibling of node_id_1, and assert its value.
    let sibling_right = merkle_tree.get_sibling_right(node_id_1);
    let val = sibling_right.unwrap().value.unwrap();
    assert_eq!(val, "world");

    // Assert the left and right sibling for node_id_2.
    // Right sibling should be None.
    match merkle_tree.get_sibling_right(node_id_2) {
        Some(_a) => assert!(false),
        None => assert!(true),
    }

    // Left sibling should have the val "hello".
    let sibling_left = merkle_tree.get_sibling_left(node_id_2);
    let val = sibling_left.unwrap().value.unwrap();
    assert_eq!(val, "hello");

    // Build the parent nodes.
    merkle_tree.build_parents();

    // Check that both nodes are pointing to the root as their parent.
    assert!(merkle_tree.nodes[1].parent != None);
    assert!(merkle_tree.nodes[1].parent.unwrap() == 0);
    assert!(merkle_tree.nodes[0].child_left.unwrap() == 1);
    assert!(merkle_tree.nodes[0].child_right.unwrap() == 2);

    let child_left = merkle_tree.get_child_left(0);
    assert!(child_left.unwrap().value.unwrap() == "hello");

    let child_right = merkle_tree.get_child_right(0);
    assert!(child_right.unwrap().value.unwrap() == "world");
}

#[test]
fn four_leaf_tree_1() {
    // Create four leaf nodes.
    //              node_0
    //           /          \
    //          /            \
    //      node_5          node_6
    //      /    \         /     \
    //     /      \       /       \
    //  node_1   node_2  node_3  node_4

    let input = vec![1, 2, 3, 4];
    let merkle_tree = MerkleTree::new(input).unwrap();

    // Assert the tree size.
    assert_eq!(merkle_tree.nodes.len(), 7);

    // Assert the leaf siblings.
    assert_eq!(merkle_tree.nodes[1].sibling_left, None);
    assert_eq!(merkle_tree.nodes[1].sibling_right.unwrap(), 2);
    assert_eq!(merkle_tree.nodes[2].sibling_left.unwrap(), 1);
    assert_eq!(merkle_tree.nodes[2].sibling_right.unwrap(), 3);
    assert_eq!(merkle_tree.nodes[3].sibling_left.unwrap(), 2);
    assert_eq!(merkle_tree.nodes[3].sibling_right.unwrap(), 4);
    assert_eq!(merkle_tree.nodes[4].sibling_right, None);
    assert_eq!(merkle_tree.nodes[4].sibling_left.unwrap(), 3);

    // Assert the parents.
    assert_eq!(merkle_tree.nodes[1].parent.unwrap(), 5);
    assert_eq!(merkle_tree.nodes[2].parent.unwrap(), 5);
    assert_eq!(merkle_tree.nodes[3].parent.unwrap(), 6);
    assert_eq!(merkle_tree.nodes[4].parent.unwrap(), 6);

    assert_eq!(merkle_tree.nodes[5].sibling_left, None);
    assert_eq!(merkle_tree.nodes[5].sibling_right.unwrap(), 6);
    assert_eq!(merkle_tree.nodes[5].child_left.unwrap(), 1);
    assert_eq!(merkle_tree.nodes[5].child_right.unwrap(), 2);
    assert_eq!(merkle_tree.nodes[5].parent.unwrap(), 0);

    assert_eq!(merkle_tree.nodes[6].sibling_left.unwrap(), 5);
    assert_eq!(merkle_tree.nodes[6].sibling_right, None);
    assert_eq!(merkle_tree.nodes[6].child_left.unwrap(), 3);
    assert_eq!(merkle_tree.nodes[6].child_right.unwrap(), 4);
    assert_eq!(merkle_tree.nodes[6].parent.unwrap(), 0);

    assert_eq!(merkle_tree.nodes[0].child_left.unwrap(), 5);
    assert_eq!(merkle_tree.nodes[0].child_right.unwrap(), 6);
}

#[test]
fn eight_leaf_tree_1() {
    // Create eight leaf nodes.
    //                               node_0
    //                    /                        \
    //                   /                          \
    //                  /                            \
    //                 /                              \
    //              node_13                         node_14
    //           /          \                  /             \
    //          /            \                /               \
    //      node_9          node_10         node_11         node_12
    //      /    \         /     \         /      \       /      \
    //     /      \       /       \       /        \     /        \
    //  node_1   node_2  node_3  node_4  node_5  node_6 node_7  node_8

    let input = vec![1, 2, 3, 4, 5, 6, 7, 8];
    let merkle_tree = MerkleTree::new(input).unwrap();

    // Assert the leaf siblings.
    assert_eq!(merkle_tree.nodes[1].sibling_left, None);
    assert_eq!(merkle_tree.nodes[1].sibling_right.unwrap(), 2);
    assert_eq!(merkle_tree.nodes[2].sibling_left.unwrap(), 1);
    assert_eq!(merkle_tree.nodes[2].sibling_right.unwrap(), 3);
    assert_eq!(merkle_tree.nodes[3].sibling_left.unwrap(), 2);
    assert_eq!(merkle_tree.nodes[3].sibling_right.unwrap(), 4);
    assert_eq!(merkle_tree.nodes[4].sibling_right.unwrap(), 5);
    assert_eq!(merkle_tree.nodes[5].sibling_left.unwrap(), 4);
    assert_eq!(merkle_tree.nodes[5].sibling_right.unwrap(), 6);
    assert_eq!(merkle_tree.nodes[6].sibling_left.unwrap(), 5);
    assert_eq!(merkle_tree.nodes[6].sibling_right.unwrap(), 7);
    assert_eq!(merkle_tree.nodes[7].sibling_left.unwrap(), 6);
    assert_eq!(merkle_tree.nodes[7].sibling_right.unwrap(), 8);
    assert_eq!(merkle_tree.nodes[8].sibling_left.unwrap(), 7);
    assert_eq!(merkle_tree.nodes[8].sibling_right, None);

    // Assert the parents.
    assert_eq!(merkle_tree.nodes[1].parent.unwrap(), 9);
    assert_eq!(merkle_tree.nodes[2].parent.unwrap(), 9);
    assert_eq!(merkle_tree.nodes[3].parent.unwrap(), 10);
    assert_eq!(merkle_tree.nodes[4].parent.unwrap(), 10);
    assert_eq!(merkle_tree.nodes[5].parent.unwrap(), 11);
    assert_eq!(merkle_tree.nodes[6].parent.unwrap(), 11);
    assert_eq!(merkle_tree.nodes[7].parent.unwrap(), 12);
    assert_eq!(merkle_tree.nodes[8].parent.unwrap(), 12);

    assert_eq!(merkle_tree.nodes[9].sibling_left, None);
    assert_eq!(merkle_tree.nodes[9].parent.unwrap(), 13);

    // The tree has the full reserved size, the root is built from the
    // final pairing of the grandparents, and the grandparents pair up.
    assert_eq!(merkle_tree.nodes.len(), 15);
    assert_eq!(merkle_tree.nodes[9].child_left.unwrap(), 1);
    assert_eq!(merkle_tree.nodes[9].child_right.unwrap(), 2);
    assert_eq!(merkle_tree.nodes[10].parent.unwrap(), 13);
    assert_eq!(merkle_tree.nodes[11].parent.unwrap(), 14);
    assert_eq!(merkle_tree.nodes[12].parent.unwrap(), 14);
    assert_eq!(merkle_tree.nodes[13].parent.unwrap(), 0);
    assert_eq!(merkle_tree.nodes[14].parent.unwrap(), 0);
    assert_eq!(merkle_tree.nodes[13].child_left.unwrap(), 9);
    assert_eq!(merkle_tree.nodes[13].child_right.unwrap(), 10);
    assert_eq!(merkle_tree.nodes[14].child_left.unwrap(), 11);
    assert_eq!(merkle_tree.nodes[14].child_right.unwrap(), 12);
    assert_eq!(merkle_tree.nodes[0].child_left.unwrap(), 13);
    assert_eq!(merkle_tree.nodes[0].child_right.unwrap(), 14);
    assert_eq!(merkle_tree.nodes[0].parent, None);
}

#[test]
fn single_leaf_tree_is_root() {
    let tree = MerkleTree::new(vec![42u8]).unwrap();

    // One node that is leaf and root at the same time.
    assert_eq!(tree.nodes.len(), 1);
    assert_eq!(tree.node_count(), 1);
    assert_eq!(tree.leaf_count(), 1);
    assert_eq!(tree.nodes[0].parent, None);
    assert_eq!(tree.nodes[0].child_left, None);
    assert_eq!(tree.nodes[0].child_right, None);
    assert_eq!(tree.nodes[0].sibling_left, None);
    assert_eq!(tree.nodes[0].sibling_right, None);
    assert_eq!(tree.nodes[0].value, Some(42u8));
}

#[test]
fn three_leaves_rejected() {
    // Not a power of two: rejected before any node is allocated.
    let result = MerkleTree::new(vec![1, 2, 3]);
    match result {
        Ok(_) => panic!("a three-leaf input must be rejected"),
        Err(e) => assert_eq!(e, MerkleError::InvalidInputSize),
    }
}

#[test]
fn empty_input_rejected() {
    let result = MerkleTree::<u32>::new(vec![]);
    match result {
        Ok(_) => panic!("an empty input must be rejected"),
        Err(e) => assert_eq!(e, MerkleError::InvalidInputSize),
    }
}

#[test]
fn six_leaves_rejected() {
    let result = MerkleTree::new(vec![1, 2, 3, 4, 5, 6]);
    match result {
        Ok(_) => panic!("a six-leaf input must be rejected"),
        Err(e) => assert_eq!(e, MerkleError::InvalidInputSize),
    }
}

#[test]
fn leaf_order_preserved() {
    let input = vec!["a", "b", "c", "d", "e", "f", "g", "h"];
    let tree = MerkleTree::new(input.clone()).unwrap();

    // The leaf at input position i sits at slot i + 1.
    for (i, v) in input.iter().enumerate() {
        assert_eq!(tree.nodes[i + 1].value, Some(*v));
    }

    // Walking the sibling chain from slot 1 reproduces the input order.
    let mut id = 1;
    let mut seen = vec![tree.nodes[1].value.unwrap()];
    while let Some(next) = tree.nodes[id].sibling_right {
        seen.push(tree.nodes[next].value.unwrap());
        id = next;
    }
    assert_eq!(seen, input);
}

#[test]
fn sibling_links_are_symmetric() {
    let tree = MerkleTree::new(vec![1, 2, 3, 4, 5, 6, 7, 8]).unwrap();

    for a in 0..tree.nodes.len() {
        if let Some(b) = tree.nodes[a].sibling_right {
            assert_eq!(tree.nodes[b].sibling_left, Some(a));
        }
        if let Some(b) = tree.nodes[a].sibling_left {
            assert_eq!(tree.nodes[b].sibling_right, Some(a));
        }
    }
}

#[test]
fn every_non_root_has_one_parent() {
    let tree = MerkleTree::new(vec![1, 2, 3, 4, 5, 6, 7, 8]).unwrap();

    assert_eq!(tree.nodes[0].parent, None);
    for j in 1..tree.nodes.len() {
        let p = tree.nodes[j].parent.expect("non-root node without parent");
        assert!(p < tree.nodes.len());
        // j is one of its parent's two children.
        let cl = tree.nodes[p].child_left.unwrap();
        let cr = tree.nodes[p].child_right.unwrap();
        assert!(cl == j || cr == j);
    }
}

#[test]
fn new_empty_has_placeholder_root() {
    let tree: MerkleTree<u64> = MerkleTree::new_empty();
    assert_eq!(tree.node_count(), 1);
    assert_eq!(tree.nodes[0].value, None);
    assert_eq!(tree.nodes[0].parent, None);
}

#[test]
fn parent_rows_fully_chained() {
    let tree = MerkleTree::new(vec![1, 2, 3, 4, 5, 6, 7, 8]).unwrap();

    // The first parent row (9..=12) is one left-to-right chain.
    assert_eq!(tree.nodes[9].sibling_left, None);
    assert_eq!(tree.nodes[9].sibling_right, Some(10));
    assert_eq!(tree.nodes[10].sibling_left, Some(9));
    assert_eq!(tree.nodes[10].sibling_right, Some(11));
    assert_eq!(tree.nodes[11].sibling_left, Some(10));
    assert_eq!(tree.nodes[11].sibling_right, Some(12));
    assert_eq!(tree.nodes[12].sibling_left, Some(11));
    assert_eq!(tree.nodes[12].sibling_right, None);

    // So is the two-node row above it (13..=14).
    assert_eq!(tree.nodes[13].sibling_left, None);
    assert_eq!(tree.nodes[13].sibling_right, Some(14));
    assert_eq!(tree.nodes[14].sibling_left, Some(13));
    assert_eq!(tree.nodes[14].sibling_right, None);
}

#[test]
fn construction_writes_no_digest() {
    let tree = MerkleTree::new(vec![1, 2, 3, 4, 5, 6, 7, 8]).unwrap();
    for j in 0..tree.nodes.len() {
        assert_eq!(tree.nodes[j].digest, None);
    }

    let mut staged: MerkleTree<u32> = MerkleTree::new_empty();
    staged.add_leaf(7);
    staged.add_leaf(8);
    assert_eq!(staged.nodes[0].digest, None);
    assert_eq!(staged.nodes[1].digest, None);
    assert_eq!(staged.nodes[2].digest, None);
    staged.build_parents();
    assert_eq!(staged.nodes[0].digest, None);
}
