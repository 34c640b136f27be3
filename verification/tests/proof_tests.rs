use merkle_tree::hash::combine_digests;
use merkle_tree::hash::hash_bytes;
use merkle_tree::merkle_tree::MerkleTree;
use merkle_tree::proof_engine::verify_proof;
use merkle_tree::proof_engine::Side;

fn byte_tree(values: &[&[u8]]) -> MerkleTree<Vec<u8>> {
    let input: Vec<Vec<u8>> = values.iter().map(|v| v.to_vec()).collect();
    let mut tree = MerkleTree::new(input).unwrap();
    tree.compute_digests();
    tree
}

#[test]
fn fnv1a_known_values() {
    // Reference values of the 64-bit FNV-1a hash.
    assert_eq!(hash_bytes(&vec![]), 0xcbf29ce484222325);
    assert_eq!(hash_bytes(&b"a".to_vec()), 0xaf63dc4c8601ec8c);
    assert_eq!(hash_bytes(&b"foobar".to_vec()), 0x85944171f73967e8);
}

#[test]
fn single_leaf_digest_is_plain_hash() {
    // One leaf: its digest is the hash of the value, with no combination.
    let tree = byte_tree(&[b"payload"]);
    assert_eq!(tree.root_digest(), Some(hash_bytes(&b"payload".to_vec())));
}

#[test]
fn internal_digest_combines_children() {
    let tree = byte_tree(&[b"left", b"right"]);
    let dl = hash_bytes(&b"left".to_vec());
    let dr = hash_bytes(&b"right".to_vec());
    assert_eq!(tree.nodes[1].digest, Some(dl));
    assert_eq!(tree.nodes[2].digest, Some(dr));
    assert_eq!(tree.root_digest(), Some(combine_digests(dl, dr)));
}

#[test]
fn every_node_gets_a_digest() {
    let tree = byte_tree(&[b"1", b"2", b"3", b"4"]);
    for j in 0..tree.nodes.len() {
        assert!(tree.nodes[j].digest.is_some());
    }
}

#[test]
fn digest_is_deterministic() {
    let t1 = byte_tree(&[b"alpha", b"beta", b"gamma", b"delta"]);
    let t2 = byte_tree(&[b"alpha", b"beta", b"gamma", b"delta"]);
    assert_eq!(t1.root_digest(), t2.root_digest());
    assert!(t1.root_digest().is_some());
}

#[test]
fn leaf_order_affects_root_digest() {
    // The combination rule is left before right, so order matters.
    let t1 = byte_tree(&[b"alpha", b"beta"]);
    let t2 = byte_tree(&[b"beta", b"alpha"]);
    assert_ne!(t1.root_digest(), t2.root_digest());
}

#[test]
fn proof_round_trip_four_leaves() {
    let values: Vec<&[u8]> = vec![b"1", b"2", b"3", b"4"];
    let tree = byte_tree(&values);
    let root = tree.root_digest().unwrap();

    for (pos, v) in values.iter().enumerate() {
        let path = tree.generate_proof(pos);
        assert_eq!(path.len(), 2);
        assert!(verify_proof(&v.to_vec(), &path, root));
    }
}

#[test]
fn proof_round_trip_eight_leaves() {
    let values: Vec<&[u8]> = vec![b"1", b"2", b"3", b"4", b"5", b"6", b"7", b"8"];
    let tree = byte_tree(&values);
    let root = tree.root_digest().unwrap();

    for (pos, v) in values.iter().enumerate() {
        let path = tree.generate_proof(pos);
        assert_eq!(path.len(), 3);
        assert!(verify_proof(&v.to_vec(), &path, root));
    }
}

#[test]
fn proof_round_trip_single_leaf() {
    let tree = byte_tree(&[b"only"]);
    let root = tree.root_digest().unwrap();
    let path = tree.generate_proof(0);
    assert_eq!(path.len(), 0);
    assert!(verify_proof(&b"only".to_vec(), &path, root));
}

#[test]
fn tampered_value_fails_verification() {
    let values: Vec<&[u8]> = vec![b"aaaa", b"bbbb", b"cccc", b"dddd"];
    let tree = byte_tree(&values);
    let root = tree.root_digest().unwrap();

    for (pos, v) in values.iter().enumerate() {
        let path = tree.generate_proof(pos);
        // Mutate every single byte of the claimed value in turn.
        for i in 0..v.len() {
            let mut bad = v.to_vec();
            bad[i] ^= 1;
            assert!(!verify_proof(&bad, &path, root));
        }
    }
}

#[test]
fn flipped_side_fails_verification() {
    let values: Vec<&[u8]> = vec![b"aaaa", b"bbbb", b"cccc", b"dddd"];
    let tree = byte_tree(&values);
    let root = tree.root_digest().unwrap();

    for (pos, v) in values.iter().enumerate() {
        let path = tree.generate_proof(pos);
        // Flip the side flag of every step in turn.
        for i in 0..path.len() {
            let mut bad = path.clone();
            bad[i].side = match bad[i].side {
                Side::Left => Side::Right,
                Side::Right => Side::Left,
            };
            assert!(!verify_proof(&v.to_vec(), &bad, root));
        }
    }
}

#[test]
fn tampered_step_digest_fails_verification() {
    let values: Vec<&[u8]> = vec![b"aaaa", b"bbbb", b"cccc", b"dddd"];
    let tree = byte_tree(&values);
    let root = tree.root_digest().unwrap();

    let path = tree.generate_proof(2);
    for i in 0..path.len() {
        let mut bad = path.clone();
        bad[i].digest ^= 1;
        assert!(!verify_proof(&b"cccc".to_vec(), &bad, root));
    }
}

#[test]
fn wrong_root_fails_verification() {
    let tree = byte_tree(&[b"x", b"y"]);
    let root = tree.root_digest().unwrap();
    let path = tree.generate_proof(0);
    assert!(!verify_proof(&b"x".to_vec(), &path, root ^ 1));
}

#[test]
fn digests_absent_before_pass() {
    let tree = MerkleTree::new(vec![b"x".to_vec(), b"y".to_vec()]).unwrap();
    for j in 0..tree.nodes.len() {
        assert_eq!(tree.nodes[j].digest, None);
    }
    assert_eq!(tree.root_digest(), None);
}

#[test]
fn proof_steps_carry_sibling_digests() {
    // Layout: leaves 1..=4, parents 5 (children 1,2) and 6 (children 3,4),
    // root 0 (children 5,6).
    let tree = byte_tree(&[b"p", b"q", b"r", b"s"]);

    // Leaf position 0 sits at slot 1: its siblings on the way up are node 2
    // (right of it) and node 6 (right of its parent 5).
    let path = tree.generate_proof(0);
    assert_eq!(path.len(), 2);
    assert!(matches!(path[0].side, Side::Right));
    assert_eq!(path[0].digest, tree.nodes[2].digest.unwrap());
    assert!(matches!(path[1].side, Side::Right));
    assert_eq!(path[1].digest, tree.nodes[6].digest.unwrap());

    // Leaf position 3 sits at slot 4: siblings are node 3 (left of it) and
    // node 5 (left of its parent 6).
    let path = tree.generate_proof(3);
    assert_eq!(path.len(), 2);
    assert!(matches!(path[0].side, Side::Left));
    assert_eq!(path[0].digest, tree.nodes[3].digest.unwrap());
    assert!(matches!(path[1].side, Side::Left));
    assert_eq!(path[1].digest, tree.nodes[5].digest.unwrap());
}
