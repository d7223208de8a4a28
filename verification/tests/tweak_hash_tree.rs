use leansig::serialization::{DecodeError, Serializable};
use leansig::symmetric::tweak_hash::blake3::Blake3TweakHash;
use leansig::symmetric::tweak_hash::TweakableHash;
use leansig::symmetric::tweak_hash_tree::{combined_path, hash_tree_verify, HashSubTree, HashTreeLayer, HashTreeOpening};
use rand::rngs::StdRng;
use rand::SeedableRng;
use std::marker::PhantomData;

type TestTH = Blake3TweakHash<128>;

fn test_commit_open_helper(num_leafs: usize, depth: usize, start_index: usize, leaf_len: usize) {
    let mut rng = StdRng::seed_from_u64(21);
    let parameter = TestTH::rand_parameter(&mut rng);

    let mut leafs = Vec::new();
    for _ in 0..num_leafs {
        let mut leaf = Vec::new();
        for _ in 0..leaf_len {
            leaf.push(TestTH::rand_domain(&mut rng));
        }
        leafs.push(leaf);
    }

    let leafs_hashes: Vec<_> = leafs
        .iter()
        .enumerate()
        .map(|(i, v)| TestTH::apply(&parameter, &TestTH::tree_tweak(0, (i + start_index) as u32), v.as_slice()))
        .collect();

    let tree = HashSubTree::<TestTH>::new_subtree(&mut rng, 0, depth, start_index, &parameter, leafs_hashes);

    let root = tree.root();
    for (offset, leaf) in leafs.iter().enumerate().take(num_leafs) {
        let position = start_index as u32 + offset as u32;
        let path = tree.path(position);
        assert!(hash_tree_verify(&parameter, &root, position, leaf, &path));
    }
}

#[test]
fn test_commit_open_verify_full_tree() {
    test_commit_open_helper(1024, 10, 0, 3);
}

#[test]
fn test_commit_open_verify_half_tree_left() {
    test_commit_open_helper(512, 10, 0, 5);
}

#[test]
fn test_commit_open_verify_half_tree_right_large() {
    test_commit_open_helper(512, 10, 512, 10);
}

#[test]
fn test_commit_open_verify_half_tree_right_small() {
    test_commit_open_helper(2, 2, 2, 6);
}

#[test]
fn test_commit_open_verify_sparse_non_aligned() {
    test_commit_open_helper(213, 10, 217, 3);
}

fn test_commit_open_helper_top_bottom(
    num_bottom_trees: usize,
    depth: usize,
    start_bottom_tree_index: usize,
    leaf_len: usize,
) {
    let mut rng = StdRng::seed_from_u64(22);
    let parameter = TestTH::rand_parameter(&mut rng);

    let leafs_per_bottom_tree = 1 << (depth / 2);
    let num_leafs = num_bottom_trees * leafs_per_bottom_tree;
    let start_index = start_bottom_tree_index * leafs_per_bottom_tree;
    let mut leafs = Vec::new();
    for _ in 0..num_leafs {
        let mut leaf = Vec::new();
        for _ in 0..leaf_len {
            leaf.push(TestTH::rand_domain(&mut rng));
        }
        leafs.push(leaf);
    }

    let leafs_hashes: Vec<_> = leafs
        .iter()
        .enumerate()
        .map(|(i, v)| TestTH::apply(&parameter, &TestTH::tree_tweak(0, (i + start_index) as u32), v.as_slice()))
        .collect();

    let mut bottom_trees = Vec::with_capacity(num_bottom_trees);
    let mut roots_of_bottom_trees = Vec::with_capacity(num_bottom_trees);
    for bottom_tree_index in start_bottom_tree_index..(start_bottom_tree_index + num_bottom_trees) {
        let leafs_start = (bottom_tree_index - start_bottom_tree_index) * leafs_per_bottom_tree;
        let leafs_end = leafs_start + leafs_per_bottom_tree;
        let bottom_tree = HashSubTree::<TestTH>::new_bottom_tree(
            depth,
            bottom_tree_index,
            &parameter,
            leafs_hashes[leafs_start..leafs_end].to_vec(),
        );
        roots_of_bottom_trees.push(bottom_tree.root());
        bottom_trees.push(bottom_tree);
    }
    let top_tree =
        HashSubTree::<TestTH>::new_top_tree(&mut rng, depth, start_bottom_tree_index, &parameter, roots_of_bottom_trees);

    let root = top_tree.root();
    for bottom_tree_index in start_bottom_tree_index..(start_bottom_tree_index + num_bottom_trees) {
        let leafs_start = (bottom_tree_index - start_bottom_tree_index) * leafs_per_bottom_tree;
        let bottom_tree = &bottom_trees[bottom_tree_index - start_bottom_tree_index];

        for l in 0..leafs_per_bottom_tree {
            let offset = leafs_start + l;
            let leaf = leafs[offset].clone();
            let position = start_index as u32 + offset as u32;
            let path = combined_path(&top_tree, bottom_tree, position);
            assert!(hash_tree_verify(&parameter, &root, position, &leaf, &path));
        }
    }
}

#[test]
fn test_commit_open_verify_full_tree_top_bottom() {
    test_commit_open_helper_top_bottom(4, 4, 0, 3);
}

#[test]
fn test_commit_open_verify_half_tree_left_top_bottom() {
    test_commit_open_helper_top_bottom(8, 8, 0, 3);
}

#[test]
fn test_commit_open_verify_half_tree_right_top_bottom() {
    test_commit_open_helper_top_bottom(8, 8, 8, 3);
}

#[test]
fn test_commit_open_verify_middle_tree_right_top_bottom() {
    test_commit_open_helper_top_bottom(7, 8, 4, 3);
}

#[test]
fn tweak_hash_tree_test_ssz_encoding_structure() {
    let mut rng = StdRng::seed_from_u64(23);

    let nodes: Vec<_> = (0..3).map(|_| TestTH::rand_domain(&mut rng)).collect();
    let layer = HashTreeLayer { start_index: 256, nodes };
    let encoded = layer.as_ssz_bytes();
    assert!(encoded.len() >= 12);
    assert_eq!(u64::from_le_bytes(encoded[0..8].try_into().unwrap()), 256);
    assert_eq!(u32::from_le_bytes(encoded[8..12].try_into().unwrap()), 12);

    let tree = HashSubTree::<TestTH> { depth: 16, lowest_layer: 8, layers: vec![], _hash: PhantomData };
    let encoded = tree.as_ssz_bytes();
    assert!(encoded.len() >= 20);
    assert_eq!(u64::from_le_bytes(encoded[0..8].try_into().unwrap()), 16);
    assert_eq!(u64::from_le_bytes(encoded[8..16].try_into().unwrap()), 8);
    assert_eq!(u32::from_le_bytes(encoded[16..20].try_into().unwrap()), 20);

    let co_path: Vec<_> = (0..5).map(|_| TestTH::rand_domain(&mut rng)).collect();
    let opening = HashTreeOpening::<TestTH> { co_path, _hash: PhantomData };
    let encoded = opening.as_ssz_bytes();
    assert!(encoded.len() >= 4);
    assert_eq!(u32::from_le_bytes(encoded[0..4].try_into().unwrap()), 4);
}

#[test]
fn tweak_hash_tree_test_ssz_decoding_errors() {
    let encoded = vec![0u8; 8];
    let result = HashTreeLayer::from_ssz_bytes(&encoded);
    assert!(matches!(result, Err(DecodeError::InvalidByteLength { .. })));

    let mut encoded = vec![0u8; 12];
    encoded[0..8].copy_from_slice(&0u64.to_le_bytes());
    encoded[8..12].copy_from_slice(&99u32.to_le_bytes());
    let result = HashTreeLayer::from_ssz_bytes(&encoded);
    assert!(matches!(result, Err(DecodeError::InvalidByteLength { expected: 12, .. })));

    let encoded = vec![0u8; 16];
    let result = HashSubTree::<TestTH>::from_ssz_bytes(&encoded);
    assert!(matches!(result, Err(DecodeError::InvalidByteLength { .. })));

    let mut encoded = vec![0u8; 20];
    encoded[0..8].copy_from_slice(&10u64.to_le_bytes());
    encoded[8..16].copy_from_slice(&5u64.to_le_bytes());
    encoded[16..20].copy_from_slice(&100u32.to_le_bytes());
    let result = HashSubTree::<TestTH>::from_ssz_bytes(&encoded);
    assert!(matches!(result, Err(DecodeError::InvalidByteLength { expected: 20, .. })));

    let encoded = vec![0u8; 2];
    let result = HashTreeOpening::<TestTH>::from_ssz_bytes(&encoded);
    assert!(matches!(result, Err(DecodeError::InvalidByteLength { .. })));

    let mut encoded = vec![0u8; 4];
    encoded[0..4].copy_from_slice(&10u32.to_le_bytes());
    let result = HashTreeOpening::<TestTH>::from_ssz_bytes(&encoded);
    assert!(matches!(result, Err(DecodeError::InvalidByteLength { expected: 4, .. })));

    let opening = HashTreeOpening::<TestTH> { co_path: vec![[0u8; 32]; 33], _hash: PhantomData };
    assert!(!hash_tree_verify(&[0u8; 32], &[0u8; 32], 0, &[], &opening));
}

#[test]
fn tweak_hash_tree_test_ssz_determinism() {
    let mut rng = StdRng::seed_from_u64(24);

    let nodes: Vec<_> = (0..7).map(|_| TestTH::rand_domain(&mut rng)).collect();
    let layer = HashTreeLayer { start_index: 999, nodes };
    let encoded1 = layer.as_ssz_bytes();
    let encoded2 = layer.as_ssz_bytes();
    assert_eq!(encoded1, encoded2);

    let layer = HashTreeLayer { start_index: 4, nodes: (0..6).map(|_| TestTH::rand_domain(&mut rng)).collect() };
    let tree = HashSubTree::<TestTH> { depth: 20, lowest_layer: 10, layers: vec![layer], _hash: PhantomData };
    let encoded1 = tree.as_ssz_bytes();
    let encoded2 = tree.as_ssz_bytes();
    assert_eq!(encoded1, encoded2);

    let co_path: Vec<_> = (0..15).map(|_| TestTH::rand_domain(&mut rng)).collect();
    let opening = HashTreeOpening::<TestTH> { co_path, _hash: PhantomData };
    let encoded1 = opening.as_ssz_bytes();
    let encoded2 = opening.as_ssz_bytes();
    assert_eq!(encoded1, encoded2);
}

#[test]
fn test_ssz_merkle_integration() {
    let mut rng = StdRng::seed_from_u64(25);
    let parameter = TestTH::rand_parameter(&mut rng);

    let num_leafs = 8;
    let depth = 3;
    let start_index = 0;
    let leaf_len = 2;
    let mut leafs = Vec::new();
    for _ in 0..num_leafs {
        let leaf: Vec<_> = (0..leaf_len).map(|_| TestTH::rand_domain(&mut rng)).collect();
        leafs.push(leaf);
    }
    let leafs_hashes: Vec<_> = leafs
        .iter()
        .enumerate()
        .map(|(i, v)| TestTH::apply(&parameter, &TestTH::tree_tweak(0, i as u32), v.as_slice()))
        .collect();
    let tree = HashSubTree::<TestTH>::new_subtree(&mut rng, 0, depth, start_index, &parameter, leafs_hashes);
    let root = tree.root();

    let tree_encoded = tree.as_ssz_bytes();
    let tree_decoded = HashSubTree::<TestTH>::from_ssz_bytes(&tree_encoded).unwrap();
    assert_eq!(root, tree_decoded.root());

    let position = 3u32;
    let path = tree.path(position);
    let leaf = &leafs[position as usize];

    let path_encoded = path.as_ssz_bytes();
    let path_decoded = HashTreeOpening::<TestTH>::from_ssz_bytes(&path_encoded).unwrap();

    assert!(hash_tree_verify(&parameter, &root, position, leaf, &path_decoded));

    let path_from_decoded = tree_decoded.path(position);
    assert!(hash_tree_verify(&parameter, &root, position, leaf, &path_from_decoded));
}

#[test]
fn layer_round_trip_gives_the_same_layer() {
    let layer = HashTreeLayer { start_index: 7, nodes: vec![[1u8; 32], [2u8; 32]] };
    let bytes = layer.as_ssz_bytes();
    assert_eq!(bytes.len(), layer.ssz_bytes_len());
    assert_eq!(bytes.len(), 12 + 64);
    let back = HashTreeLayer::from_ssz_bytes(&bytes).unwrap();
    assert_eq!(back.start_index, 7);
    assert_eq!(back.nodes, layer.nodes);
}

#[test]
fn layer_with_partial_node_is_refused() {
    let mut bytes = HashTreeLayer { start_index: 0, nodes: vec![[1u8; 32]] }.as_ssz_bytes();
    bytes.pop();
    assert!(matches!(
        HashTreeLayer::from_ssz_bytes(&bytes),
        Err(DecodeError::InvalidByteLength { len: 31, expected: 32 })
    ));
}

#[test]
fn subtree_list_offsets_are_checked() {
    let layer = HashTreeLayer { start_index: 4, nodes: vec![[3u8; 32]; 2] };
    let tree = HashSubTree::<TestTH> {
        depth: 4,
        lowest_layer: 0,
        layers: vec![layer, HashTreeLayer { start_index: 2, nodes: vec![[4u8; 32]] }],
        _hash: PhantomData,
    };
    let bytes = tree.as_ssz_bytes();
    assert_eq!(bytes.len(), tree.ssz_bytes_len());
    // Two layers: the first offset is the size of the offset table.
    assert_eq!(u32::from_le_bytes(bytes[20..24].try_into().unwrap()), 8);
    assert_eq!(u32::from_le_bytes(bytes[24..28].try_into().unwrap()), 8 + 12 + 64);
    let back = HashSubTree::<TestTH>::from_ssz_bytes(&bytes).unwrap();
    assert_eq!(back.as_ssz_bytes(), bytes);
    assert_eq!(back.layers.len(), 2);
    assert_eq!(back.layers[1].start_index, 2);

    let mut short_prefix = bytes[..22].to_vec();
    short_prefix.truncate(22);
    assert!(matches!(
        HashSubTree::<TestTH>::from_ssz_bytes(&short_prefix),
        Err(DecodeError::InvalidLengthPrefix { len: 2, expected: 4 })
    ));

    let mut misaligned = bytes.clone();
    misaligned[20..24].copy_from_slice(&6u32.to_le_bytes());
    assert!(matches!(
        HashSubTree::<TestTH>::from_ssz_bytes(&misaligned),
        Err(DecodeError::InvalidListFixedBytesLen(6))
    ));

    let mut beyond = bytes.clone();
    beyond[24..28].copy_from_slice(&10_000u32.to_le_bytes());
    assert!(matches!(
        HashSubTree::<TestTH>::from_ssz_bytes(&beyond),
        Err(DecodeError::OffsetOutOfBounds(10_000))
    ));

    let mut into_table = bytes.clone();
    into_table[24..28].copy_from_slice(&4u32.to_le_bytes());
    assert!(matches!(
        HashSubTree::<TestTH>::from_ssz_bytes(&into_table),
        Err(DecodeError::OffsetIntoFixedPortion(4))
    ));
}

#[test]
fn subtree_list_offsets_must_not_decrease() {
    let layer = |start: u64, n: usize| HashTreeLayer { start_index: start, nodes: vec![[start as u8; 32]; n] };
    let tree = HashSubTree::<TestTH> {
        depth: 8,
        lowest_layer: 0,
        layers: vec![layer(0, 2), layer(0, 1), layer(0, 1)],
        _hash: PhantomData,
    };
    let bytes = tree.as_ssz_bytes();
    let second = u32::from_le_bytes(bytes[24..28].try_into().unwrap());
    assert_eq!(u32::from_le_bytes(bytes[20..24].try_into().unwrap()), 12);
    assert_eq!(second, 12 + 12 + 64);
    let mut decreasing = bytes.clone();
    decreasing[28..32].copy_from_slice(&(second - 1).to_le_bytes());
    assert!(matches!(
        HashSubTree::<TestTH>::from_ssz_bytes(&decreasing),
        Err(DecodeError::OffsetsAreDecreasing(o)) if o == (second - 1) as usize
    ));
    let back = HashSubTree::<TestTH>::from_ssz_bytes(&bytes).unwrap();
    assert_eq!(back.layers.len(), 3);
    assert_eq!(back.layers[0].nodes.len(), 2);
}
