use leansig::symmetric::tweak_hash::blake3::{Blake3TweakHash, CHAIN_HASH_CONTEXT};
use leansig::symmetric::tweak_hash::blake3_simd::{chain_4, chain_context_key, keyed_hash_4};
use leansig::symmetric::tweak_hash::blake3_simd::lanes::{hash_derive_key_material_70, keyed_hash, round, V};
use blake3::hazmat::HasherExt;
use leansig::symmetric::tweak_hash::{chain, TweakableHash};
use leansig::HASH_LENGTH;
use rand::rngs::StdRng;
use rand::SeedableRng;

type TestTH = Blake3TweakHash<128>;

#[test]
fn test_chain_associative() {
    let mut rng = StdRng::seed_from_u64(11);

    let epoch = 9;
    let chain_index = 20;
    let parameter = TestTH::rand_parameter(&mut rng);
    let start = TestTH::rand_domain(&mut rng);
    let total_steps = 16;

    let end_direct = chain::<TestTH>(&parameter, epoch, chain_index, 0, total_steps, &start);

    for split in 0..=total_steps {
        let steps_a = split;
        let steps_b = total_steps - split;

        let intermediate = chain::<TestTH>(&parameter, epoch, chain_index, 0, steps_a, &start);
        let end_indirect =
            chain::<TestTH>(&parameter, epoch, chain_index, steps_a as u8, steps_b, &intermediate);

        assert_eq!(end_direct, end_indirect);
    }
}

#[test]
fn test_chain_associative_max_value() {
    let mut rng = StdRng::seed_from_u64(12);

    let epoch = 12;
    let chain_index = 210;
    let parameter = TestTH::rand_parameter(&mut rng);
    let start = TestTH::rand_domain(&mut rng);
    let total_steps = u8::MAX as usize;
    let end_direct = chain::<TestTH>(&parameter, epoch, chain_index, 0, total_steps, &start);

    for split in 0..=total_steps {
        let steps_a = split;
        let steps_b = total_steps - split;

        let intermediate = chain::<TestTH>(&parameter, epoch, chain_index, 0, steps_a, &start);
        let end_indirect =
            chain::<TestTH>(&parameter, epoch, chain_index, steps_a as u8, steps_b, &intermediate);

        assert_eq!(end_direct, end_indirect);
    }
}

type Hash = Blake3TweakHash<3>;

#[test]
fn chain_leaf_and_node_domains_are_distinct() {
    let parameter = [1u8; HASH_LENGTH];
    let value = [2u8; HASH_LENGTH];
    let chain = Hash::apply(&parameter, &Hash::chain_tweak(0, 0, 1), &[value]);
    let leaf = Hash::apply(&parameter, &Hash::tree_tweak(0, 0), &[value; 3]);
    let node = Hash::apply(&parameter, &Hash::tree_tweak(1, 0), &[value; 2]);
    assert_eq!(
        chain,
        [
            219, 40, 57, 253, 160, 141, 22, 108, 64, 173, 2, 216, 86, 17, 150, 174, 167, 111, 74, 196, 201, 129, 193,
            97, 129, 233, 158, 41, 255, 39, 50, 217,
        ]
    );
    assert_eq!(
        leaf,
        [
            80, 192, 76, 19, 104, 99, 102, 42, 233, 244, 114, 174, 3, 196, 250, 244, 1, 87, 16, 36, 247, 248, 247, 53,
            201, 137, 6, 105, 103, 209, 149, 157,
        ]
    );
    assert_eq!(
        node,
        [
            14, 206, 168, 62, 24, 19, 170, 61, 111, 225, 113, 70, 81, 75, 20, 122, 238, 170, 105, 68, 5, 139, 136, 239,
            144, 175, 159, 61, 23, 76, 19, 32,
        ]
    );
    assert_ne!(chain, leaf);
    assert_ne!(chain, node);
    assert_ne!(leaf, node);
}

#[test]
fn child_order_and_addresses_are_bound() {
    let parameter = [1u8; HASH_LENGTH];
    let left = [2u8; HASH_LENGTH];
    let right = [3u8; HASH_LENGTH];
    let a = Hash::apply(&parameter, &Hash::tree_tweak(1, 0), &[left, right]);
    let b = Hash::apply(&parameter, &Hash::tree_tweak(1, 0), &[right, left]);
    let c = Hash::apply(&parameter, &Hash::tree_tweak(1, 1), &[left, right]);
    assert_ne!(a, b);
    assert_ne!(a, c);
}

#[test]
fn chain_of_zero_steps_is_the_start() {
    let parameter = [4u8; HASH_LENGTH];
    let start = [5u8; HASH_LENGTH];
    assert_eq!(chain::<TestTH>(&parameter, 1, 2, 7, 0, &start), start);
    let one = chain::<TestTH>(&parameter, 1, 2, 7, 1, &start);
    assert_eq!(one, TestTH::apply(&parameter, &TestTH::chain_tweak(1, 2, 8), &[start]));
    assert_ne!(one, start);
}

#[test]
fn four_lane_chains_match_single_chains() {
    let parameter = [6u8; HASH_LENGTH];
    let context_key = blake3::hazmat::hash_derive_key_context(CHAIN_HASH_CONTEXT);
    let epochs = [0u32, 3, 9, 77];
    let starts = [[1u8; HASH_LENGTH], [2u8; HASH_LENGTH], [3u8; HASH_LENGTH], [4u8; HASH_LENGTH]];
    let four = chain_4(&context_key, &parameter, epochs, 5, 2, 6, starts);
    for lane in 0..4 {
        assert_eq!(four[lane], chain::<TestTH>(&parameter, epochs[lane], 5, 2, 6, &starts[lane]));
    }
}

#[test]
fn four_lane_keyed_hash_matches_blake3() {
    let key = [9u8; HASH_LENGTH];
    let inputs = [[1u8; 40], [2u8; 40], [3u8; 40], [4u8; 40]];
    let four = keyed_hash_4(&key, &inputs);
    for lane in 0..4 {
        assert_eq!(four[lane], *blake3::keyed_hash(&key, &inputs[lane]).as_bytes());
    }
}

#[test]
fn lane_compression_matches_blake3_derive_key_material() {
    let context_key = blake3::hazmat::hash_derive_key_context(CHAIN_HASH_CONTEXT);
    let mut inputs = [[0u8; 70]; 4];
    for (lane, input) in inputs.iter_mut().enumerate() {
        for (i, byte) in input.iter_mut().enumerate() {
            *byte = (i * 7 + lane * 31) as u8;
        }
    }
    let four = hash_derive_key_material_70(&context_key, &inputs);
    for lane in 0..4 {
        let mut hasher = blake3::Hasher::new_from_context_key(&context_key);
        hasher.update(&inputs[lane]);
        assert_eq!(four[lane], *hasher.finalize().as_bytes());
        assert_eq!(four[lane], blake3::derive_key(CHAIN_HASH_CONTEXT, &inputs[lane]));
    }
}

#[test]
fn lane_compression_matches_blake3_keyed_hash() {
    let key = [0x5au8; HASH_LENGTH];
    let short = [[1u8; 40], [2u8; 40], [3u8; 40], [4u8; 40]];
    let full = [[5u8; 64], [6u8; 64], [7u8; 64], [8u8; 64]];
    let empty: [[u8; 0]; 4] = [[], [], [], []];
    let a = keyed_hash(&key, &short);
    let b = keyed_hash(&key, &full);
    let c = keyed_hash(&key, &empty);
    for lane in 0..4 {
        assert_eq!(a[lane], *blake3::keyed_hash(&key, &short[lane]).as_bytes());
        assert_eq!(b[lane], *blake3::keyed_hash(&key, &full[lane]).as_bytes());
        assert_eq!(c[lane], *blake3::keyed_hash(&key, &[]).as_bytes());
    }
}

#[test]
fn lane_round_keeps_lanes_independent() {
    let mut state = [V::splat(1); 16];
    state[3] = V { lanes: [1, 2, 3, 4] };
    let message = [V { lanes: [9, 9, 9, 10] }; 16];
    let schedule = [0usize, 1, 2, 3, 4, 5, 6, 7, 8, 9, 10, 11, 12, 13, 14, 15];
    let mut a = state;
    round(&mut a, &message, &schedule);
    let mut only_first = [V::splat(1); 16];
    only_first[3] = V::splat(1);
    round(&mut only_first, &[V::splat(9); 16], &schedule);
    for i in 0..16 {
        assert_eq!(a[i].lanes[0], only_first[i].lanes[0]);
    }
    assert_ne!(a[0].lanes[0], a[0].lanes[3]);
}

#[test]
fn chain_context_key_is_the_hazmat_context_key() {
    assert_eq!(chain_context_key(), blake3::hazmat::hash_derive_key_context(CHAIN_HASH_CONTEXT));
    let parameter = [8u8; HASH_LENGTH];
    let epochs = [1u32, 2, 3, 4];
    let starts = [[5u8; HASH_LENGTH]; 4];
    let four = chain_4(&chain_context_key(), &parameter, epochs, 0, 0, 3, starts);
    for lane in 0..4 {
        assert_eq!(four[lane], chain::<Blake3TweakHash<7>>(&parameter, epochs[lane], 0, 0, 3, &starts[lane]));
    }
}
