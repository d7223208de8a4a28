use leansig::symmetric::message_hash::blake3::Blake3MessageHash;
use leansig::symmetric::message_hash::MessageHash;
use leansig::{HASH_LENGTH, MESSAGE_LENGTH};

#[test]
fn output_is_deterministic_bounded_and_domain_separated() {
    type Hash = Blake3MessageHash<257, 7>;
    let parameter = [1u8; HASH_LENGTH];
    let randomness = [2u8; HASH_LENGTH];
    let message = [3u8; MESSAGE_LENGTH];

    let a = Hash::apply(&parameter, 4, &randomness, &message).unwrap();
    assert_eq!(&a[..16], &[5, 4, 4, 6, 5, 0, 3, 4, 4, 6, 4, 0, 5, 1, 2, 5]);
    let b = Hash::apply(&parameter, 4, &randomness, &message).unwrap();
    assert_eq!(a, b);
    assert_eq!(a.len(), 257);
    assert!(a.iter().all(|chunk| *chunk < 7));
    assert_ne!(a, Hash::apply(&parameter, 5, &randomness, &message).unwrap());
}

#[test]
fn message_hash_has_dimension_entries_below_base_for_power_of_two_base() {
    type Hash = Blake3MessageHash<64, 256>;
    let parameter = [9u8; HASH_LENGTH];
    let randomness = [8u8; HASH_LENGTH];
    let message = [7u8; MESSAGE_LENGTH];
    let a = Hash::apply(&parameter, 0, &randomness, &message).unwrap();
    assert_eq!(a.len(), 64);
    let b = Hash::apply(&parameter, 0, &[0u8; HASH_LENGTH], &message).unwrap();
    assert_ne!(a, b);
}

#[test]
fn message_hash_binary_base_is_bits() {
    type Hash = Blake3MessageHash<300, 2>;
    let a = Hash::apply(&[0u8; HASH_LENGTH], 1, &[0u8; HASH_LENGTH], &[0u8; MESSAGE_LENGTH]).unwrap();
    assert_eq!(a.len(), 300);
    assert!(a.iter().all(|c| *c < 2));
}

/// Bit `index` of a byte string, least significant bit of each byte first.
fn bit_of(bytes: &[u8], index: usize) -> u8 {
    (bytes[index / 8] >> (index % 8)) & 1
}

/// The output bytes of the message hash, read through base 256.
fn output_bytes() -> Vec<u8> {
    type Bytes = Blake3MessageHash<64, 256>;
    Bytes::apply(&[4u8; HASH_LENGTH], 9, &[5u8; HASH_LENGTH], &[6u8; MESSAGE_LENGTH]).unwrap()
}

#[test]
fn binary_base_takes_one_output_bit_per_chunk() {
    type Hash = Blake3MessageHash<300, 2>;
    let x = output_bytes();
    let a = Hash::apply(&[4u8; HASH_LENGTH], 9, &[5u8; HASH_LENGTH], &[6u8; MESSAGE_LENGTH]).unwrap();
    assert_eq!(a.len(), 300);
    for i in 0..300 {
        assert_eq!(a[i], bit_of(&x, i));
    }
}

#[test]
fn base_sixteen_takes_nibbles() {
    type Hash = Blake3MessageHash<100, 16>;
    let x = output_bytes();
    let a = Hash::apply(&[4u8; HASH_LENGTH], 9, &[5u8; HASH_LENGTH], &[6u8; MESSAGE_LENGTH]).unwrap();
    for i in 0..100 {
        let expected = if i % 2 == 0 { x[i / 2] & 15 } else { x[i / 2] >> 4 };
        assert_eq!(a[i], expected);
    }
}

#[test]
fn base_eight_takes_groups_of_three_bits_across_bytes() {
    type Hash = Blake3MessageHash<170, 8>;
    let x = output_bytes();
    let a = Hash::apply(&[4u8; HASH_LENGTH], 9, &[5u8; HASH_LENGTH], &[6u8; MESSAGE_LENGTH]).unwrap();
    for i in 0..170 {
        let expected = bit_of(&x, 3 * i) | (bit_of(&x, 3 * i + 1) << 1) | (bit_of(&x, 3 * i + 2) << 2);
        assert_eq!(a[i], expected);
    }
}
