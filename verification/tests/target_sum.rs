use leansig::inc_encoding::target_sum::{TargetSumEncoding, TargetSumError};
use leansig::inc_encoding::IncomparableEncoding;
use leansig::symmetric::message_hash::blake3::Blake3MessageHash;
use leansig::symmetric::message_hash::MessageHash;
use rand::rngs::StdRng;
use rand::{RngExt, SeedableRng};

const TEST_TARGET_SUM: usize = 192;
type TestMessageHash = Blake3MessageHash<128, 4>;
type TestTargetSumEncoding = TargetSumEncoding<TestMessageHash, TEST_TARGET_SUM>;

#[test]
fn test_successful_encoding_fixed_message() {
    let mut rng = StdRng::seed_from_u64(1);
    let parameter: [u8; 32] = rng.random();
    let message: [u8; 32] = rng.random();
    let epoch = 0u32;

    for _ in 0..1_000 {
        let randomness = TestTargetSumEncoding::rand(&mut rng);

        if let Ok(chunks) = TestTargetSumEncoding::encode(&parameter, &message, &randomness, epoch) {
            assert_eq!(chunks.len(), TestTargetSumEncoding::DIMENSION);

            for &chunk in &chunks {
                assert!((chunk as usize) < TestTargetSumEncoding::BASE);
            }

            let sum: usize = chunks.iter().map(|&x| x as usize).sum();
            assert_eq!(sum, TEST_TARGET_SUM);

            let result2 = TestTargetSumEncoding::encode(&parameter, &message, &randomness, epoch);
            assert_eq!(chunks, result2.unwrap());

            return;
        }
    }

    panic!("failed to find successful encoding after 1000 attempts");
}

#[test]
fn test_successful_encoding_random_inputs() {
    let mut rng = StdRng::seed_from_u64(2);
    let epoch = 0u32;

    for _ in 0..1_000 {
        let parameter: [u8; 32] = rng.random();
        let message: [u8; 32] = rng.random();
        let randomness = TestTargetSumEncoding::rand(&mut rng);

        if let Ok(chunks) = TestTargetSumEncoding::encode(&parameter, &message, &randomness, epoch) {
            assert_eq!(chunks.len(), TestTargetSumEncoding::DIMENSION);

            for &chunk in &chunks {
                assert!((chunk as usize) < TestTargetSumEncoding::BASE);
            }

            let sum: usize = chunks.iter().map(|&x| x as usize).sum();
            assert_eq!(sum, TEST_TARGET_SUM);

            let result2 = TestTargetSumEncoding::encode(&parameter, &message, &randomness, epoch);
            assert_eq!(chunks, result2.unwrap());

            return;
        }
    }

    panic!("failed to find successful encoding after 1000 attempts");
}

#[test]
fn target_sum_mismatch_reports_expected_and_actual_sum() {
    let mut rng = StdRng::seed_from_u64(3);
    let parameter: [u8; 32] = rng.random();
    let message: [u8; 32] = rng.random();
    let mut seen_mismatch = false;
    for epoch in 0..200u32 {
        let randomness = TestTargetSumEncoding::rand(&mut rng);
        let chunks = TestMessageHash::apply(&parameter, epoch, &randomness, &message).unwrap();
        let hash_sum: usize = chunks.iter().map(|&x| x as usize).sum();
        match TestTargetSumEncoding::encode(&parameter, &message, &randomness, epoch) {
            Ok(c) => {
                assert_eq!(c, chunks);
                assert_eq!(hash_sum, TEST_TARGET_SUM);
            }
            Err(TargetSumError::Mismatch { expected, actual }) => {
                assert_eq!(expected, TEST_TARGET_SUM);
                assert_eq!(actual, hash_sum);
                assert_ne!(hash_sum, TEST_TARGET_SUM);
                seen_mismatch = true;
            }
            Err(TargetSumError::HashError(_)) => panic!("hashing cannot fail here"),
        }
    }
    assert!(seen_mismatch);
}
