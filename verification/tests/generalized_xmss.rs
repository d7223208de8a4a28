use leansig::inc_encoding::target_sum::TargetSumEncoding;
use leansig::inc_encoding::IncomparableEncoding;
use leansig::serialization::{DecodeError, Serializable};
use leansig::signature::generalized_xmss::{
    expand_activation_time, GeneralizedXMSSPublicKey, GeneralizedXMSSSignature, GeneralizedXMSSSignatureScheme,
};
use leansig::signature::{SignatureScheme, SignatureSchemeSecretKey, SigningError};
use leansig::symmetric::message_hash::blake3::Blake3MessageHash;
use leansig::symmetric::message_hash::MessageHash;
use leansig::symmetric::prf::blake3::Blake3Prf;
use leansig::symmetric::prf::Pseudorandom;
use leansig::symmetric::tweak_hash::blake3::Blake3TweakHash;
use leansig::symmetric::tweak_hash::TweakableHash;
use leansig::symmetric::tweak_hash_tree::HashTreeOpening;
use leansig::MESSAGE_LENGTH;
use rand::rngs::StdRng;
use rand::{RngExt, SeedableRng};
use std::marker::PhantomData;

type TestTH = Blake3TweakHash<155>;

/// Runs a sign/verify round trip for a scheme.
fn test_signature_scheme_correctness<T: SignatureScheme>(epoch: u32, activation_epoch: usize, num_active_epochs: usize) {
    assert!(
        activation_epoch as u32 <= epoch && (epoch as u64) < (activation_epoch + num_active_epochs) as u64,
        "Did not even try signing, epoch {:?} outside of activation interval {:?},{:?}",
        epoch,
        activation_epoch,
        num_active_epochs
    );

    let mut rng = StdRng::seed_from_u64(epoch as u64 + 100);

    let (pk, mut sk) = T::key_gen(&mut rng, activation_epoch, num_active_epochs);

    let mut iterations = 0;
    while !sk.get_prepared_interval().contains(&(epoch as u64)) && iterations < epoch {
        sk.advance_preparation();
        iterations += 1;
    }
    assert!(
        sk.get_prepared_interval().contains(&(epoch as u64)),
        "Did not even try signing, failed to advance key preparation to desired epoch {:?}.",
        epoch
    );

    let message: [u8; MESSAGE_LENGTH] = rng.random();
    let signature = T::sign(&mut sk, epoch, &message);

    assert!(signature.is_ok(), "Signing failed: {:?}. Epoch was {:?}", signature.err(), epoch);

    let signature = signature.unwrap();
    let is_valid = T::verify(&pk, epoch, &message, &signature);
    assert!(is_valid, "Signature verification failed. . Epoch was {:?}", epoch);
}

fn copy_signature<IE: IncomparableEncoding, TH: TweakableHash>(
    s: &GeneralizedXMSSSignature<IE, TH>,
) -> GeneralizedXMSSSignature<IE, TH> {
    GeneralizedXMSSSignature {
        path: HashTreeOpening { co_path: s.path.co_path.clone(), _hash: PhantomData },
        rho: s.rho,
        hashes: s.hashes.clone(),
        _encoding: PhantomData,
    }
}

type MH155 = Blake3MessageHash<155, 2>;
const SUM155: usize = MH155::DIMENSION * (MH155::BASE - 1) / 2;
type IE155 = TargetSumEncoding<MH155, SUM155>;
type Sig155 = GeneralizedXMSSSignatureScheme<Blake3Prf, IE155, TestTH, 6>;

#[test]
pub fn test_target_sum_blake3() {
    type Sig = Sig155;
    test_signature_scheme_correctness::<Sig>(2, 0, Sig::LIFETIME as usize);
    test_signature_scheme_correctness::<Sig>(19, 0, Sig::LIFETIME as usize);
    test_signature_scheme_correctness::<Sig>(0, 0, Sig::LIFETIME as usize);
    test_signature_scheme_correctness::<Sig>(11, 0, Sig::LIFETIME as usize);
}

#[test]
pub fn test_rejects_epoch_reuse() {
    type Sig = Sig155;
    const LOG_LIFETIME: usize = 6;

    let mut rng = StdRng::seed_from_u64(31);
    let (_pk, mut sk) = Sig::key_gen(&mut rng, 0, 1 << LOG_LIFETIME);
    let message: [u8; MESSAGE_LENGTH] = rng.random();
    let epoch = 29;

    assert!(matches!(
        Sig::sign(&mut sk, epoch, &message),
        Err(SigningError::EpochNotPrepared { epoch: rejected }) if rejected == epoch
    ));
    assert!(matches!(
        Sig::sign(&mut sk, Sig::LIFETIME as u32, &message),
        Err(SigningError::EpochOutsideActivation { epoch: rejected }) if rejected == Sig::LIFETIME as u32
    ));

    let mut iterations = 0;
    while !sk.get_prepared_interval().contains(&(epoch as u64)) && iterations < epoch {
        sk.advance_preparation();
        iterations += 1;
    }
    assert!(
        sk.get_prepared_interval().contains(&(epoch as u64)),
        "Did not even try signing, failed to advance key preparation to desired epoch {:?}.",
        epoch
    );

    let signature = Sig::sign(&mut sk, epoch, &message).unwrap();
    assert!(matches!(
        Sig::sign(&mut sk, epoch, &message),
        Err(SigningError::EpochAlreadyUsed { epoch: reused }) if reused == epoch
    ));

    let encoded = sk.as_ssz_bytes();
    let mut restored = <Sig as SignatureScheme>::SecretKey::from_ssz_bytes(&encoded).unwrap();
    assert!(matches!(
        Sig::sign(&mut restored, epoch, &message),
        Err(SigningError::EpochAlreadyUsed { epoch: reused }) if reused == epoch
    ));
    assert!(!signature.hashes.is_empty());

    // Moving beyond the old half-window compacts state that can no longer be used.
    sk.advance_preparation();
    sk.advance_preparation();
    assert!(!sk.used_epochs.contains(&epoch));
}

#[test]
fn test_rejects_tampering() {
    type TH = Blake3TweakHash<16>;
    type MH = Blake3MessageHash<16, 2>;
    type IE = TargetSumEncoding<MH, 8>;
    type Sig = GeneralizedXMSSSignatureScheme<Blake3Prf, IE, TH, 6>;

    let mut rng = StdRng::seed_from_u64(7);
    let (pk, mut sk) = Sig::key_gen(&mut rng, 0, Sig::LIFETIME as usize);
    let epoch = 3;
    let message = [11u8; MESSAGE_LENGTH];
    let signature = Sig::sign(&mut sk, epoch, &message).unwrap();
    assert!(Sig::verify(&pk, epoch, &message, &signature));

    let mut wrong_message = message;
    wrong_message[0] ^= 1;
    assert!(!Sig::verify(&pk, epoch, &wrong_message, &signature));
    assert!(!Sig::verify(&pk, epoch + 1, &message, &signature));

    let mut wrong_rho = copy_signature(&signature);
    wrong_rho.rho[0] ^= 1;
    assert!(!Sig::verify(&pk, epoch, &message, &wrong_rho));

    let mut wrong_hash = copy_signature(&signature);
    wrong_hash.hashes[0][0] ^= 1;
    assert!(!Sig::verify(&pk, epoch, &message, &wrong_hash));

    let mut wrong_pk = pk;
    wrong_pk.parameter[0] ^= 1;
    assert!(!Sig::verify(&wrong_pk, epoch, &message, &signature));
}

#[test]
pub fn test_large_base_blake3() {
    type TH = Blake3TweakHash<32>;
    type MH = Blake3MessageHash<32, 256>;
    const TARGET_SUM: usize = 1 << 12;
    type IE = TargetSumEncoding<MH, TARGET_SUM>;
    type Sig = GeneralizedXMSSSignatureScheme<Blake3Prf, IE, TH, 10>;

    test_signature_scheme_correctness::<Sig>(0, 0, Sig::LIFETIME as usize);
    test_signature_scheme_correctness::<Sig>(11, 0, Sig::LIFETIME as usize);
}

#[test]
pub fn test_large_dimension_blake3() {
    type TH = Blake3TweakHash<256>;
    type MH = Blake3MessageHash<256, 2>;
    const TARGET_SUM: usize = 128;
    type IE = TargetSumEncoding<MH, TARGET_SUM>;
    type Sig = GeneralizedXMSSSignatureScheme<Blake3Prf, IE, TH, 10>;

    test_signature_scheme_correctness::<Sig>(2, 0, Sig::LIFETIME as usize);
    test_signature_scheme_correctness::<Sig>(19, 0, Sig::LIFETIME as usize);
}

#[test]
pub fn test_base8_target_sum() {
    type TH = Blake3TweakHash<64>;
    type MH = Blake3MessageHash<64, 8>;
    const TARGET_SUM: usize = MH::DIMENSION * (MH::BASE - 1) / 2;
    type IE = TargetSumEncoding<MH, TARGET_SUM>;
    type Sig = GeneralizedXMSSSignatureScheme<Blake3Prf, IE, TH, 6>;

    test_signature_scheme_correctness::<Sig>(2, 0, Sig::LIFETIME as usize);
    test_signature_scheme_correctness::<Sig>(19, 0, Sig::LIFETIME as usize);
    test_signature_scheme_correctness::<Sig>(0, 0, Sig::LIFETIME as usize);
    test_signature_scheme_correctness::<Sig>(11, 0, Sig::LIFETIME as usize);
}

#[test]
pub fn test_expand_activation_time() {
    const LOG_LIFETIME: usize = 4;

    let (start, end_excl) = expand_activation_time::<LOG_LIFETIME>(0, 8);
    assert!((start == 0) && (end_excl == 2));

    let (start, end_excl) = expand_activation_time::<LOG_LIFETIME>(0, 4);
    assert!((start == 0) && (end_excl == 2));

    let (start, end_excl) = expand_activation_time::<LOG_LIFETIME>(0, 7);
    assert!((start == 0) && (end_excl == 2));

    let (start, end_excl) = expand_activation_time::<LOG_LIFETIME>(0, 3);
    assert!((start == 0) && (end_excl == 2));

    let (start, end_excl) = expand_activation_time::<LOG_LIFETIME>(1, 8);
    assert!((start == 0) && (end_excl == 3));

    let (start, end_excl) = expand_activation_time::<LOG_LIFETIME>(8, 5);
    assert!((start == 2) && (end_excl == 4));

    let (start, end_excl) = expand_activation_time::<LOG_LIFETIME>(12, 2);
    assert!((start == 2) && (end_excl == 4));
}

#[test]
fn generalized_xmss_test_ssz_encoding_structure() {
    type Sig = Sig155;
    const LOG_LIFETIME: usize = 6;

    let mut rng = StdRng::seed_from_u64(41);

    let root = TestTH::rand_domain(&mut rng);
    let parameter = TestTH::rand_parameter(&mut rng);
    let public_key = GeneralizedXMSSPublicKey::<TestTH> { root, parameter, _hash: PhantomData };
    let encoded = public_key.as_ssz_bytes();
    assert_eq!(encoded.len(), 64);
    assert_eq!(&encoded[..32], root);
    let decoded = GeneralizedXMSSPublicKey::<TestTH>::from_ssz_bytes(&encoded).unwrap();
    assert_eq!(public_key.root, decoded.root);
    assert_eq!(public_key.parameter, decoded.parameter);

    let (pk, mut sk) = Sig::key_gen(&mut rng, 0, 1 << LOG_LIFETIME);
    let message: [u8; MESSAGE_LENGTH] = rng.random();
    let epoch = 5;
    let signature = Sig::sign(&mut sk, epoch, &message).unwrap();
    let sig_encoded = signature.as_ssz_bytes();
    let rho_size = signature.rho.ssz_bytes_len();
    assert!(sig_encoded.len() >= 4 + rho_size + 4);
    let offset_path = u32::from_le_bytes(sig_encoded[0..4].try_into().unwrap()) as usize;
    assert_eq!(offset_path, 4 + rho_size + 4);
    let sig_decoded = <Sig as SignatureScheme>::Signature::from_ssz_bytes(&sig_encoded).unwrap();
    assert!(Sig::verify(&pk, epoch, &message, &sig_decoded));

    let (_pk2, sk2) = Sig::key_gen(&mut rng, 0, 8);
    let sk_encoded = sk2.as_ssz_bytes();
    let prf_key_size = sk2.prf_key.ssz_bytes_len();
    let param_size = sk2.parameter.ssz_bytes_len();
    let fixed_part_size = prf_key_size + param_size + 8 + 8 + 4 + 8 + 4 + 4 + 4;
    assert!(sk_encoded.len() >= fixed_part_size);
    let activation_start = prf_key_size + param_size;
    let activation_epoch =
        u64::from_le_bytes(sk_encoded[activation_start..activation_start + 8].try_into().unwrap());
    assert_eq!(activation_epoch, sk2.activation_epoch);
    let sk_decoded = <Sig as SignatureScheme>::SecretKey::from_ssz_bytes(&sk_encoded).unwrap();
    let sk_reencoded = sk_decoded.as_ssz_bytes();
    assert_eq!(sk_encoded, sk_reencoded);
}

#[test]
fn generalized_xmss_test_ssz_decoding_errors() {
    type Sig = Sig155;

    let encoded = vec![0u8; 63];
    let result = GeneralizedXMSSPublicKey::<TestTH>::from_ssz_bytes(&encoded);
    assert!(matches!(result, Err(DecodeError::InvalidByteLength { len: 63, expected: 64 })));

    let encoded = vec![0u8; 8];
    let result = <Sig as SignatureScheme>::Signature::from_ssz_bytes(&encoded);
    assert!(matches!(result, Err(DecodeError::InvalidByteLength { len: 8, expected: 40 })));

    let mut encoded = vec![0u8; 128];
    encoded[0..4].copy_from_slice(&99u32.to_le_bytes());
    encoded[36..40].copy_from_slice(&78u32.to_le_bytes());
    let result = <Sig as SignatureScheme>::Signature::from_ssz_bytes(&encoded);
    assert!(matches!(result, Err(DecodeError::InvalidByteLength { len: 99, expected: 40 })));
}

fn assert_bytes_invalid<T>(result: Result<T, DecodeError>, expected_msg_part: &str) {
    match result {
        Err(DecodeError::BytesInvalid(msg)) => {
            assert!(
                msg.contains(expected_msg_part),
                "Error message '{}' did not contain expected part '{}'",
                msg,
                expected_msg_part
            );
        }
        Err(e) => panic!("Wrong error type. Expected BytesInvalid, got {:?}", e),
        Ok(_) => panic!("Should have failed with BytesInvalid, but succeeded"),
    }
}

#[test]
fn test_ssz_panic_safety_malicious_offsets() {
    type Sig = Sig155;
    type IE = IE155;

    let mut rng = StdRng::seed_from_u64(42);
    let dummy_prf_key = Blake3Prf::key_gen(&mut rng);
    let dummy_param = TestTH::rand_parameter(&mut rng);

    let prf_key_size = dummy_prf_key.ssz_bytes_len();
    let param_size = dummy_param.ssz_bytes_len();
    let u64_size = 8;
    let offset_size = 4;

    let fixed_part_len = prf_key_size
        + param_size
        + u64_size
        + u64_size
        + offset_size
        + u64_size
        + offset_size
        + offset_size
        + offset_size;

    // Reversed signature offsets.
    {
        let dummy_rho = IE::rand(&mut rng);
        let rho_size = dummy_rho.ssz_bytes_len();

        let sig_fixed_part_size = 4 + rho_size + 4;
        let mut encoded = vec![0u8; 200];
        encoded[0..4].copy_from_slice(&(sig_fixed_part_size as u32).to_le_bytes());
        let mut rho_buf = Vec::new();
        dummy_rho.ssz_append(&mut rho_buf);
        encoded[4..4 + rho_size].copy_from_slice(&rho_buf);

        let offset_hashes_pos = 4 + rho_size;
        encoded[offset_hashes_pos..offset_hashes_pos + 4].copy_from_slice(&10u32.to_le_bytes());

        let result = <Sig as SignatureScheme>::Signature::from_ssz_bytes(&encoded);
        assert_bytes_invalid(result, "Invalid variable offsets");
    }

    // Out-of-bounds signature offset.
    {
        let dummy_rho = IE::rand(&mut rng);
        let rho_size = dummy_rho.ssz_bytes_len();
        let sig_fixed_part_size = 4 + rho_size + 4;

        let mut encoded = vec![0u8; 100];
        encoded[0..4].copy_from_slice(&(sig_fixed_part_size as u32).to_le_bytes());
        let mut rho_buf = Vec::new();
        dummy_rho.ssz_append(&mut rho_buf);
        encoded[4..4 + rho_size].copy_from_slice(&rho_buf);

        let offset_hashes_pos = 4 + rho_size;
        encoded[offset_hashes_pos..offset_hashes_pos + 4].copy_from_slice(&200u32.to_le_bytes());

        let result = <Sig as SignatureScheme>::Signature::from_ssz_bytes(&encoded);
        assert_bytes_invalid(result, "len=100");
    }

    // Reversed secret-key offsets.
    {
        let mut encoded = vec![0u8; fixed_part_len + 100];
        let mut pos = 0;

        let mut prf_buf = Vec::new();
        dummy_prf_key.ssz_append(&mut prf_buf);
        encoded[pos..pos + prf_key_size].copy_from_slice(&prf_buf);
        pos += prf_key_size;

        let mut param_buf = Vec::new();
        dummy_param.ssz_append(&mut param_buf);
        encoded[pos..pos + param_size].copy_from_slice(&param_buf);
        pos += param_size;

        pos += 8;
        pos += 8;
        encoded[pos..pos + 4].copy_from_slice(&(fixed_part_len as u32).to_le_bytes());
        pos += 4;
        pos += 8;
        encoded[pos..pos + 4].copy_from_slice(&10u32.to_le_bytes());
        pos += 4;
        encoded[pos..pos + 4].copy_from_slice(&((fixed_part_len + 50) as u32).to_le_bytes());
        pos += 4;
        encoded[pos..pos + 4].copy_from_slice(&((fixed_part_len + 75) as u32).to_le_bytes());

        let result = <Sig as SignatureScheme>::SecretKey::from_ssz_bytes(&encoded);
        assert_bytes_invalid(result, "Invalid variable offsets");
    }
}

#[test]
fn generalized_xmss_test_ssz_determinism() {
    type Sig = Sig155;
    const LOG_LIFETIME: usize = 6;

    let mut rng = StdRng::seed_from_u64(43);

    let root = TestTH::rand_domain(&mut rng);
    let parameter = TestTH::rand_parameter(&mut rng);
    let public_key = GeneralizedXMSSPublicKey::<TestTH> { root, parameter, _hash: PhantomData };
    let encoded1 = public_key.as_ssz_bytes();
    let encoded2 = public_key.as_ssz_bytes();
    assert_eq!(encoded1, encoded2);
    let (_pk, mut sk) = Sig::key_gen(&mut rng, 0, 1 << LOG_LIFETIME);
    let message: [u8; MESSAGE_LENGTH] = rng.random();
    let epoch = 5;
    let signature = Sig::sign(&mut sk, epoch, &message).unwrap();
    let sig_encoded1 = signature.as_ssz_bytes();
    let sig_encoded2 = signature.as_ssz_bytes();
    assert_eq!(sig_encoded1, sig_encoded2);
    let (_pk2, sk2) = Sig::key_gen(&mut rng, 0, 8);
    let sk_encoded1 = sk2.as_ssz_bytes();
    let sk_encoded2 = sk2.as_ssz_bytes();
    assert_eq!(sk_encoded1, sk_encoded2);
}

#[test]
fn test_ssz_signature_integration() {
    type Sig = Sig155;
    type TH = TestTH;
    const LOG_LIFETIME: usize = 6;

    let mut rng = StdRng::seed_from_u64(44);

    let (pk, mut sk) = Sig::key_gen(&mut rng, 0, 1 << LOG_LIFETIME);
    let message: [u8; MESSAGE_LENGTH] = rng.random();
    let epoch = 7;
    let signature = Sig::sign(&mut sk, epoch, &message).unwrap();
    assert!(Sig::verify(&pk, epoch, &message, &signature));

    let pk_encoded = pk.as_ssz_bytes();
    let pk_decoded = GeneralizedXMSSPublicKey::<TH>::from_ssz_bytes(&pk_encoded).unwrap();
    assert!(Sig::verify(&pk_decoded, epoch, &message, &signature));

    let sig_encoded = signature.as_ssz_bytes();
    let sig_decoded = <Sig as SignatureScheme>::Signature::from_ssz_bytes(&sig_encoded).unwrap();
    assert!(Sig::verify(&pk, epoch, &message, &sig_decoded));
    assert!(Sig::verify(&pk_decoded, epoch, &message, &sig_decoded));

    let sk_encoded = sk.as_ssz_bytes();
    let mut sk_decoded = <Sig as SignatureScheme>::SecretKey::from_ssz_bytes(&sk_encoded).unwrap();
    assert!(matches!(
        Sig::sign(&mut sk_decoded, epoch, &message),
        Err(SigningError::EpochAlreadyUsed { epoch: reused }) if reused == epoch
    ));
    let sig2 = Sig::sign(&mut sk_decoded, epoch + 1, &message).unwrap();
    assert!(Sig::verify(&pk, epoch + 1, &message, &sig2));
}

#[test]
fn key_generation_covers_the_requested_epochs() {
    type Sig = Sig155;
    let mut rng = StdRng::seed_from_u64(45);
    let (pk, sk) = Sig::key_gen(&mut rng, 13, 20);
    let activation = sk.get_activation_interval();
    assert!(activation.start <= 13);
    assert!(activation.end >= 33);
    assert!(activation.end <= Sig::LIFETIME);
    assert_eq!(activation.start % 8, 0);
    assert_eq!(activation.end % 8, 0);
    let prepared = sk.get_prepared_interval();
    assert_eq!(prepared.end - prepared.start, 16);
    let again = Sig::get_public_key(&sk);
    assert_eq!(again.root, pk.root);
    assert_eq!(again.parameter, pk.parameter);
}

#[test]
fn advancing_preparation_stops_at_the_end_of_activation() {
    type Sig = Sig155;
    let mut rng = StdRng::seed_from_u64(46);
    let (_pk, mut sk) = Sig::key_gen(&mut rng, 0, 16);
    let before = sk.get_prepared_interval();
    sk.advance_preparation();
    assert_eq!(sk.get_prepared_interval(), before);
}

#[test]
fn secret_key_with_unsorted_epochs_is_refused() {
    type Sig = Sig155;
    let mut rng = StdRng::seed_from_u64(47);
    let (_pk, mut sk) = Sig::key_gen(&mut rng, 0, 16);
    sk.used_epochs = vec![3, 1];
    let bytes = sk.as_ssz_bytes();
    assert_bytes_invalid(<Sig as SignatureScheme>::SecretKey::from_ssz_bytes(&bytes), "Consumed epochs");
    sk.used_epochs = vec![1, 3];
    let bytes = sk.as_ssz_bytes();
    let back = <Sig as SignatureScheme>::SecretKey::from_ssz_bytes(&bytes).unwrap();
    assert_eq!(back.used_epochs, vec![1, 3]);
}

#[test]
fn secret_key_with_prepared_window_outside_activation_is_refused() {
    type Sig = Sig155;
    let mut rng = StdRng::seed_from_u64(48);
    let (_pk, mut sk) = Sig::key_gen(&mut rng, 0, 16);
    sk.left_bottom_tree_index = 5;
    let bytes = sk.as_ssz_bytes();
    assert_bytes_invalid(<Sig as SignatureScheme>::SecretKey::from_ssz_bytes(&bytes), "Prepared interval");
    sk.left_bottom_tree_index = 1;
    sk.activation_epoch = 8;
    sk.num_active_epochs = u64::MAX;
    let bytes = sk.as_ssz_bytes();
    assert_bytes_invalid(<Sig as SignatureScheme>::SecretKey::from_ssz_bytes(&bytes), "overflows");
}

#[test]
fn signing_outside_the_activation_interval_is_refused() {
    type Sig = Sig155;
    let mut rng = StdRng::seed_from_u64(49);
    let (_pk, mut sk) = Sig::key_gen(&mut rng, 16, 16);
    let message = [0u8; MESSAGE_LENGTH];
    assert!(matches!(Sig::sign(&mut sk, 3, &message), Err(SigningError::EpochOutsideActivation { epoch: 3 })));
    assert!(sk.used_epochs.is_empty());
}

#[test]
fn message_hash_of_the_encoding_matches_the_message_hash() {
    let parameter = [2u8; 32];
    let message = [3u8; MESSAGE_LENGTH];
    let rho = [4u8; 32];
    let chunks = MH155::apply(&parameter, 9, &rho, &message).unwrap();
    match IE155::encode(&parameter, &message, &rho, 9) {
        Ok(c) => assert_eq!(c, chunks),
        Err(_) => assert_ne!(chunks.iter().map(|x| *x as usize).sum::<usize>(), SUM155),
    }
}

#[test]
fn unreachable_target_sum_exhausts_the_attempts() {
    type TH = Blake3TweakHash<64>;
    type MH = Blake3MessageHash<64, 2>;
    type IE = TargetSumEncoding<MH, 64>;
    type Sig = GeneralizedXMSSSignatureScheme<Blake3Prf, IE, TH, 4>;

    let mut rng = StdRng::seed_from_u64(50);
    let (_pk, mut sk) = Sig::key_gen(&mut rng, 0, Sig::LIFETIME as usize);
    let message = [1u8; MESSAGE_LENGTH];
    assert!(matches!(
        Sig::sign(&mut sk, 0, &message),
        Err(SigningError::EncodingAttemptsExceeded { attempts: 100_000 })
    ));
    assert!(sk.used_epochs.is_empty());
}

type SecretKey155 = <Sig155 as SignatureScheme>::SecretKey;

/// A secret key encoding with empty trees and the given consumed epochs.
fn secret_key_bytes(used: &[u32]) -> Vec<u8> {
    let mut b = vec![0u8; 64];
    b.extend_from_slice(&0u64.to_le_bytes());
    b.extend_from_slice(&64u64.to_le_bytes());
    b.extend_from_slice(&104u32.to_le_bytes());
    b.extend_from_slice(&0u64.to_le_bytes());
    b.extend_from_slice(&124u32.to_le_bytes());
    b.extend_from_slice(&144u32.to_le_bytes());
    b.extend_from_slice(&164u32.to_le_bytes());
    for _ in 0..3 {
        b.extend_from_slice(&0u64.to_le_bytes());
        b.extend_from_slice(&0u64.to_le_bytes());
        b.extend_from_slice(&20u32.to_le_bytes());
    }
    for e in used {
        b.extend_from_slice(&e.to_le_bytes());
    }
    b
}

#[test]
fn decoded_secret_key_reports_its_intervals() {
    let b = secret_key_bytes(&[3, 5]);
    assert_eq!(b.len(), 172);
    let sk = SecretKey155::from_ssz_bytes(&b).unwrap();
    assert_eq!(sk.as_ssz_bytes(), b);
    assert_eq!(sk.get_activation_interval(), 0..64);
    assert_eq!(sk.get_prepared_interval(), 0..16);
}

#[test]
fn repeated_consumed_epoch_is_refused_with_its_message() {
    let b = secret_key_bytes(&[3, 3]);
    match SecretKey155::from_ssz_bytes(&b) {
        Err(DecodeError::BytesInvalid(msg)) => {
            assert_eq!(msg, "Consumed epochs must be unique, sorted, active, and prepared")
        }
        _ => panic!("expected BytesInvalid"),
    }
}

#[test]
fn secret_key_offsets_message_names_the_offsets() {
    let mut b = secret_key_bytes(&[]);
    b[92..96].copy_from_slice(&150u32.to_le_bytes());
    match SecretKey155::from_ssz_bytes(&b) {
        Err(DecodeError::BytesInvalid(msg)) => {
            assert_eq!(msg, "Invalid variable offsets: top=104 left=150 right=144 used=164 len=164")
        }
        _ => panic!("expected BytesInvalid"),
    }
}

#[test]
fn signature_offsets_message_names_the_offsets() {
    let mut b = vec![0u8; 45];
    b[0..4].copy_from_slice(&40u32.to_le_bytes());
    b[36..40].copy_from_slice(&1000u32.to_le_bytes());
    match <Sig155 as SignatureScheme>::Signature::from_ssz_bytes(&b) {
        Err(DecodeError::BytesInvalid(msg)) => {
            assert_eq!(msg, "Invalid variable offsets: path=40 hashes=1000 len=45")
        }
        _ => panic!("expected BytesInvalid"),
    }
}

#[test]
fn public_key_decodes_every_64_bytes() {
    let mut b = [0u8; 64];
    for (i, x) in b.iter_mut().enumerate() {
        *x = i as u8;
    }
    let pk = GeneralizedXMSSPublicKey::<TestTH>::from_ssz_bytes(&b).unwrap();
    assert_eq!(&pk.root[..], &b[0..32]);
    assert_eq!(&pk.parameter[..], &b[32..64]);
    assert_eq!(pk.as_ssz_bytes(), b.to_vec());
}

#[test]
fn failed_signing_leaves_the_key_unchanged() {
    let mut rng = StdRng::seed_from_u64(5);
    let (_pk, mut sk) = Sig155::key_gen(&mut rng, 0, Sig155::LIFETIME as usize);
    let message = [1u8; MESSAGE_LENGTH];
    Sig155::sign(&mut sk, 2, &message).unwrap();
    let before = sk.as_ssz_bytes();
    assert_eq!(Sig155::sign(&mut sk, 2, &message).err(), Some(SigningError::EpochAlreadyUsed { epoch: 2 }));
    assert_eq!(Sig155::sign(&mut sk, 64, &message).err(), Some(SigningError::EpochOutsideActivation { epoch: 64 }));
    assert_eq!(sk.as_ssz_bytes(), before);
}

#[test]
fn advancing_moves_the_right_tree_to_the_left() {
    let mut rng = StdRng::seed_from_u64(6);
    let (pk, mut sk) = Sig155::key_gen(&mut rng, 0, Sig155::LIFETIME as usize);
    let right = sk.right_bottom_tree.as_ssz_bytes();
    sk.advance_preparation();
    assert_eq!(sk.left_bottom_tree.as_ssz_bytes(), right);
    let after = Sig155::get_public_key(&sk);
    assert_eq!(after.root, pk.root);
    assert_eq!(after.parameter, pk.parameter);
}

#[test]
fn generated_keys_and_signatures_can_be_encoded() {
    let mut rng = StdRng::seed_from_u64(8);
    let (_pk, mut sk) = Sig155::key_gen(&mut rng, 0, Sig155::LIFETIME as usize);
    assert!(sk.is_encodable());
    let signature = Sig155::sign(&mut sk, 1, &[2u8; MESSAGE_LENGTH]).unwrap();
    assert!(signature.is_encodable());
    assert!(sk.is_encodable());
    let decoded = SecretKey155::from_ssz_bytes(&sk.as_ssz_bytes()).unwrap();
    assert!(decoded.is_encodable());
    assert_eq!(decoded.as_ssz_bytes(), sk.as_ssz_bytes());
}

#[test]
fn decoded_key_is_consistent_and_signs() {
    let mut rng = StdRng::seed_from_u64(9);
    let (pk, sk) = Sig155::key_gen(&mut rng, 0, Sig155::LIFETIME as usize);
    assert!(sk.is_consistent());
    let mut decoded = SecretKey155::from_ssz_bytes(&sk.as_ssz_bytes()).unwrap();
    assert!(decoded.is_consistent());
    assert_eq!(decoded.get_activation_interval(), sk.get_activation_interval());
    assert_eq!(decoded.get_prepared_interval(), sk.get_prepared_interval());
    assert_eq!(Sig155::get_public_key(&decoded).root, pk.root);
    let message = [3u8; MESSAGE_LENGTH];
    let signature = Sig155::sign(&mut decoded, 4, &message).unwrap();
    assert!(Sig155::verify(&pk, 4, &message, &signature));
}

#[test]
fn tampered_keys_are_not_consistent() {
    let mut rng = StdRng::seed_from_u64(10);
    let (_pk, sk) = Sig155::key_gen(&mut rng, 0, Sig155::LIFETIME as usize);
    let bytes = sk.as_ssz_bytes();

    let mut bottom = SecretKey155::from_ssz_bytes(&bytes).unwrap();
    bottom.left_bottom_tree.layers[0].nodes[0][0] ^= 1;
    assert!(!bottom.is_consistent());

    let mut top = SecretKey155::from_ssz_bytes(&bytes).unwrap();
    let last = top.top_tree.layers.len() - 1;
    top.top_tree.layers[last].nodes[0][0] ^= 1;
    assert!(!top.is_consistent());

    let mut key = SecretKey155::from_ssz_bytes(&bytes).unwrap();
    key.prf_key[0] ^= 1;
    assert!(!key.is_consistent());

    let empty = SecretKey155::from_ssz_bytes(&secret_key_bytes(&[3, 5])).unwrap();
    assert!(!empty.is_consistent());
}

#[test]
fn aligned_activation_request_is_kept() {
    assert_eq!(expand_activation_time::<8>(32, 48), (2, 5));
    assert_eq!(expand_activation_time::<8>(17, 40), (1, 4));
}

#[test]
fn decoded_signature_verifies() {
    let mut rng = StdRng::seed_from_u64(11);
    let (pk, mut sk) = Sig155::key_gen(&mut rng, 0, Sig155::LIFETIME as usize);
    let message = [7u8; MESSAGE_LENGTH];
    let signature = Sig155::sign(&mut sk, 6, &message).unwrap();
    let bytes = signature.as_ssz_bytes();
    let decoded = <Sig155 as SignatureScheme>::Signature::from_ssz_bytes(&bytes).unwrap();
    assert_eq!(decoded.as_ssz_bytes(), bytes);
    assert!(Sig155::verify(&pk, 6, &message, &decoded));
    let decoded_pk = GeneralizedXMSSPublicKey::<TestTH>::from_ssz_bytes(&pk.as_ssz_bytes()).unwrap();
    assert!(Sig155::verify(&decoded_pk, 6, &message, &decoded));
}
