use leansig::symmetric::prf::blake3::Blake3Prf;
use leansig::symmetric::prf::Pseudorandom;
use leansig::{HASH_LENGTH, MESSAGE_LENGTH};

#[test]
fn domains_are_deterministic_and_separated() {
    let key = [7u8; HASH_LENGTH];
    let message = [9u8; MESSAGE_LENGTH];

    let chain = Blake3Prf::get_domain_element(&key, 3, 4);
    assert_eq!(
        chain,
        [
            32, 218, 144, 129, 118, 17, 106, 65, 19, 162, 247, 228, 198, 2, 64, 89, 134, 144, 192, 54, 27, 162, 204,
            206, 143, 110, 102, 104, 126, 89, 128, 233,
        ]
    );
    assert_eq!(chain, Blake3Prf::get_domain_element(&key, 3, 4));
    assert_ne!(chain, Blake3Prf::get_domain_element(&key, 3, 5));

    let rho = Blake3Prf::get_randomness(&key, 3, &message, 4);
    assert_eq!(
        rho,
        [
            237, 23, 122, 244, 23, 242, 56, 163, 59, 240, 132, 71, 68, 254, 73, 116, 94, 104, 5, 163, 225, 79, 141,
            216, 247, 123, 225, 189, 36, 136, 85, 51,
        ]
    );
    assert_eq!(rho, Blake3Prf::get_randomness(&key, 3, &message, 4));
    assert_ne!(rho, Blake3Prf::get_randomness(&key, 3, &message, 5));
    assert_ne!(chain, rho);
}

#[test]
fn four_domain_elements_match_single_calls() {
    let key = [5u8; HASH_LENGTH];
    let epochs = [0u32, 1, 2, 1000];
    let four = Blake3Prf::get_domain_elements_4(&key, epochs, 6);
    for lane in 0..4 {
        assert_eq!(four[lane], Blake3Prf::get_domain_element(&key, epochs[lane], 6));
    }
    assert_ne!(four[0], four[1]);
}

#[test]
fn prf_output_depends_on_the_key_and_the_epoch() {
    let message = [1u8; MESSAGE_LENGTH];
    let a = Blake3Prf::get_randomness(&[0u8; HASH_LENGTH], 0, &message, 0);
    let b = Blake3Prf::get_randomness(&[1u8; HASH_LENGTH], 0, &message, 0);
    let c = Blake3Prf::get_randomness(&[0u8; HASH_LENGTH], 1, &message, 0);
    assert_ne!(a, b);
    assert_ne!(a, c);
    assert_ne!(Blake3Prf::get_domain_element(&[0u8; HASH_LENGTH], 0, 0), Blake3Prf::get_domain_element(&[0u8; HASH_LENGTH], 1, 0));
}
