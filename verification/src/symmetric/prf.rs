//! Pseudorandom functions that derive chain starts and signing randomness.

use vstd::prelude::*;
use crate::{HASH_LENGTH, MESSAGE_LENGTH};

pub mod blake3;

verus! {

/// Pseudorandom functions used by the signer.
pub trait Pseudorandom {
    /// The hash-chain start derived for `(epoch, index)`.
    spec fn spec_domain_element(key: Seq<u8>, epoch: u32, index: u64) -> Seq<u8>;

    /// The encoding randomness derived for `(epoch, message, counter)`.
    spec fn spec_randomness(key: Seq<u8>, epoch: u32, message: Seq<u8>, counter: u64) -> Seq<u8>;

    /// Samples a PRF key.
    fn key_gen(rng: &mut rand::rngs::StdRng) -> [u8; HASH_LENGTH];

    /// Derives a hash-chain start.
    fn get_domain_element(key: &[u8; HASH_LENGTH], epoch: u32, index: u64) -> (r: [u8; HASH_LENGTH])
        ensures
            r@ == Self::spec_domain_element(key@, epoch, index),
    ;

    /// Derives four independent hash-chain starts for SIMD-friendly callers.
    fn get_domain_elements_4(key: &[u8; HASH_LENGTH], epochs: [u32; 4], index: u64) -> (r: [[u8; HASH_LENGTH]; 4])
        ensures
            forall|i: int| 0 <= i < 4 ==> (#[trigger] r@[i])@ == Self::spec_domain_element(key@, epochs@[i], index),
    {
        let a = Self::get_domain_element(key, epochs[0], index);
        let b = Self::get_domain_element(key, epochs[1], index);
        let c = Self::get_domain_element(key, epochs[2], index);
        let d = Self::get_domain_element(key, epochs[3], index);
        let r = [a, b, c, d];
        assert(r@[0] == a && r@[1] == b && r@[2] == c && r@[3] == d);
        r
    }

    /// Derives deterministic encoding randomness.
    fn get_randomness(
        key: &[u8; HASH_LENGTH],
        epoch: u32,
        message: &[u8; MESSAGE_LENGTH],
        counter: u64,
    ) -> (r: [u8; HASH_LENGTH])
        ensures
            r@ == Self::spec_randomness(key@, epoch, message@, counter),
    ;
}

} // verus!
