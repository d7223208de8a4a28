//! BLAKE3-based pseudorandom functions used by LeanSig.

use vstd::prelude::*;
use vstd::bytes::*;
use vstd::string::StringSliceAdditionalSpecFns;
use super::Pseudorandom;
use crate::primitives::{blake3_keyed_hash, keyed_hash, push_bytes, push_u32_le, push_u64_le, random_bytes};
use crate::{HASH_LENGTH, MESSAGE_LENGTH};

verus! {

/// Domain tag of chain starts.
pub const CHAIN_START_TAG: &'static str = "leansig-v1/prf-chain-start";

/// Domain tag of deterministic signing randomness.
pub const SIGNING_RANDOMNESS_TAG: &'static str = "leansig-v1/prf-signing-randomness";

/// Keyed BLAKE3 PRF for one-time-secret generation and deterministic signing randomness.
#[derive(Debug, Clone, Copy, Default)]
pub struct Blake3Prf;

/// The keyed-hash input of a chain start: tag, epoch and index, integers little-endian.
pub open spec fn chain_start_input(epoch: u32, index: u64) -> Seq<u8> {
    CHAIN_START_TAG.spec_bytes() + spec_u32_to_le_bytes(epoch) + spec_u64_to_le_bytes(index)
}

/// The keyed-hash input of signing randomness: tag, epoch, message and counter.
pub open spec fn signing_randomness_input(epoch: u32, message: Seq<u8>, counter: u64) -> Seq<u8> {
    SIGNING_RANDOMNESS_TAG.spec_bytes() + spec_u32_to_le_bytes(epoch) + message
        + spec_u64_to_le_bytes(counter)
}

impl Pseudorandom for Blake3Prf {
    open spec fn spec_domain_element(key: Seq<u8>, epoch: u32, index: u64) -> Seq<u8> {
        blake3_keyed_hash(key, chain_start_input(epoch, index))
    }

    open spec fn spec_randomness(key: Seq<u8>, epoch: u32, message: Seq<u8>, counter: u64) -> Seq<u8> {
        blake3_keyed_hash(key, signing_randomness_input(epoch, message, counter))
    }

    fn key_gen(rng: &mut rand::rngs::StdRng) -> [u8; HASH_LENGTH] {
        random_bytes(rng)
    }

    fn get_domain_element(key: &[u8; HASH_LENGTH], epoch: u32, index: u64) -> (r: [u8; HASH_LENGTH]) {
        let mut input: Vec<u8> = Vec::new();
        push_bytes(&mut input, CHAIN_START_TAG.as_bytes());
        push_u32_le(&mut input, epoch);
        push_u64_le(&mut input, index);
        keyed_hash(key, input.as_slice())
    }

    fn get_randomness(
        key: &[u8; HASH_LENGTH],
        epoch: u32,
        message: &[u8; MESSAGE_LENGTH],
        counter: u64,
    ) -> (r: [u8; HASH_LENGTH]) {
        let mut input: Vec<u8> = Vec::new();
        push_bytes(&mut input, SIGNING_RANDOMNESS_TAG.as_bytes());
        push_u32_le(&mut input, epoch);
        push_bytes(&mut input, message);
        push_u64_le(&mut input, counter);
        keyed_hash(key, input.as_slice())
    }
}

/// A chain start is keyed BLAKE3, under the PRF key, of the chain-start tag,
/// the whole epoch in four little-endian bytes and the index in eight.
pub proof fn lemma_domain_element_input(key: Seq<u8>, epoch: u32, index: u64)
    ensures
        Blake3Prf::spec_domain_element(key, epoch, index) == blake3_keyed_hash(
            key,
            CHAIN_START_TAG.spec_bytes() + spec_u32_to_le_bytes(epoch) + spec_u64_to_le_bytes(index),
        ),
{
}

/// Signing randomness is keyed BLAKE3, under the PRF key, of the signing tag,
/// the epoch in four little-endian bytes, the message and the counter in
/// eight little-endian bytes.
pub proof fn lemma_randomness_input(key: Seq<u8>, epoch: u32, message: Seq<u8>, counter: u64)
    ensures
        Blake3Prf::spec_randomness(key, epoch, message, counter) == blake3_keyed_hash(
            key,
            SIGNING_RANDOMNESS_TAG.spec_bytes() + spec_u32_to_le_bytes(epoch) + message + spec_u64_to_le_bytes(counter),
        ),
{
}

/// Distinct epochs or indices give distinct keyed-hash inputs for chain
/// starts: the input determines the epoch and the index.
pub proof fn lemma_chain_start_input_injective(e1: u32, i1: u64, e2: u32, i2: u64)
    requires
        chain_start_input(e1, i1) == chain_start_input(e2, i2),
    ensures
        e1 == e2,
        i1 == i2,
{
    let t = CHAIN_START_TAG.spec_bytes().len() as int;
    let a = chain_start_input(e1, i1);
    let b = chain_start_input(e2, i2);
    lemma_auto_spec_u32_to_from_le_bytes();
    lemma_auto_spec_u64_to_from_le_bytes();
    assert(a.subrange(t, t + 4) =~= spec_u32_to_le_bytes(e1));
    assert(b.subrange(t, t + 4) =~= spec_u32_to_le_bytes(e2));
    assert(a.subrange(t + 4, t + 12) =~= spec_u64_to_le_bytes(i1));
    assert(b.subrange(t + 4, t + 12) =~= spec_u64_to_le_bytes(i2));
}

/// Distinct epochs or counters give distinct keyed-hash inputs for signing
/// randomness of messages of one length.
pub proof fn lemma_signing_randomness_input_injective(e1: u32, m1: Seq<u8>, c1: u64, e2: u32, m2: Seq<u8>, c2: u64)
    requires
        m1.len() == m2.len(),
        signing_randomness_input(e1, m1, c1) == signing_randomness_input(e2, m2, c2),
    ensures
        e1 == e2,
        m1 == m2,
        c1 == c2,
{
    let t = SIGNING_RANDOMNESS_TAG.spec_bytes().len() as int;
    let n = m1.len() as int;
    let a = signing_randomness_input(e1, m1, c1);
    let b = signing_randomness_input(e2, m2, c2);
    lemma_auto_spec_u32_to_from_le_bytes();
    lemma_auto_spec_u64_to_from_le_bytes();
    assert(a.subrange(t, t + 4) =~= spec_u32_to_le_bytes(e1));
    assert(b.subrange(t, t + 4) =~= spec_u32_to_le_bytes(e2));
    assert(a.subrange(t + 4, t + 4 + n) =~= m1);
    assert(b.subrange(t + 4, t + 4 + n) =~= m2);
    assert(a.subrange(t + 4 + n, t + 12 + n) =~= spec_u64_to_le_bytes(c1));
    assert(b.subrange(t + 4 + n, t + 12 + n) =~= spec_u64_to_le_bytes(c2));
}

} // verus!
