//! The target-sum encoding: message-hash outputs whose chunks sum to a fixed
//! target.

use vstd::prelude::*;
use super::IncomparableEncoding;
use crate::symmetric::message_hash::MessageHash;
use crate::{HASH_LENGTH, MESSAGE_LENGTH};

verus! {

/// Target-sum encoding errors.
#[derive(Debug)]
pub enum TargetSumError<E> {
    /// The chunks do not sum to `TARGET_SUM`.
    Mismatch { expected: usize, actual: usize },
    /// Message hashing failed.
    HashError(E),
}

/// Accepts message-hash outputs whose entries sum to `TARGET_SUM`.
///
/// A target near `MH::DIMENSION * (MH::BASE - 1) / 2` gives the highest
/// acceptance rate.
pub struct TargetSumEncoding<MH: MessageHash, const TARGET_SUM: usize> {
    _marker_mh: std::marker::PhantomData<MH>,
}

/// The sum of the entries of a chunk sequence.
pub open spec fn chunk_sum(chunks: Seq<u8>) -> nat
    decreases chunks.len(),
{
    if chunks.len() == 0 {
        0
    } else {
        chunk_sum(chunks.drop_last()) + chunks.last() as nat
    }
}

/// A sum of `n` bytes is at most `255 * n`.
pub proof fn lemma_chunk_sum_bound(chunks: Seq<u8>)
    ensures
        chunk_sum(chunks) <= 255 * chunks.len(),
    decreases chunks.len(),
{
    if chunks.len() > 0 {
        lemma_chunk_sum_bound(chunks.drop_last());
    }
}

/// Sums the chunks.
fn sum_chunks(chunks: &Vec<u8>) -> (s: u32)
    requires
        chunks@.len() <= 256,
    ensures
        s == chunk_sum(chunks@),
{
    let mut sum: u32 = 0;
    let n = chunks.len();
    for i in 0..n
        invariant
            n == chunks@.len(),
            n <= 256,
            sum == chunk_sum(chunks@.subrange(0, i as int)),
    {
        proof {
            assert(chunks@.subrange(0, i + 1).drop_last() =~= chunks@.subrange(0, i as int));
            lemma_chunk_sum_bound(chunks@.subrange(0, i as int));
        }
        sum = sum + chunks[i] as u32;
    }
    assert(chunks@.subrange(0, n as int) =~= chunks@);
    sum
}

impl<MH: MessageHash, const TARGET_SUM: usize> TargetSumEncoding<MH, TARGET_SUM> {
    /// The encoding has the message hash's dimension and base, and tries
    /// `100_000` randomness values when signing.
    pub proof fn lemma_parameters()
        ensures
            <Self as IncomparableEncoding>::DIMENSION == MH::DIMENSION,
            <Self as IncomparableEncoding>::BASE == MH::BASE,
            <Self as IncomparableEncoding>::MAX_TRIES == 100_000,
    {
    }
}

impl<MH: MessageHash, const TARGET_SUM: usize> IncomparableEncoding for TargetSumEncoding<MH, TARGET_SUM> {
    type Error = TargetSumError<MH::Error>;

    const DIMENSION: usize = MH::DIMENSION;

    /// Limit for deterministic randomness retries during signing.
    const MAX_TRIES: usize = 100_000;

    const BASE: usize = MH::BASE;

    open spec fn spec_well_configured() -> bool {
        &&& 2 <= MH::BASE <= 256
        &&& 1 <= MH::DIMENSION <= 256
        &&& TARGET_SUM <= MH::DIMENSION * (MH::BASE - 1)
    }

    open spec fn spec_encode(parameter: Seq<u8>, message: Seq<u8>, randomness: Seq<u8>, epoch: u32) -> Option<Seq<u8>> {
        match MH::spec_apply(parameter, epoch, randomness, message) {
            Some(c) => if chunk_sum(c) == TARGET_SUM { Some(c) } else { None },
            None => None,
        }
    }

    proof fn lemma_well_configured() {
    }

    proof fn lemma_encode_shape(parameter: Seq<u8>, message: Seq<u8>, randomness: Seq<u8>, epoch: u32) {
        MH::lemma_apply_shape(parameter, epoch, randomness, message);
    }

    fn rand(rng: &mut rand::rngs::StdRng) -> [u8; HASH_LENGTH] {
        MH::rand(rng)
    }

    fn encode(
        parameter: &[u8; HASH_LENGTH],
        message: &[u8; MESSAGE_LENGTH],
        randomness: &[u8; HASH_LENGTH],
        epoch: u32,
    ) -> (r: Result<Vec<u8>, Self::Error>)
        ensures
            match r {
                Ok(c) => chunk_sum(c@) == TARGET_SUM,
                Err(TargetSumError::Mismatch { expected, actual }) => {
                    &&& MH::spec_apply(parameter@, epoch, randomness@, message@) matches Some(c)
                    &&& expected == TARGET_SUM
                    &&& actual == chunk_sum(c)
                    &&& actual != TARGET_SUM
                },
                Err(TargetSumError::HashError(e)) => {
                    &&& MH::spec_apply(parameter@, epoch, randomness@, message@) is None
                    &&& e == MH::spec_apply_error(parameter@, epoch, randomness@, message@)
                },
            },
    {
        proof {
            MH::lemma_apply_shape(parameter@, epoch, randomness@, message@);
        }
        let chunks = match MH::apply(parameter, epoch, randomness, message) {
            Ok(c) => c,
            Err(e) => { return Err(TargetSumError::HashError(e)); },
        };
        let sum = sum_chunks(&chunks);
        if sum as usize == TARGET_SUM {
            Ok(chunks)
        } else {
            Err(TargetSumError::Mismatch { expected: TARGET_SUM, actual: sum as usize })
        }
    }
}

} // verus!
