//! Incomparable encodings of messages into codewords.

use vstd::prelude::*;
use crate::{HASH_LENGTH, MESSAGE_LENGTH};

pub mod target_sum;

verus! {

/// Maps messages to fixed-length, pairwise-incomparable codewords.
pub trait IncomparableEncoding {
    type Error;

    /// Number of codeword entries.
    const DIMENSION: usize;

    /// Maximum encoding attempts.
    const MAX_TRIES: usize;

    /// Codeword alphabet size. Entries lie in `0..BASE` and fit in `u8`.
    const BASE: usize;

    /// Whether the encoding's constants are admissible (the conditions that
    /// the encoding checks when it is instantiated).
    spec fn spec_well_configured() -> bool;

    /// The codeword of `(parameter, message, randomness, epoch)`, or `None`
    /// when the code constraint is not met.
    spec fn spec_encode(parameter: Seq<u8>, message: Seq<u8>, randomness: Seq<u8>, epoch: u32) -> Option<Seq<u8>>;

    /// An admissible encoding has entries in `u8` and at most 256 of them.
    proof fn lemma_well_configured()
        requires
            Self::spec_well_configured(),
        ensures
            2 <= Self::BASE <= 256,
            1 <= Self::DIMENSION <= 256,
    ;

    /// Every codeword has `DIMENSION` entries in `0..BASE`.
    proof fn lemma_encode_shape(parameter: Seq<u8>, message: Seq<u8>, randomness: Seq<u8>, epoch: u32)
        requires
            Self::spec_well_configured(),
        ensures
            Self::spec_encode(parameter, message, randomness, epoch) matches Some(c) ==> {
                &&& c.len() == Self::DIMENSION
                &&& forall|i: int| 0 <= i < c.len() ==> (#[trigger] c[i]) < Self::BASE
            },
    ;

    /// Samples encoding randomness.
    fn rand(rng: &mut rand::rngs::StdRng) -> [u8; HASH_LENGTH];

    /// Encodes a message, or returns an error when the code constraint is not met.
    fn encode(
        parameter: &[u8; HASH_LENGTH],
        message: &[u8; MESSAGE_LENGTH],
        randomness: &[u8; HASH_LENGTH],
        epoch: u32,
    ) -> (r: Result<Vec<u8>, Self::Error>)
        requires
            Self::spec_well_configured(),
        ensures
            match r {
                Ok(c) => Self::spec_encode(parameter@, message@, randomness@, epoch) == Some(c@),
                Err(_) => Self::spec_encode(parameter@, message@, randomness@, epoch) is None,
            },
    ;
}

} // verus!
