//! Message hashing into fixed-length chunk vectors.

use vstd::prelude::*;
use crate::{HASH_LENGTH, MESSAGE_LENGTH};

pub mod blake3;

verus! {

/// Hashes messages into encoding chunks.
pub trait MessageHash {
    type Error;

    /// Number of output chunks.
    const DIMENSION: usize;

    /// Output alphabet size. Must fit in `u8`.
    const BASE: usize;

    /// The chunks of `(parameter, epoch, randomness, message)`, or `None` when
    /// none can be produced.
    spec fn spec_apply(parameter: Seq<u8>, epoch: u32, randomness: Seq<u8>, message: Seq<u8>) -> Option<Seq<u8>>;

    /// The error returned where no chunks can be produced.
    spec fn spec_apply_error(parameter: Seq<u8>, epoch: u32, randomness: Seq<u8>, message: Seq<u8>) -> Self::Error;

    /// Every produced chunk sequence has `DIMENSION` chunks in `0..BASE`.
    proof fn lemma_apply_shape(parameter: Seq<u8>, epoch: u32, randomness: Seq<u8>, message: Seq<u8>)
        requires
            2 <= Self::BASE <= 256,
        ensures
            Self::spec_apply(parameter, epoch, randomness, message) matches Some(c) ==> {
                &&& c.len() == Self::DIMENSION
                &&& forall|i: int| 0 <= i < c.len() ==> (#[trigger] c[i]) < Self::BASE
            },
    ;

    /// Samples encoding randomness.
    fn rand(rng: &mut rand::rngs::StdRng) -> [u8; HASH_LENGTH];

    /// Returns `DIMENSION` chunks in `0..BASE`.
    fn apply(
        parameter: &[u8; HASH_LENGTH],
        epoch: u32,
        randomness: &[u8; HASH_LENGTH],
        message: &[u8; MESSAGE_LENGTH],
    ) -> (r: Result<Vec<u8>, Self::Error>)
        requires
            2 <= Self::BASE <= 256,
        ensures
            match r {
                Ok(c) => Self::spec_apply(parameter@, epoch, randomness@, message@) == Some(c@),
                Err(e) => {
                    &&& Self::spec_apply(parameter@, epoch, randomness@, message@) is None
                    &&& e == Self::spec_apply_error(parameter@, epoch, randomness@, message@)
                },
            },
    ;
}

} // verus!
