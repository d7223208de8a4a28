//! Concrete instantiations that use BLAKE3 end to end.

use vstd::prelude::*;
use vstd::arithmetic::power2::pow2;
use crate::inc_encoding::target_sum::TargetSumEncoding;
use crate::signature::SignatureScheme;
use crate::signature::generalized_xmss::GeneralizedXMSSSignatureScheme;
use crate::symmetric::message_hash::blake3::Blake3MessageHash;
use crate::symmetric::prf::blake3::Blake3Prf;
use crate::symmetric::tweak_hash::blake3::Blake3TweakHash;

/// Instantiations with lifetime 2^18.
pub mod lifetime_2_to_the_18;
/// Instantiations with lifetime 2^20.
pub mod lifetime_2_to_the_20;
/// Experimental long-lifetime instantiation using uniform base-8 chunks.
pub mod lifetime_2_to_the_32;

verus! {

/// A BLAKE3 target-sum scheme is admissible when its base is from 2 to 256,
/// its dimension from 1 to 256 and equal to the number of chains that the
/// tweakable hash takes, its target sum at most `DIMENSION * (BASE - 1)`, and
/// its lifetime exponent even, from 4 to 32 and below the width of `usize`.
pub proof fn lemma_target_sum_configured<
    const DIMENSION: usize,
    const BASE: usize,
    const TARGET_SUM: usize,
    const LOG_LIFETIME: usize,
>()
    requires
        2 <= BASE <= 256,
        1 <= DIMENSION <= 256,
        TARGET_SUM <= DIMENSION * (BASE - 1),
        LOG_LIFETIME % 2 == 0,
        4 <= LOG_LIFETIME <= 32,
        LOG_LIFETIME < usize::BITS,
    ensures
        GeneralizedXMSSSignatureScheme::<
            Blake3Prf,
            TargetSumEncoding<Blake3MessageHash<DIMENSION, BASE>, TARGET_SUM>,
            Blake3TweakHash<DIMENSION>,
            LOG_LIFETIME,
        >::spec_well_configured(),
        GeneralizedXMSSSignatureScheme::<
            Blake3Prf,
            TargetSumEncoding<Blake3MessageHash<DIMENSION, BASE>, TARGET_SUM>,
            Blake3TweakHash<DIMENSION>,
            LOG_LIFETIME,
        >::LIFETIME == pow2(LOG_LIFETIME as nat),
{
    Blake3MessageHash::<DIMENSION, BASE>::lemma_parameters();
    TargetSumEncoding::<Blake3MessageHash<DIMENSION, BASE>, TARGET_SUM>::lemma_parameters();
    GeneralizedXMSSSignatureScheme::<
        Blake3Prf,
        TargetSumEncoding<Blake3MessageHash<DIMENSION, BASE>, TARGET_SUM>,
        Blake3TweakHash<DIMENSION>,
        LOG_LIFETIME,
    >::lemma_lifetime();
}

} // verus!
