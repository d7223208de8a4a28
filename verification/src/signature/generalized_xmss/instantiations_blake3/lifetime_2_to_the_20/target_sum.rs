//! Target-sum instantiations with lifetime 2^20.

use vstd::prelude::*;
use vstd::arithmetic::power2::lemma2_to64;
use crate::signature::SignatureScheme;
use crate::signature::generalized_xmss::instantiations_blake3::lemma_target_sum_configured;
use crate::inc_encoding::target_sum::TargetSumEncoding;
use crate::signature::generalized_xmss::GeneralizedXMSSSignatureScheme;
use crate::symmetric::message_hash::blake3::Blake3MessageHash;
use crate::symmetric::prf::blake3::Blake3Prf;
use crate::symmetric::tweak_hash::blake3::Blake3TweakHash;

verus! {

const LOG_LIFETIME: usize = 20;

type MHw1 = Blake3MessageHash<155, 2>;
type THw1 = Blake3TweakHash<155>;
type IEw1<const TARGET_SUM: usize> = TargetSumEncoding<MHw1, TARGET_SUM>;
pub type SIGTargetSumLifetime20W1NoOff = GeneralizedXMSSSignatureScheme<Blake3Prf, IEw1<78>, THw1, LOG_LIFETIME>;
pub type SIGTargetSumLifetime20W1Off10 = GeneralizedXMSSSignatureScheme<Blake3Prf, IEw1<86>, THw1, LOG_LIFETIME>;

type MHw2 = Blake3MessageHash<78, 4>;
type THw2 = Blake3TweakHash<78>;
type IEw2<const TARGET_SUM: usize> = TargetSumEncoding<MHw2, TARGET_SUM>;
pub type SIGTargetSumLifetime20W2NoOff = GeneralizedXMSSSignatureScheme<Blake3Prf, IEw2<117>, THw2, LOG_LIFETIME>;
pub type SIGTargetSumLifetime20W2Off10 = GeneralizedXMSSSignatureScheme<Blake3Prf, IEw2<129>, THw2, LOG_LIFETIME>;

type MHw4 = Blake3MessageHash<39, 16>;
type THw4 = Blake3TweakHash<39>;
type IEw4<const TARGET_SUM: usize> = TargetSumEncoding<MHw4, TARGET_SUM>;
pub type SIGTargetSumLifetime20W4NoOff = GeneralizedXMSSSignatureScheme<Blake3Prf, IEw4<293>, THw4, LOG_LIFETIME>;
pub type SIGTargetSumLifetime20W4Off10 = GeneralizedXMSSSignatureScheme<Blake3Prf, IEw4<322>, THw4, LOG_LIFETIME>;

type MHw8 = Blake3MessageHash<20, 256>;
type THw8 = Blake3TweakHash<20>;
type IEw8<const TARGET_SUM: usize> = TargetSumEncoding<MHw8, TARGET_SUM>;
pub type SIGTargetSumLifetime20W8NoOff = GeneralizedXMSSSignatureScheme<Blake3Prf, IEw8<2550>, THw8, LOG_LIFETIME>;
pub type SIGTargetSumLifetime20W8Off10 = GeneralizedXMSSSignatureScheme<Blake3Prf, IEw8<2805>, THw8, LOG_LIFETIME>;

/// Every instantiation here is admissible, with a lifetime of `2^20` epochs.
pub proof fn lemma_instantiations_configured()
    ensures
        SIGTargetSumLifetime20W1NoOff::spec_well_configured(),
        SIGTargetSumLifetime20W1NoOff::LIFETIME == 1048576,
        SIGTargetSumLifetime20W1Off10::spec_well_configured(),
        SIGTargetSumLifetime20W1Off10::LIFETIME == 1048576,
        SIGTargetSumLifetime20W2NoOff::spec_well_configured(),
        SIGTargetSumLifetime20W2NoOff::LIFETIME == 1048576,
        SIGTargetSumLifetime20W2Off10::spec_well_configured(),
        SIGTargetSumLifetime20W2Off10::LIFETIME == 1048576,
        SIGTargetSumLifetime20W4NoOff::spec_well_configured(),
        SIGTargetSumLifetime20W4NoOff::LIFETIME == 1048576,
        SIGTargetSumLifetime20W4Off10::spec_well_configured(),
        SIGTargetSumLifetime20W4Off10::LIFETIME == 1048576,
        SIGTargetSumLifetime20W8NoOff::spec_well_configured(),
        SIGTargetSumLifetime20W8NoOff::LIFETIME == 1048576,
        SIGTargetSumLifetime20W8Off10::spec_well_configured(),
        SIGTargetSumLifetime20W8Off10::LIFETIME == 1048576,
{
    lemma2_to64();
    lemma_target_sum_configured::<155, 2, 78, LOG_LIFETIME>();
    lemma_target_sum_configured::<155, 2, 86, LOG_LIFETIME>();
    lemma_target_sum_configured::<78, 4, 117, LOG_LIFETIME>();
    lemma_target_sum_configured::<78, 4, 129, LOG_LIFETIME>();
    lemma_target_sum_configured::<39, 16, 293, LOG_LIFETIME>();
    lemma_target_sum_configured::<39, 16, 322, LOG_LIFETIME>();
    lemma_target_sum_configured::<20, 256, 2550, LOG_LIFETIME>();
    lemma_target_sum_configured::<20, 256, 2805, LOG_LIFETIME>();
}

} // verus!
