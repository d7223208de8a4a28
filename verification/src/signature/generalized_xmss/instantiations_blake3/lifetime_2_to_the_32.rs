//! Experimental long-lifetime instantiation using uniform base-8 chunks.

use vstd::prelude::*;
use crate::inc_encoding::target_sum::TargetSumEncoding;
use crate::signature::generalized_xmss::{
    GeneralizedXMSSPublicKey, GeneralizedXMSSSecretKey, GeneralizedXMSSSignature, GeneralizedXMSSSignatureScheme,
};
use crate::symmetric::message_hash::blake3::Blake3MessageHash;
use crate::symmetric::prf::blake3::Blake3Prf;
use crate::symmetric::tweak_hash::blake3::Blake3TweakHash;

verus! {

type MH = Blake3MessageHash<46, 8>;
type TH = Blake3TweakHash<46>;
type IE = TargetSumEncoding<MH, 200>;

pub type SIGTargetSumLifetime32Dim46Base8 = GeneralizedXMSSSignatureScheme<Blake3Prf, IE, TH, 32>;
pub type PubKeyTargetSumLifetime32Dim46Base8 = GeneralizedXMSSPublicKey<TH>;
pub type SecretKeyTargetSumLifetime32Dim46Base8 = GeneralizedXMSSSecretKey<Blake3Prf, IE, TH, 32>;
pub type SigTargetSumLifetime32Dim46Base8 = GeneralizedXMSSSignature<IE, TH>;

} // verus!
