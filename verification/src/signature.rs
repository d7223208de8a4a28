//! Stateful signature schemes and their secret keys.

use vstd::prelude::*;
use crate::MESSAGE_LENGTH;

pub mod generalized_xmss;

verus! {

/// Signing errors.
#[derive(Debug, PartialEq, Eq)]
pub enum SigningError {
    /// The epoch is outside the key's activation interval.
    EpochOutsideActivation { epoch: u32 },
    /// The key has not prepared this epoch.
    EpochNotPrepared { epoch: u32 },
    /// The key has already signed in this epoch.
    EpochAlreadyUsed { epoch: u32 },
    /// No valid codeword was found within the attempt limit.
    EncodingAttemptsExceeded { attempts: usize },
}

/// State needed to maintain the sliding window of prepared Merkle subtrees.
pub trait SignatureSchemeSecretKey {
    /// The key's structural invariant, which every operation keeps.
    spec fn spec_wf(&self) -> bool;

    /// First epoch covered by the key.
    spec fn spec_activation_start(&self) -> int;

    /// One past the last epoch covered by the key.
    spec fn spec_activation_end(&self) -> int;

    /// First epoch of the prepared window.
    spec fn spec_prepared_start(&self) -> int;

    /// One past the last epoch of the prepared window.
    spec fn spec_prepared_end(&self) -> int;

    /// Whether the key has recorded a signature in `epoch`.
    spec fn spec_epoch_used(&self, epoch: u32) -> bool;

    /// The bounds of both intervals can be computed in `u64`.
    spec fn spec_intervals_fit(&self) -> bool;

    /// Epochs covered by the key.
    fn get_activation_interval(&self) -> (r: std::ops::Range<u64>)
        requires
            self.spec_intervals_fit(),
        ensures
            r.start == self.spec_activation_start(),
            r.end == self.spec_activation_end(),
    ;

    /// Epochs covered by the two bottom trees currently in memory.
    fn get_prepared_interval(&self) -> (r: std::ops::Range<u64>)
        requires
            self.spec_intervals_fit(),
        ensures
            r.start == self.spec_prepared_start(),
            r.end == self.spec_prepared_end(),
    ;

    /// Drops the oldest bottom tree and prepares the next one, if it is active.
    fn advance_preparation(&mut self)
        requires
            old(self).spec_wf(),
        ensures
            final(self).spec_wf(),
            final(self).spec_activation_start() == old(self).spec_activation_start(),
            final(self).spec_activation_end() == old(self).spec_activation_end(),
    ;
}

/// Stateful hash-based signature scheme.
///
/// A key may sign once per epoch. See <https://eprint.iacr.org/2025/055.pdf>.
pub trait SignatureScheme {
    /// Public key.
    type PublicKey;

    /// Stateful secret key.
    type SecretKey: SignatureSchemeSecretKey;

    /// Signature.
    type Signature;

    /// Maximum number of epochs. Must be a power of two.
    const LIFETIME: u64;

    /// Whether the scheme's parameters are admissible (the conditions that the
    /// scheme checks when it is instantiated).
    spec fn spec_well_configured() -> bool;

    /// The public key that belongs to a secret key.
    spec fn spec_public_key(sk: &Self::SecretKey) -> Self::PublicKey;

    /// Whether `sig` is a valid signature of `message` at `epoch` under `pk`.
    spec fn spec_verify(pk: &Self::PublicKey, epoch: u32, message: Seq<u8>, sig: &Self::Signature) -> bool;

    /// Generates a key active for the requested epoch range.
    fn key_gen(
        rng: &mut rand::rngs::StdRng,
        activation_epoch: usize,
        num_active_epochs: usize,
    ) -> (r: (Self::PublicKey, Self::SecretKey))
        requires
            Self::spec_well_configured(),
            activation_epoch + num_active_epochs <= Self::LIFETIME,
            num_active_epochs > 0,
        ensures
            r.1.spec_wf(),
            r.0 == Self::spec_public_key(&r.1),
            r.1.spec_activation_start() <= activation_epoch,
            activation_epoch + num_active_epochs <= r.1.spec_activation_end() <= Self::LIFETIME,
            r.1.spec_prepared_start() == r.1.spec_activation_start(),
            forall|e: u32| !#[trigger] r.1.spec_epoch_used(e),
    ;

    /// Signs once at `epoch` and records the epoch in `sk`.
    ///
    /// Persist the updated key before releasing the signature. Restoring older key
    /// state can bypass epoch-reuse protection.
    fn sign(
        sk: &mut Self::SecretKey,
        epoch: u32,
        message: &[u8; MESSAGE_LENGTH],
    ) -> (r: Result<Self::Signature, SigningError>)
        requires
            old(sk).spec_wf(),
        ensures
            final(sk).spec_wf(),
            Self::spec_public_key(final(sk)) == Self::spec_public_key(old(sk)),
            final(sk).spec_activation_start() == old(sk).spec_activation_start(),
            final(sk).spec_activation_end() == old(sk).spec_activation_end(),
            final(sk).spec_prepared_start() == old(sk).spec_prepared_start(),
            final(sk).spec_prepared_end() == old(sk).spec_prepared_end(),
            r is Err ==> forall|e: u32| #[trigger] final(sk).spec_epoch_used(e) == old(sk).spec_epoch_used(e),
            r matches Err(e) ==> ((e == SigningError::EpochOutsideActivation { epoch }) || (e
                == SigningError::EpochNotPrepared { epoch }) || (e == SigningError::EpochAlreadyUsed { epoch })
                || (e is EncodingAttemptsExceeded)),
            r matches Ok(sig) ==> Self::spec_verify(&Self::spec_public_key(old(sk)), epoch, message@, &sig),
            r matches Ok(_) ==> final(sk).spec_epoch_used(epoch),
            r matches Ok(_) ==> forall|e: u32| e != epoch ==> #[trigger] final(sk).spec_epoch_used(e) == old(sk).spec_epoch_used(e),
            (r == Err::<Self::Signature, SigningError>(SigningError::EpochOutsideActivation { epoch })) <==> !(
            old(sk).spec_activation_start() <= epoch < old(sk).spec_activation_end()),
            (r == Err::<Self::Signature, SigningError>(SigningError::EpochNotPrepared { epoch })) <==> (
            old(sk).spec_activation_start() <= epoch < old(sk).spec_activation_end() && !(
            old(sk).spec_prepared_start() <= epoch < old(sk).spec_prepared_end())),
            (r == Err::<Self::Signature, SigningError>(SigningError::EpochAlreadyUsed { epoch })) <==> (
            old(sk).spec_activation_start() <= epoch < old(sk).spec_activation_end()
                && old(sk).spec_prepared_start() <= epoch < old(sk).spec_prepared_end()
                && old(sk).spec_epoch_used(epoch)),
    ;

    /// Verifies a signature for `message` at `epoch`.
    fn verify(
        pk: &Self::PublicKey,
        epoch: u32,
        message: &[u8; MESSAGE_LENGTH],
        sig: &Self::Signature,
    ) -> (r: bool)
        requires
            Self::spec_well_configured(),
        ensures
            r == Self::spec_verify(pk, epoch, message@, sig),
    ;

    /// Derives the public key from a secret key.
    fn get_public_key(sk: &Self::SecretKey) -> (r: Self::PublicKey)
        requires
            sk.spec_wf(),
        ensures
            r == Self::spec_public_key(sk),
    ;
}

} // verus!
