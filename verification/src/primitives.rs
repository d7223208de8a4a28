//! Calls into BLAKE3 and the random-number generator, and small byte helpers.
//!
//! Every hash that the scheme computes goes through one of the wrappers here.
//! The result of each BLAKE3 function is named by an uninterpreted spec function
//! of its arguments: BLAKE3 is deterministic, so equal inputs give equal outputs,
//! and nothing else about the digests is assumed.

use vstd::prelude::*;
use vstd::bytes::*;
use rand::RngExt;
use rand::SeedableRng;
use blake3::hazmat::HasherExt;

verus! {

/// The 32-byte output of `blake3::derive_key(context, key_material)`.
pub uninterp spec fn blake3_derive_key(context: Seq<char>, key_material: Seq<u8>) -> Seq<u8>;

/// The 32-byte output of `blake3::keyed_hash(key, input)`.
pub uninterp spec fn blake3_keyed_hash(key: Seq<u8>, input: Seq<u8>) -> Seq<u8>;

/// The 64 bytes of the extendable output of BLAKE3 in derive-key mode, for the
/// given context and key material, starting at byte offset `position`.
pub uninterp spec fn blake3_derive_key_xof(context: Seq<char>, key_material: Seq<u8>, position: u64) -> Seq<u8>;

/// The 32-byte output of a BLAKE3 hasher started from a precomputed derive-key
/// context key, fed `input` and finalized.
pub uninterp spec fn blake3_context_key_hash(context_key: Seq<u8>, input: Seq<u8>) -> Seq<u8>;

/// The 32-byte output of `blake3::hazmat::hash_derive_key_context(context)`:
/// the context key of a derive-key context string.
pub uninterp spec fn blake3_derive_key_context(context: Seq<char>) -> Seq<u8>;

/// Calls `blake3::hazmat::hash_derive_key_context`. Claimed: the result is
/// the named context key of the context string (32 bytes, by its type).
#[verifier::external_body]
pub(crate) fn derive_key_context(context: &str) -> (out: [u8; 32])
    ensures
        out@ == blake3_derive_key_context(context@),
{
    ::blake3::hazmat::hash_derive_key_context(context)
}

/// Calls `blake3::derive_key`. Claimed: the result is the named digest of the
/// context string and the key material (32 bytes, by its type).
#[verifier::external_body]
pub(crate) fn derive_key(context: &str, key_material: &[u8]) -> (out: [u8; 32])
    ensures
        out@ == blake3_derive_key(context@, key_material@),
{
    ::blake3::derive_key(context, key_material)
}

/// Calls `blake3::keyed_hash`. Claimed: the result is the named digest of the
/// key and the input.
#[verifier::external_body]
pub(crate) fn keyed_hash(key: &[u8; 32], input: &[u8]) -> (out: [u8; 32])
    ensures
        out@ == blake3_keyed_hash(key@, input@),
{
    *::blake3::keyed_hash(key, input).as_bytes()
}

/// Calls `blake3::Hasher::new_derive_key`, `update`, `finalize_xof`,
/// `OutputReader::set_position` and `OutputReader::fill` to read 64 bytes of
/// the derive-key extendable output at `position`. Claimed: the bytes are the
/// named value of the context, the key material and the position.
#[verifier::external_body]
pub(crate) fn derive_key_xof_block(context: &str, key_material: &[u8], position: u64) -> (out: [u8; 64])
    ensures
        out@ == blake3_derive_key_xof(context@, key_material@, position),
{
    let mut hasher = ::blake3::Hasher::new_derive_key(context);
    hasher.update(key_material);
    let mut reader = hasher.finalize_xof();
    reader.set_position(position);
    let mut block = [0u8; 64];
    reader.fill(&mut block);
    block
}

/// Calls `blake3::hazmat::HasherExt::new_from_context_key`, `update` and
/// `finalize`. Claimed: the result is the named digest of the context key and
/// the input; and, as the crate documents for `new_from_context_key`, where the
/// context key is the one that `hash_derive_key_context` gives for a context
/// string, the result is `blake3::derive_key` of that context and the input.
#[verifier::external_body]
pub(crate) fn context_key_hash(context_key: &[u8; 32], input: &[u8]) -> (out: [u8; 32])
    ensures
        out@ == blake3_context_key_hash(context_key@, input@),
        forall|context: Seq<char>|
            #[trigger] blake3_derive_key_context(context) == context_key@ ==> out@ == blake3_derive_key(context, input@),
{
    let mut hasher = ::blake3::Hasher::new_from_context_key(context_key);
    hasher.update(input);
    *hasher.finalize().as_bytes()
}

#[verifier::external_type_specification]
#[verifier::external_body]
pub struct ExStdRng(rand::rngs::StdRng);

/// Calls `RngExt::random` for 32 bytes. Nothing is claimed of the bytes.
#[verifier::external_body]
pub(crate) fn random_bytes(rng: &mut rand::rngs::StdRng) -> [u8; 32] {
    rng.random()
}

/// Calls `SeedableRng::seed_from_u64`. Nothing is claimed of the generator.
#[verifier::external_body]
pub(crate) fn seeded_rng(seed: u64) -> rand::rngs::StdRng {
    rand::rngs::StdRng::seed_from_u64(seed)
}

/// Appends `bytes` to `out`.
pub fn push_bytes(out: &mut Vec<u8>, bytes: &[u8])
    ensures
        final(out)@ == old(out)@ + bytes@,
{
    let n = bytes.len();
    for i in 0..n
        invariant
            n == bytes@.len(),
            out@ == old(out)@ + bytes@.subrange(0, i as int),
    {
        out.push(bytes[i]);
        assert(bytes@.subrange(0, i + 1) =~= bytes@.subrange(0, i as int).push(bytes@[i as int]));
    }
    assert(bytes@.subrange(0, n as int) =~= bytes@);
}

/// Appends the little-endian bytes of `x`.
pub fn push_u32_le(out: &mut Vec<u8>, x: u32)
    ensures
        final(out)@ == old(out)@ + spec_u32_to_le_bytes(x),
{
    let b = u32_to_le_bytes(x);
    push_bytes(out, b.as_slice());
}

/// Appends the little-endian bytes of `x`.
pub fn push_u64_le(out: &mut Vec<u8>, x: u64)
    ensures
        final(out)@ == old(out)@ + spec_u64_to_le_bytes(x),
{
    let b = u64_to_le_bytes(x);
    push_bytes(out, b.as_slice());
}

/// Byte-wise equality of two 32-byte values.
pub fn bytes32_eq(a: &[u8; 32], b: &[u8; 32]) -> (r: bool)
    ensures
        r == (a@ == b@),
{
    let mut i: usize = 0;
    while i < 32
        invariant
            i <= 32,
            a@.len() == 32,
            b@.len() == 32,
            forall|j: int| 0 <= j < i ==> a@[j] == b@[j],
        decreases 32 - i,
    {
        if a[i] != b[i] {
            return false;
        }
        i = i + 1;
    }
    assert(a@ =~= b@);
    true
}

} // verus!
