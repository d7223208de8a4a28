//! SSZ bytes of public keys, signatures and secret keys.

use vstd::prelude::*;
use vstd::bytes::*;
use std::marker::PhantomData;
use crate::HASH_LENGTH;
use crate::decimal::{decimal, push_decimal};
use vstd::string::StringExecFns;
use crate::inc_encoding::IncomparableEncoding;
use vstd::arithmetic::power2::*;
use vstd::bits::*;
use vstd::arithmetic::div_mod::{lemma_div_is_ordered, lemma_div_multiples_vanish};
use crate::serialization::{
    append_domains, append_u32s, decode_domains, lemma_domains_bytes_injective, lemma_u32s_bytes_injective, decode_u32s, domains_bytes, lemma_domains_bytes, lemma_u32s_bytes,
    read_domain, read_u32, read_u64, u32_at, u32s_bytes, u64_at, DecodeError, Serializable,
};
use crate::symmetric::tweak_hash_tree::HashSubTree;
use super::strictly_sorted;
use crate::symmetric::prf::Pseudorandom;
use crate::symmetric::tweak_hash::TweakableHash;
use crate::symmetric::tweak_hash_tree::HashTreeOpening;
use crate::symmetric::tweak_hash_tree::codec::lemma_opening_ssz_injective;
use crate::symmetric::tweak_hash_tree::codec::lemma_small_subtree_encodable;
use crate::symmetric::tweak_hash_tree::{layer_end, layer_start, lemma_layer_end_bound, lemma_layer_start_le_shift};
use crate::signature::SignatureSchemeSecretKey;
use super::intervals_fit;
use super::{GeneralizedXMSSPublicKey, GeneralizedXMSSSecretKey, GeneralizedXMSSSignature};

verus! {

impl<TH: TweakableHash> Serializable for GeneralizedXMSSPublicKey<TH> {
    open spec fn spec_ssz(&self) -> Seq<u8> {
        self.root@ + self.parameter@
    }

    open spec fn spec_encodable(&self) -> bool {
        true
    }

    open spec fn spec_valid(&self) -> bool {
        true
    }

    fn is_ssz_fixed_len() -> (r: bool)
        ensures
            r,
            forall|pk: Self| #[trigger] pk.spec_ssz().len() == HASH_LENGTH + HASH_LENGTH,
    {
        true
    }

    fn ssz_bytes_len(&self) -> (r: usize) {
        HASH_LENGTH + HASH_LENGTH
    }

    fn ssz_append(&self, buf: &mut Vec<u8>) {
        crate::primitives::push_bytes(buf, self.root.as_slice());
        crate::primitives::push_bytes(buf, self.parameter.as_slice());
        proof {
            assert(final(buf)@ =~= old(buf)@ + self.spec_ssz());
        }
    }

    fn from_ssz_bytes(bytes: &[u8]) -> (r: Result<Self, DecodeError>)
        ensures
            bytes@.len() != 64 ==> r == Err::<Self, DecodeError>(
                DecodeError::InvalidByteLength { len: bytes@.len() as usize, expected: 64 },
            ),
            bytes@.len() == 64 ==> (r matches Ok(pk) && pk.root@ == bytes@.subrange(0, 32) && pk.parameter@
                == bytes@.subrange(32, 64)),
    {
        let expected_len = HASH_LENGTH + HASH_LENGTH;
        if bytes.len() != expected_len {
            return Err(DecodeError::InvalidByteLength { len: bytes.len(), expected: expected_len });
        }
        let root = read_domain(bytes, 0);
        let parameter = read_domain(bytes, HASH_LENGTH);
        let pk = GeneralizedXMSSPublicKey { root, parameter, _hash: PhantomData };
        proof {
            assert(pk.spec_ssz() =~= bytes@);
            assert(pk.spec_ssz() == bytes@ && pk.spec_encodable() && pk.spec_valid());
        }
        Ok(pk)
    }
}

impl<TH: TweakableHash> GeneralizedXMSSPublicKey<TH> {
    /// The length of every public key's encoding.
    pub fn ssz_fixed_len() -> (r: usize)
        ensures
            r == 64,
            forall|pk: Self| #[trigger] pk.spec_ssz().len() == r,
    {
        HASH_LENGTH + HASH_LENGTH
    }
}

/// Where the chain values of a signature begin: after the fixed part (two
/// offsets and the randomness) and the path.
pub open spec fn signature_hashes_offset<TH: TweakableHash>(path: HashTreeOpening<TH>) -> int {
    40 + path.spec_ssz().len() as int
}

/// The message for variable-part offsets of a signature that do not fit
/// together.
pub open spec fn signature_offsets_text(path: nat, hashes: nat, len: nat) -> Seq<char> {
    "Invalid variable offsets: path="@ + decimal(path) + " hashes="@ + decimal(hashes) + " len="@ + decimal(len)
}

/// Describes variable-part offsets of a signature that do not fit together.
fn signature_offsets_message(path: usize, hashes: usize, len: usize) -> (m: String)
    ensures
        m@ == signature_offsets_text(path as nat, hashes as nat, len as nat),
{
    let mut m = "Invalid variable offsets: path=".to_owned();
    push_decimal(&mut m, path);
    m.append(" hashes=");
    push_decimal(&mut m, hashes);
    m.append(" len=");
    push_decimal(&mut m, len);
    m
}

/// The layout of a signature's encoding: the offsets, the randomness, the
/// path and the chain values where the decoder reads them.
proof fn lemma_signature_layout<IE: IncomparableEncoding, TH: TweakableHash>(s: GeneralizedXMSSSignature<IE, TH>)
    requires
        s.spec_encodable(),
    ensures
        s.spec_ssz().len() == signature_hashes_offset(s.path) + 32 * s.hashes@.len(),
        u32_at(s.spec_ssz(), 0) == 40,
        u32_at(s.spec_ssz(), 36) == signature_hashes_offset(s.path),
        s.spec_ssz().subrange(4, 36) == s.rho@,
        s.spec_ssz().subrange(40, signature_hashes_offset(s.path)) == s.path.spec_ssz(),
        s.spec_ssz().subrange(signature_hashes_offset(s.path), s.spec_ssz().len() as int) == domains_bytes(
            s.hashes@,
        ),
{
    let b = s.spec_ssz();
    let h = signature_hashes_offset(s.path);
    lemma_auto_spec_u32_to_from_le_bytes();
    lemma_domains_bytes(s.hashes@);
    assert(b.subrange(0, 4) =~= spec_u32_to_le_bytes(40));
    assert(b.subrange(36, 40) =~= spec_u32_to_le_bytes(h as u32));
    assert(b.subrange(4, 36) =~= s.rho@);
    assert(b.subrange(40, h) =~= s.path.spec_ssz());
    assert(b.subrange(h, b.len() as int) =~= domains_bytes(s.hashes@));
}

impl<IE: IncomparableEncoding, TH: TweakableHash> GeneralizedXMSSSignature<IE, TH> {
    /// Whether the signature can be encoded: the offset of its chain values
    /// fits in 32 bits and its length in `usize`.
    pub fn is_encodable(&self) -> (r: bool)
        ensures
            r == self.spec_encodable(),
    {
        proof {
            lemma_auto_spec_u32_to_from_le_bytes();
            lemma_domains_bytes(self.hashes@);
            lemma_domains_bytes(self.path.co_path@);
            assert(self.path.spec_ssz().len() == 4 + 32 * self.path.co_path@.len());
            assert(self.spec_ssz().len() == signature_hashes_offset(self.path) + 32 * self.hashes@.len());
        }
        let offset: u128 = 44 + 32 * (self.path.co_path.len() as u128);
        if offset > 0xffff_ffff {
            return false;
        }
        let whole: u128 = offset + 32 * (self.hashes.len() as u128);
        whole <= usize::MAX as u128
    }
}

impl<IE: IncomparableEncoding, TH: TweakableHash> Serializable for GeneralizedXMSSSignature<IE, TH> {
    open spec fn spec_ssz(&self) -> Seq<u8> {
        spec_u32_to_le_bytes(40) + self.rho@ + spec_u32_to_le_bytes(signature_hashes_offset(self.path) as u32)
            + self.path.spec_ssz() + domains_bytes(self.hashes@)
    }

    open spec fn spec_encodable(&self) -> bool {
        &&& signature_hashes_offset(self.path) <= u32::MAX
        &&& self.spec_ssz().len() <= usize::MAX
    }

    open spec fn spec_valid(&self) -> bool {
        true
    }

    fn is_ssz_fixed_len() -> (r: bool) {
        false
    }

    fn ssz_bytes_len(&self) -> (r: usize) {
        proof {
            lemma_signature_layout(*self);
        }
        let path_size = self.path.ssz_bytes_len();
        4 + HASH_LENGTH + 4 + path_size + 32 * self.hashes.len()
    }

    fn ssz_append(&self, buf: &mut Vec<u8>) {
        proof {
            lemma_signature_layout(*self);
        }
        let offset_hashes = 40 + self.path.ssz_bytes_len();
        crate::primitives::push_u32_le(buf, 40);
        crate::primitives::push_bytes(buf, self.rho.as_slice());
        crate::primitives::push_u32_le(buf, offset_hashes as u32);
        self.path.ssz_append(buf);
        append_domains(buf, self.hashes.as_slice());
        proof {
            assert(final(buf)@ =~= old(buf)@ + self.spec_ssz());
        }
    }

    fn from_ssz_bytes(bytes: &[u8]) -> (r: Result<Self, DecodeError>)
        ensures
            bytes@.len() < 40 ==> r == Err::<Self, DecodeError>(
                DecodeError::InvalidByteLength { len: bytes@.len() as usize, expected: 40 },
            ),
            bytes@.len() >= 40 && u32_at(bytes@, 0) != 40 ==> r == Err::<Self, DecodeError>(
                DecodeError::InvalidByteLength { len: u32_at(bytes@, 0) as usize, expected: 40 },
            ),
            bytes@.len() >= 40 && u32_at(bytes@, 0) == 40 && !(40 <= u32_at(bytes@, 36) <= bytes@.len()) ==> (r
                matches Err(DecodeError::BytesInvalid(m)) && m@ == signature_offsets_text(
                40,
                u32_at(bytes@, 36) as nat,
                bytes@.len(),
            )),
    {
        let len = bytes.len();
        let ghost b = bytes@;
        proof {
            assert forall|s: Self|
                #[trigger] s.spec_ssz() == b && s.spec_encodable() implies len >= 40 && u32_at(b, 0) == 40 && u32_at(
                b,
                36,
            ) == signature_hashes_offset(s.path) && 40 <= u32_at(b, 36) <= len by {
                lemma_signature_layout(s);
            }
        }
        if len < 40 {
            return Err(DecodeError::InvalidByteLength { len, expected: 40 });
        }
        let offset_path = read_u32(bytes, 0) as usize;
        let rho = read_domain(bytes, 4);
        let offset_hashes = read_u32(bytes, 36) as usize;
        if offset_path != 40 {
            return Err(DecodeError::InvalidByteLength { len: offset_path, expected: 40 });
        }
        if offset_path > offset_hashes || offset_hashes > len {
            return Err(DecodeError::BytesInvalid(signature_offsets_message(offset_path, offset_hashes, len)));
        }
        let path = match HashTreeOpening::<TH>::from_ssz_bytes(
            vstd::slice::slice_subrange(bytes, offset_path, offset_hashes),
        ) {
            Ok(path) => path,
            Err(e) => {
                proof {
                    if exists|s: Self| s.spec_ssz() == b && s.spec_encodable() && s.spec_valid() {
                        let s = choose|s: Self| s.spec_ssz() == b && s.spec_encodable() && s.spec_valid();
                        lemma_signature_layout(s);
                        assert(s.path.spec_ssz() == b.subrange(40, offset_hashes as int));
                        assert(s.path.spec_encodable() && s.path.spec_valid());
                    }
                }
                return Err(e);
            },
        };
        let hashes = match decode_domains(bytes, offset_hashes, len) {
            Ok(hashes) => hashes,
            Err(e) => {
                proof {
                    if exists|s: Self| s.spec_ssz() == b && s.spec_encodable() && s.spec_valid() {
                        let s = choose|s: Self| s.spec_ssz() == b && s.spec_encodable() && s.spec_valid();
                        lemma_signature_layout(s);
                        lemma_domains_bytes(s.hashes@);
                        assert((32 * s.hashes@.len()) % 32 == 0) by (nonlinear_arith);
                    }
                }
                return Err(e);
            },
        };
        let s = GeneralizedXMSSSignature { path, rho, hashes, _encoding: PhantomData };
        proof {
            lemma_auto_spec_u32_to_from_le_bytes();
            assert(spec_u32_to_le_bytes(spec_u32_from_le_bytes(b.subrange(0, 4))) == b.subrange(0, 4));
            assert(spec_u32_to_le_bytes(spec_u32_from_le_bytes(b.subrange(36, 40))) == b.subrange(36, 40));
            assert(s.path.spec_ssz() == b.subrange(40, offset_hashes as int));
            assert(signature_hashes_offset(s.path) == offset_hashes);
            assert(s.spec_ssz() =~= b);
            assert(s.spec_ssz() == b && s.spec_encodable() && s.spec_valid());
        }
        Ok(s)
    }
}

/// The fixed part of a secret key's encoding: the PRF key, the parameter,
/// the activation interval, the offset of the top tree (always 104), the
/// index of the left bottom tree, and the offsets of the other variable parts.
pub open spec fn secret_key_header(
    prf_key: Seq<u8>,
    parameter: Seq<u8>,
    activation_epoch: u64,
    num_active_epochs: u64,
    left_bottom_tree_index: u64,
    offset_left: u32,
    offset_right: u32,
    offset_used: u32,
) -> Seq<u8> {
    prf_key + parameter + spec_u64_to_le_bytes(activation_epoch) + spec_u64_to_le_bytes(num_active_epochs)
        + spec_u32_to_le_bytes(104) + spec_u64_to_le_bytes(left_bottom_tree_index) + spec_u32_to_le_bytes(
        offset_left,
    ) + spec_u32_to_le_bytes(offset_right) + spec_u32_to_le_bytes(offset_used)
}

/// The fixed part holds each field where the decoder reads it.
proof fn lemma_secret_key_header(
    prf_key: Seq<u8>,
    parameter: Seq<u8>,
    activation_epoch: u64,
    num_active_epochs: u64,
    left_bottom_tree_index: u64,
    offset_left: u32,
    offset_right: u32,
    offset_used: u32,
)
    requires
        prf_key.len() == 32,
        parameter.len() == 32,
    ensures
        ({
            let h = secret_key_header(
                prf_key,
                parameter,
                activation_epoch,
                num_active_epochs,
                left_bottom_tree_index,
                offset_left,
                offset_right,
                offset_used,
            );
            &&& h.len() == 104
            &&& h.subrange(0, 32) == prf_key
            &&& h.subrange(32, 64) == parameter
            &&& u64_at(h, 64) == activation_epoch
            &&& u64_at(h, 72) == num_active_epochs
            &&& u32_at(h, 80) == 104
            &&& u64_at(h, 84) == left_bottom_tree_index
            &&& u32_at(h, 92) == offset_left
            &&& u32_at(h, 96) == offset_right
            &&& u32_at(h, 100) == offset_used
        }),
{
    let h = secret_key_header(
        prf_key,
        parameter,
        activation_epoch,
        num_active_epochs,
        left_bottom_tree_index,
        offset_left,
        offset_right,
        offset_used,
    );
    lemma_auto_spec_u32_to_from_le_bytes();
    lemma_auto_spec_u64_to_from_le_bytes();
    assert(h.subrange(0, 32) =~= prf_key);
    assert(h.subrange(32, 64) =~= parameter);
    assert(h.subrange(64, 72) =~= spec_u64_to_le_bytes(activation_epoch));
    assert(h.subrange(72, 80) =~= spec_u64_to_le_bytes(num_active_epochs));
    assert(h.subrange(80, 84) =~= spec_u32_to_le_bytes(104));
    assert(h.subrange(84, 92) =~= spec_u64_to_le_bytes(left_bottom_tree_index));
    assert(h.subrange(92, 96) =~= spec_u32_to_le_bytes(offset_left));
    assert(h.subrange(96, 100) =~= spec_u32_to_le_bytes(offset_right));
    assert(h.subrange(100, 104) =~= spec_u32_to_le_bytes(offset_used));
}

/// Appends the fixed part of a secret key's encoding.
fn append_secret_key_header(
    buf: &mut Vec<u8>,
    prf_key: &[u8; HASH_LENGTH],
    parameter: &[u8; HASH_LENGTH],
    activation_epoch: u64,
    num_active_epochs: u64,
    left_bottom_tree_index: u64,
    offset_left: u32,
    offset_right: u32,
    offset_used: u32,
)
    ensures
        final(buf)@ == old(buf)@ + secret_key_header(
            prf_key@,
            parameter@,
            activation_epoch,
            num_active_epochs,
            left_bottom_tree_index,
            offset_left,
            offset_right,
            offset_used,
        ),
{
    crate::primitives::push_bytes(buf, prf_key.as_slice());
    crate::primitives::push_bytes(buf, parameter.as_slice());
    crate::primitives::push_u64_le(buf, activation_epoch);
    crate::primitives::push_u64_le(buf, num_active_epochs);
    crate::primitives::push_u32_le(buf, 104);
    crate::primitives::push_u64_le(buf, left_bottom_tree_index);
    crate::primitives::push_u32_le(buf, offset_left);
    crate::primitives::push_u32_le(buf, offset_right);
    crate::primitives::push_u32_le(buf, offset_used);
    assert(buf@ =~= old(buf)@ + secret_key_header(
        prf_key@,
        parameter@,
        activation_epoch,
        num_active_epochs,
        left_bottom_tree_index,
        offset_left,
        offset_right,
        offset_used,
    ));
}

/// Bytes whose fields sit where the decoder reads them are the header of
/// those fields.
proof fn lemma_secret_key_header_from_bytes(b: Seq<u8>)
    requires
        b.len() >= 104,
    ensures
        b.subrange(0, 104) == secret_key_header(
            b.subrange(0, 32),
            b.subrange(32, 64),
            u64_at(b, 64),
            u64_at(b, 72),
            u64_at(b, 84),
            u32_at(b, 92),
            u32_at(b, 96),
            u32_at(b, 100),
        ) || u32_at(b, 80) != 104,
{
    lemma_auto_spec_u32_to_from_le_bytes();
    lemma_auto_spec_u64_to_from_le_bytes();
    if u32_at(b, 80) == 104 {
        assert(spec_u64_to_le_bytes(u64_at(b, 64)) == b.subrange(64, 72));
        assert(spec_u64_to_le_bytes(u64_at(b, 72)) == b.subrange(72, 80));
        assert(spec_u32_to_le_bytes(u32_at(b, 80)) == b.subrange(80, 84));
        assert(spec_u64_to_le_bytes(u64_at(b, 84)) == b.subrange(84, 92));
        assert(spec_u32_to_le_bytes(u32_at(b, 92)) == b.subrange(92, 96));
        assert(spec_u32_to_le_bytes(u32_at(b, 96)) == b.subrange(96, 100));
        assert(spec_u32_to_le_bytes(u32_at(b, 100)) == b.subrange(100, 104));
        assert(b.subrange(0, 104) =~= secret_key_header(
            b.subrange(0, 32),
            b.subrange(32, 64),
            u64_at(b, 64),
            u64_at(b, 72),
            u64_at(b, 84),
            u32_at(b, 92),
            u32_at(b, 96),
            u32_at(b, 100),
        ));
    }
}

/// Where the left bottom tree begins in a secret key's encoding.
pub open spec fn sk_offset_left<PRF: Pseudorandom, IE: IncomparableEncoding, TH: TweakableHash, const LOG_LIFETIME: usize>(
    sk: GeneralizedXMSSSecretKey<PRF, IE, TH, LOG_LIFETIME>,
) -> int {
    104 + sk.top_tree.spec_ssz().len() as int
}

/// Where the right bottom tree begins in a secret key's encoding.
pub open spec fn sk_offset_right<PRF: Pseudorandom, IE: IncomparableEncoding, TH: TweakableHash, const LOG_LIFETIME: usize>(
    sk: GeneralizedXMSSSecretKey<PRF, IE, TH, LOG_LIFETIME>,
) -> int {
    sk_offset_left(sk) + sk.left_bottom_tree.spec_ssz().len()
}

/// Where the consumed epochs begin in a secret key's encoding.
pub open spec fn sk_offset_used<PRF: Pseudorandom, IE: IncomparableEncoding, TH: TweakableHash, const LOG_LIFETIME: usize>(
    sk: GeneralizedXMSSSecretKey<PRF, IE, TH, LOG_LIFETIME>,
) -> int {
    sk_offset_right(sk) + sk.right_bottom_tree.spec_ssz().len()
}

/// The rules on a secret key's interval fields that the decoder checks: the
/// activation interval and the prepared window (two bottom trees of
/// `2^(LOG_LIFETIME / 2)` epochs) fit in `u64`, and the window lies in the
/// activation interval.
pub open spec fn secret_key_window_ok(
    log_lifetime: usize,
    activation_epoch: u64,
    num_active_epochs: u64,
    left_bottom_tree_index: u64,
) -> bool {
    let end = activation_epoch + num_active_epochs;
    let shift = ((log_lifetime / 2) as u32) as nat;
    let c = pow2(shift);
    let ps = left_bottom_tree_index * c;
    let pe = ps + 2 * c;
    &&& end <= u64::MAX
    &&& shift < 64
    &&& ps <= u64::MAX
    &&& 2 * c <= u64::MAX
    &&& pe <= u64::MAX
    &&& activation_epoch <= ps
    &&& pe <= end
}

/// The rule on a secret key's consumed epochs that the decoder checks: they
/// are strictly increasing and lie in the activation interval and in the
/// prepared window.
pub open spec fn secret_key_epochs_ok(
    log_lifetime: usize,
    activation_epoch: u64,
    num_active_epochs: u64,
    left_bottom_tree_index: u64,
    used_epochs: Seq<u32>,
) -> bool {
    let end = activation_epoch + num_active_epochs;
    let c = pow2(((log_lifetime / 2) as u32) as nat);
    let ps = left_bottom_tree_index * c;
    let pe = ps + 2 * c;
    &&& strictly_sorted(used_epochs)
    &&& forall|i: int|
        0 <= i < used_epochs.len() ==> activation_epoch <= #[trigger] used_epochs[i] < end && ps <= used_epochs[i]
            < pe
}

/// All the rules that the decoder checks on a secret key's fields.
pub open spec fn secret_key_fields_ok(
    log_lifetime: usize,
    activation_epoch: u64,
    num_active_epochs: u64,
    left_bottom_tree_index: u64,
    used_epochs: Seq<u32>,
) -> bool {
    &&& secret_key_window_ok(log_lifetime, activation_epoch, num_active_epochs, left_bottom_tree_index)
    &&& secret_key_epochs_ok(log_lifetime, activation_epoch, num_active_epochs, left_bottom_tree_index, used_epochs)
}

/// The message for consumed epochs that break their rule.
pub const CONSUMED_EPOCHS_MESSAGE: &'static str = "Consumed epochs must be unique, sorted, active, and prepared";

/// Whether consecutive consumed epochs increase and each lies in both
/// intervals.
pub(crate) fn consumed_epochs_ok(used: &Vec<u32>, act: u64, end: u64, ps: u64, pe: u64) -> (r: bool)
    ensures
        r == (strictly_sorted(used@) && forall|i: int|
            0 <= i < used@.len() ==> act <= #[trigger] used@[i] < end && ps <= used@[i] < pe),
{
    let n = used.len();
    for i in 0..n
        invariant
            n == used@.len(),
            forall|a: int, b: int| 0 <= a < b < i ==> used@[a] < used@[b],
            forall|k: int| 0 <= k < i ==> act <= #[trigger] used@[k] < end && ps <= used@[k] < pe,
    {
        let e = used[i];
        if i > 0 && used[i - 1] >= e {
            return false;
        }
        if (e as u64) < act || (e as u64) >= end || (e as u64) < ps || (e as u64) >= pe {
            return false;
        }
        proof {
            assert forall|a: int, b: int| 0 <= a < b < i + 1 implies used@[a] < used@[b] by {
                if b == i && a < i - 1 {
                    assert(used@[a] < used@[i - 1]);
                }
            }
        }
    }
    true
}

/// The message for variable-part offsets of a secret key that do not fit
/// together.
pub open spec fn secret_key_offsets_text(top: nat, left: nat, right: nat, used: nat, len: nat) -> Seq<char> {
    "Invalid variable offsets: top="@ + decimal(top) + " left="@ + decimal(left) + " right="@ + decimal(right)
        + " used="@ + decimal(used) + " len="@ + decimal(len)
}

/// Describes variable-part offsets of a secret key that do not fit together.
fn secret_key_offsets_message(top: usize, left: usize, right: usize, used: usize, len: usize) -> (m: String)
    ensures
        m@ == secret_key_offsets_text(top as nat, left as nat, right as nat, used as nat, len as nat),
{
    let mut m = "Invalid variable offsets: top=".to_owned();
    push_decimal(&mut m, top);
    m.append(" left=");
    push_decimal(&mut m, left);
    m.append(" right=");
    push_decimal(&mut m, right);
    m.append(" used=");
    push_decimal(&mut m, used);
    m.append(" len=");
    push_decimal(&mut m, len);
    m
}

/// Checks the rules of `secret_key_fields_ok` on decoded fields, with an
/// error that names the first rule broken.
fn check_secret_key_fields<const LOG_LIFETIME: usize>(
    activation_epoch: u64,
    num_active_epochs: u64,
    left_bottom_tree_index: u64,
    used_epochs: &Vec<u32>,
) -> (r: Result<(), DecodeError>)
    ensures
        r is Ok <==> secret_key_fields_ok(
            LOG_LIFETIME,
            activation_epoch,
            num_active_epochs,
            left_bottom_tree_index,
            used_epochs@,
        ),
        r is Err ==> (r matches Err(DecodeError::BytesInvalid(_))),
        secret_key_window_ok(LOG_LIFETIME, activation_epoch, num_active_epochs, left_bottom_tree_index)
            ==> (r is Err ==> (r matches Err(DecodeError::BytesInvalid(m)) && m@ == CONSUMED_EPOCHS_MESSAGE@)),
{
    let ghost fields_ok = secret_key_fields_ok(
        LOG_LIFETIME,
        activation_epoch,
        num_active_epochs,
        left_bottom_tree_index,
        used_epochs@,
    );
    let activation_end = match activation_epoch.checked_add(num_active_epochs) {
        Some(e) => e,
        None => {
            return Err(DecodeError::BytesInvalid("Secret-key activation interval overflows u64".to_owned()));
        },
    };
    let shift = (LOG_LIFETIME / 2) as u32;
    if shift >= 64 {
        return Err(DecodeError::BytesInvalid("Invalid LOG_LIFETIME".to_owned()));
    }
    proof {
        lemma_u64_pow2_no_overflow(shift as nat);
        lemma_u64_shl_is_mul(1, shift as u64);
    }
    let leafs_per_bottom_tree: u64 = 1u64 << (shift as u64);
    let prepared_start = match left_bottom_tree_index.checked_mul(leafs_per_bottom_tree) {
        Some(p) => p,
        None => {
            return Err(DecodeError::BytesInvalid("Prepared interval overflows u64".to_owned()));
        },
    };
    let prepared_len = match leafs_per_bottom_tree.checked_mul(2) {
        Some(p) => p,
        None => {
            return Err(DecodeError::BytesInvalid("Prepared interval overflows u64".to_owned()));
        },
    };
    let prepared_end = match prepared_start.checked_add(prepared_len) {
        Some(p) => p,
        None => {
            return Err(DecodeError::BytesInvalid("Prepared interval overflows u64".to_owned()));
        },
    };
    if prepared_start < activation_epoch || prepared_end > activation_end {
        return Err(
            DecodeError::BytesInvalid("Prepared interval must be contained in the activation interval".to_owned()),
        );
    }
    if !consumed_epochs_ok(used_epochs, activation_epoch, activation_end, prepared_start, prepared_end) {
        return Err(DecodeError::BytesInvalid(CONSUMED_EPOCHS_MESSAGE.to_owned()));
    }
    Ok(())
}

/// The layout of a secret key's encoding: the fixed part, then the three
/// trees and the consumed epochs, each beginning at its offset.
proof fn lemma_secret_key_layout<PRF: Pseudorandom, IE: IncomparableEncoding, TH: TweakableHash, const LOG_LIFETIME: usize>(
    sk: GeneralizedXMSSSecretKey<PRF, IE, TH, LOG_LIFETIME>,
)
    requires
        sk.spec_encodable(),
    ensures
        ({
            let b = sk.spec_ssz();
            let ol = sk_offset_left(sk);
            let or = sk_offset_right(sk);
            let ou = sk_offset_used(sk);
            &&& 104 <= ol <= or <= ou <= b.len()
            &&& b.len() == ou + 4 * sk.used_epochs@.len()
            &&& b.subrange(0, 32) == sk.prf_key@
            &&& b.subrange(32, 64) == sk.parameter@
            &&& u64_at(b, 64) == sk.activation_epoch
            &&& u64_at(b, 72) == sk.num_active_epochs
            &&& u32_at(b, 80) == 104
            &&& u64_at(b, 84) == sk.left_bottom_tree_index
            &&& u32_at(b, 92) == ol
            &&& u32_at(b, 96) == or
            &&& u32_at(b, 100) == ou
            &&& b.subrange(104, ol) == sk.top_tree.spec_ssz()
            &&& b.subrange(ol, or) == sk.left_bottom_tree.spec_ssz()
            &&& b.subrange(or, ou) == sk.right_bottom_tree.spec_ssz()
            &&& b.subrange(ou, b.len() as int) == u32s_bytes(sk.used_epochs@)
        }),
{
    let b = sk.spec_ssz();
    let ol = sk_offset_left(sk);
    let or = sk_offset_right(sk);
    let ou = sk_offset_used(sk);
    let h = secret_key_header(
        sk.prf_key@,
        sk.parameter@,
        sk.activation_epoch,
        sk.num_active_epochs,
        sk.left_bottom_tree_index,
        ol as u32,
        or as u32,
        ou as u32,
    );
    lemma_secret_key_header(
        sk.prf_key@,
        sk.parameter@,
        sk.activation_epoch,
        sk.num_active_epochs,
        sk.left_bottom_tree_index,
        ol as u32,
        or as u32,
        ou as u32,
    );
    lemma_u32s_bytes(sk.used_epochs@);
    assert(b.subrange(0, 104) =~= h);
    assert(b.subrange(0, 32) =~= h.subrange(0, 32));
    assert(b.subrange(32, 64) =~= h.subrange(32, 64));
    assert(b.subrange(64, 72) =~= h.subrange(64, 72));
    assert(b.subrange(72, 80) =~= h.subrange(72, 80));
    assert(b.subrange(80, 84) =~= h.subrange(80, 84));
    assert(b.subrange(84, 92) =~= h.subrange(84, 92));
    assert(b.subrange(92, 96) =~= h.subrange(92, 96));
    assert(b.subrange(96, 100) =~= h.subrange(96, 100));
    assert(b.subrange(100, 104) =~= h.subrange(100, 104));
    assert(b.subrange(104, ol) =~= sk.top_tree.spec_ssz());
    assert(b.subrange(ol, or) =~= sk.left_bottom_tree.spec_ssz());
    assert(b.subrange(or, ou) =~= sk.right_bottom_tree.spec_ssz());
    assert(b.subrange(ou, b.len() as int) =~= u32s_bytes(sk.used_epochs@));
}

impl<PRF: Pseudorandom, IE: IncomparableEncoding, TH: TweakableHash, const LOG_LIFETIME: usize> GeneralizedXMSSSecretKey<
    PRF,
    IE,
    TH,
    LOG_LIFETIME,
> {
    /// Whether the key can be encoded: its trees can, the offset of its
    /// consumed epochs fits in 32 bits and its length in `usize`.
    pub fn is_encodable(&self) -> (r: bool)
        ensures
            r == self.spec_encodable(),
    {
        proof {
            lemma_secret_key_header(
                self.prf_key@,
                self.parameter@,
                self.activation_epoch,
                self.num_active_epochs,
                self.left_bottom_tree_index,
                sk_offset_left(*self) as u32,
                sk_offset_right(*self) as u32,
                sk_offset_used(*self) as u32,
            );
            lemma_u32s_bytes(self.used_epochs@);
            assert(self.spec_ssz().len() == sk_offset_used(*self) + 4 * self.used_epochs@.len());
        }
        let top = match self.top_tree.encoded_len() {
            Some(n) => n,
            None => {
                return false;
            },
        };
        let left = match self.left_bottom_tree.encoded_len() {
            Some(n) => n,
            None => {
                return false;
            },
        };
        let right = match self.right_bottom_tree.encoded_len() {
            Some(n) => n,
            None => {
                return false;
            },
        };
        let used_offset: u128 = 104 + top as u128 + left as u128 + right as u128;
        if used_offset > 0xffff_ffff {
            return false;
        }
        let whole: u128 = used_offset + 4 * (self.used_epochs.len() as u128);
        whole <= usize::MAX as u128
    }
}

impl<PRF: Pseudorandom, IE: IncomparableEncoding, TH: TweakableHash, const LOG_LIFETIME: usize> Serializable for GeneralizedXMSSSecretKey<
    PRF,
    IE,
    TH,
    LOG_LIFETIME,
> {
    open spec fn spec_ssz(&self) -> Seq<u8> {
        secret_key_header(
            self.prf_key@,
            self.parameter@,
            self.activation_epoch,
            self.num_active_epochs,
            self.left_bottom_tree_index,
            sk_offset_left(*self) as u32,
            sk_offset_right(*self) as u32,
            sk_offset_used(*self) as u32,
        ) + self.top_tree.spec_ssz() + self.left_bottom_tree.spec_ssz() + self.right_bottom_tree.spec_ssz()
            + u32s_bytes(self.used_epochs@)
    }

    open spec fn spec_encodable(&self) -> bool {
        &&& self.top_tree.spec_encodable()
        &&& self.left_bottom_tree.spec_encodable()
        &&& self.right_bottom_tree.spec_encodable()
        &&& sk_offset_used(*self) <= u32::MAX
        &&& self.spec_ssz().len() <= usize::MAX
    }

    open spec fn spec_valid(&self) -> bool {
        secret_key_fields_ok(
            LOG_LIFETIME,
            self.activation_epoch,
            self.num_active_epochs,
            self.left_bottom_tree_index,
            self.used_epochs@,
        )
    }

    fn is_ssz_fixed_len() -> (r: bool) {
        false
    }

    fn ssz_bytes_len(&self) -> (r: usize) {
        proof {
            lemma_secret_key_layout(*self);
            lemma_u32s_bytes(self.used_epochs@);
        }
        let top_tree_size = self.top_tree.ssz_bytes_len();
        let left_bottom_tree_size = self.left_bottom_tree.ssz_bytes_len();
        let right_bottom_tree_size = self.right_bottom_tree.ssz_bytes_len();
        104 + top_tree_size + left_bottom_tree_size + right_bottom_tree_size + 4 * self.used_epochs.len()
    }

    #[verifier::spinoff_prover]
    fn ssz_append(&self, buf: &mut Vec<u8>) {
        proof {
            lemma_secret_key_layout(*self);
        }
        let offset_top_tree: usize = 104;
        let offset_left_bottom = offset_top_tree + self.top_tree.ssz_bytes_len();
        let offset_right_bottom = offset_left_bottom + self.left_bottom_tree.ssz_bytes_len();
        let offset_used_epochs = offset_right_bottom + self.right_bottom_tree.ssz_bytes_len();
        append_secret_key_header(
            buf,
            &self.prf_key,
            &self.parameter,
            self.activation_epoch,
            self.num_active_epochs,
            self.left_bottom_tree_index,
            offset_left_bottom as u32,
            offset_right_bottom as u32,
            offset_used_epochs as u32,
        );
        self.top_tree.ssz_append(buf);
        self.left_bottom_tree.ssz_append(buf);
        self.right_bottom_tree.ssz_append(buf);
        append_u32s(buf, self.used_epochs.as_slice());
        proof {
            assert(final(buf)@ =~= old(buf)@ + self.spec_ssz());
        }
    }

    #[verifier::spinoff_prover]
    #[verifier::rlimit(50)]
    fn from_ssz_bytes(bytes: &[u8]) -> (r: Result<Self, DecodeError>)
        ensures
            bytes@.len() < 104 ==> r == Err::<Self, DecodeError>(
                DecodeError::InvalidByteLength { len: bytes@.len() as usize, expected: 104 },
            ),
            bytes@.len() >= 104 && u32_at(bytes@, 80) != 104 ==> r == Err::<Self, DecodeError>(
                DecodeError::InvalidByteLength { len: 104, expected: u32_at(bytes@, 80) as usize },
            ),
            bytes@.len() >= 104 && u32_at(bytes@, 80) == 104 && !(u32_at(bytes@, 92) >= 104 && u32_at(bytes@, 96)
                >= u32_at(bytes@, 92) && u32_at(bytes@, 100) >= u32_at(bytes@, 96) && u32_at(bytes@, 100)
                <= bytes@.len()) ==> (r matches Err(DecodeError::BytesInvalid(m)) && m@ == secret_key_offsets_text(
                104,
                u32_at(bytes@, 92) as nat,
                u32_at(bytes@, 96) as nat,
                u32_at(bytes@, 100) as nat,
                bytes@.len(),
            )),
            (exists|sk: Self| sk.spec_ssz() == bytes@ && sk.spec_encodable() && !sk.spec_valid()) ==> (r matches Err(
                DecodeError::BytesInvalid(_),
            )),
            (exists|sk: Self|
                {
                    &&& sk.spec_ssz() == bytes@
                    &&& sk.spec_encodable()
                    &&& secret_key_window_ok(
                        LOG_LIFETIME,
                        sk.activation_epoch,
                        sk.num_active_epochs,
                        sk.left_bottom_tree_index,
                    )
                    &&& !sk.spec_valid()
                }) ==> (r matches Err(DecodeError::BytesInvalid(m)) && m@ == CONSUMED_EPOCHS_MESSAGE@),
            r matches Ok(sk) ==> (LOG_LIFETIME / 2 < 64 ==> intervals_fit(&sk)),
    {
        let len = bytes.len();
        let ghost b = bytes@;
        proof {
            assert forall|sk: Self| #[trigger] sk.spec_ssz() == b && sk.spec_encodable() implies {
                &&& len >= 104
                &&& u32_at(b, 80) == 104
                &&& 104 <= u32_at(b, 92) <= u32_at(b, 96) <= u32_at(b, 100) <= len
            } by {
                lemma_secret_key_layout(sk);
            }
        }
        if len < 104 {
            return Err(DecodeError::InvalidByteLength { len, expected: 104 });
        }
        let prf_key = read_domain(bytes, 0);
        let parameter = read_domain(bytes, 32);
        let activation_epoch = read_u64(bytes, 64);
        let num_active_epochs = read_u64(bytes, 72);
        let offset_top_tree = read_u32(bytes, 80) as usize;
        let left_bottom_tree_index = read_u64(bytes, 84);
        let offset_left_bottom = read_u32(bytes, 92) as usize;
        let offset_right_bottom = read_u32(bytes, 96) as usize;
        let offset_used_epochs = read_u32(bytes, 100) as usize;
        let pos: usize = 104;
        if pos != offset_top_tree {
            return Err(DecodeError::InvalidByteLength { len: pos, expected: offset_top_tree });
        }
        if offset_top_tree > offset_left_bottom || offset_left_bottom > offset_right_bottom || offset_right_bottom
            > offset_used_epochs || offset_used_epochs > len {
            return Err(
                DecodeError::BytesInvalid(
                    secret_key_offsets_message(
                        offset_top_tree,
                        offset_left_bottom,
                        offset_right_bottom,
                        offset_used_epochs,
                        len,
                    ),
                ),
            );
        }
        let top_tree = match HashSubTree::<TH>::from_ssz_bytes(
            vstd::slice::slice_subrange(bytes, offset_top_tree, offset_left_bottom),
        ) {
            Ok(t) => t,
            Err(e) => {
                proof {
                    if exists|sk: Self| sk.spec_ssz() == b && sk.spec_encodable() {
                        let sk = choose|sk: Self| sk.spec_ssz() == b && sk.spec_encodable();
                        lemma_secret_key_layout(sk);
                        assert(sk.top_tree.spec_ssz() == b.subrange(104, offset_left_bottom as int));
                    }
                }
                return Err(e);
            },
        };
        let left_bottom_tree = match HashSubTree::<TH>::from_ssz_bytes(
            vstd::slice::slice_subrange(bytes, offset_left_bottom, offset_right_bottom),
        ) {
            Ok(t) => t,
            Err(e) => {
                proof {
                    if exists|sk: Self| sk.spec_ssz() == b && sk.spec_encodable() {
                        let sk = choose|sk: Self| sk.spec_ssz() == b && sk.spec_encodable();
                        lemma_secret_key_layout(sk);
                        assert(sk.left_bottom_tree.spec_ssz() == b.subrange(
                            offset_left_bottom as int,
                            offset_right_bottom as int,
                        ));
                    }
                }
                return Err(e);
            },
        };
        let right_bottom_tree = match HashSubTree::<TH>::from_ssz_bytes(
            vstd::slice::slice_subrange(bytes, offset_right_bottom, offset_used_epochs),
        ) {
            Ok(t) => t,
            Err(e) => {
                proof {
                    if exists|sk: Self| sk.spec_ssz() == b && sk.spec_encodable() {
                        let sk = choose|sk: Self| sk.spec_ssz() == b && sk.spec_encodable();
                        lemma_secret_key_layout(sk);
                        assert(sk.right_bottom_tree.spec_ssz() == b.subrange(
                            offset_right_bottom as int,
                            offset_used_epochs as int,
                        ));
                    }
                }
                return Err(e);
            },
        };
        let used_epochs = match decode_u32s(bytes, offset_used_epochs, len) {
            Ok(v) => v,
            Err(e) => {
                proof {
                    if exists|sk: Self| sk.spec_ssz() == b && sk.spec_encodable() {
                        let sk = choose|sk: Self| sk.spec_ssz() == b && sk.spec_encodable();
                        lemma_secret_key_layout(sk);
                        assert((4 * sk.used_epochs@.len()) % 4 == 0) by (nonlinear_arith);
                    }
                }
                return Err(e);
            },
        };
        proof {
            // Any acceptable key that these bytes encode has the fields read here.
            lemma_u32s_bytes(used_epochs@);
            assert forall|x: Self| #[trigger] x.spec_ssz() == b && x.spec_encodable() implies {
                &&& x.activation_epoch == activation_epoch
                &&& x.num_active_epochs == num_active_epochs
                &&& x.left_bottom_tree_index == left_bottom_tree_index
                &&& x.used_epochs@ == used_epochs@
            } by {
                lemma_secret_key_layout(x);
                lemma_u32s_bytes(x.used_epochs@);
                lemma_auto_spec_u32_to_from_le_bytes();
                assert forall|i: int| 0 <= i < x.used_epochs@.len() implies x.used_epochs@[i] == used_epochs@[i] by {
                    assert(u32s_bytes(x.used_epochs@).subrange(4 * i, 4 * i + 4) == spec_u32_to_le_bytes(
                        x.used_epochs@[i],
                    ));
                    assert(u32s_bytes(used_epochs@).subrange(4 * i, 4 * i + 4) == spec_u32_to_le_bytes(
                        used_epochs@[i],
                    ));
                }
                assert(x.used_epochs@ =~= used_epochs@);
            }
        }
        match check_secret_key_fields::<LOG_LIFETIME>(
            activation_epoch,
            num_active_epochs,
            left_bottom_tree_index,
            &used_epochs,
        ) {
            Ok(()) => {},
            Err(e) => {
                return Err(e);
            },
        }
        let sk = GeneralizedXMSSSecretKey {
            prf_key,
            parameter,
            activation_epoch,
            num_active_epochs,
            top_tree,
            left_bottom_tree_index,
            left_bottom_tree,
            right_bottom_tree,
            used_epochs,
            _prf: PhantomData,
            _encoding_type: PhantomData,
        };
        proof {
            lemma_secret_key_header_from_bytes(b);
            assert(sk_offset_left(sk) == offset_left_bottom);
            assert(sk_offset_right(sk) == offset_right_bottom);
            assert(sk_offset_used(sk) == offset_used_epochs);
            assert(sk.spec_ssz() =~= b);
            assert(sk.spec_encodable());
            assert(sk.spec_valid());
            if LOG_LIFETIME / 2 < 64 {
                let c = pow2((LOG_LIFETIME / 2) as nat);
                let l = left_bottom_tree_index as int;
                assert(((LOG_LIFETIME / 2) as u32) as nat == (LOG_LIFETIME / 2) as nat);
                assert((l + 2) * c == l * c + 2 * c) by (nonlinear_arith);
            }
        }
        Ok(sk)
    }
}

/// Every well-formed secret key passes the decoder's checks on its intervals
/// and consumed epochs, so the encoding of a key that the scheme keeps
/// decodes again.
pub proof fn lemma_well_formed_key_is_valid<
    PRF: Pseudorandom,
    IE: IncomparableEncoding,
    TH: TweakableHash,
    const LOG_LIFETIME: usize,
>(sk: &GeneralizedXMSSSecretKey<PRF, IE, TH, LOG_LIFETIME>)
    requires
        sk.spec_wf(),
    ensures
        sk.spec_valid(),
{
    let h = (LOG_LIFETIME / 2) as nat;
    let c = pow2(h);
    let l = sk.left_bottom_tree_index as int;
    lemma2_to64();
    lemma_pow2_adds(h, h);
    if LOG_LIFETIME < 32 {
        lemma_pow2_strictly_increases(LOG_LIFETIME as nat, 32);
    }
    if h < 16 {
        lemma_pow2_strictly_increases(h, 16);
    }
    lemma_pow2_pos(h);
    assert(((LOG_LIFETIME / 2) as u32) as nat == h);
    assert((l + 2) * c == l * c + 2 * c) by (nonlinear_arith);
    assert(0 <= l * c) by (nonlinear_arith)
        requires
            l >= 0,
            c >= 0,
    ;
}

/// A public key is determined by its encoding.
pub proof fn lemma_public_key_ssz_injective<TH: TweakableHash>(
    a: GeneralizedXMSSPublicKey<TH>,
    b: GeneralizedXMSSPublicKey<TH>,
)
    requires
        a.spec_ssz() == b.spec_ssz(),
    ensures
        a.root == b.root,
        a.parameter == b.parameter,
{
    assert(a.spec_ssz().subrange(0, 32) =~= a.root@);
    assert(b.spec_ssz().subrange(0, 32) =~= b.root@);
    assert(a.spec_ssz().subrange(32, 64) =~= a.parameter@);
    assert(b.spec_ssz().subrange(32, 64) =~= b.parameter@);
    assert(a.root =~= b.root);
    assert(a.parameter =~= b.parameter);
}

/// A signature whose offsets fit is determined by its encoding.
pub proof fn lemma_signature_ssz_injective<IE: IncomparableEncoding, TH: TweakableHash>(
    a: GeneralizedXMSSSignature<IE, TH>,
    b: GeneralizedXMSSSignature<IE, TH>,
)
    requires
        a.spec_ssz() == b.spec_ssz(),
        a.spec_encodable(),
        b.spec_encodable(),
    ensures
        a.rho == b.rho,
        a.path.co_path@ == b.path.co_path@,
        a.hashes@ == b.hashes@,
{
    lemma_signature_layout(a);
    lemma_signature_layout(b);
    let x = a.spec_ssz();
    assert(signature_hashes_offset(a.path) == signature_hashes_offset(b.path));
    assert(a.rho =~= b.rho);
    lemma_opening_ssz_injective(a.path, b.path);
    lemma_domains_bytes_injective(a.hashes@, b.hashes@);
}

/// A secret key whose offsets fit is determined by its encoding.
pub proof fn lemma_secret_key_ssz_injective<
    PRF: Pseudorandom,
    IE: IncomparableEncoding,
    TH: TweakableHash,
    const LOG_LIFETIME: usize,
>(a: GeneralizedXMSSSecretKey<PRF, IE, TH, LOG_LIFETIME>, b: GeneralizedXMSSSecretKey<PRF, IE, TH, LOG_LIFETIME>)
    requires
        a.spec_ssz() == b.spec_ssz(),
        a.spec_encodable(),
        b.spec_encodable(),
    ensures
        a.prf_key == b.prf_key,
        a.parameter == b.parameter,
        a.activation_epoch == b.activation_epoch,
        a.num_active_epochs == b.num_active_epochs,
        a.left_bottom_tree_index == b.left_bottom_tree_index,
        a.used_epochs@ == b.used_epochs@,
        a.top_tree.spec_ssz() == b.top_tree.spec_ssz(),
        a.left_bottom_tree.spec_ssz() == b.left_bottom_tree.spec_ssz(),
        a.right_bottom_tree.spec_ssz() == b.right_bottom_tree.spec_ssz(),
{
    lemma_secret_key_layout(a);
    lemma_secret_key_layout(b);
    assert(a.prf_key =~= b.prf_key);
    assert(a.parameter =~= b.parameter);
    lemma_u32s_bytes_injective(a.used_epochs@, b.used_epochs@);
}

/// A strictly increasing sequence inside `[lo, hi)` has at most `hi - lo`
/// entries.
proof fn lemma_sorted_window_len(s: Seq<u32>, lo: int, hi: int)
    requires
        strictly_sorted(s),
        forall|i: int| 0 <= i < s.len() ==> lo <= #[trigger] s[i] < hi,
    ensures
        s.len() <= hi - lo || s.len() == 0,
    decreases s.len(),
{
    if s.len() > 0 {
        let t = s.drop_last();
        assert forall|i: int| 0 <= i < t.len() implies lo <= #[trigger] t[i] < s.last() by {
            assert(t[i] == s[i]);
            assert(s[i] < s[s.len() - 1]);
        }
        assert(strictly_sorted(t));
        lemma_sorted_window_len(t, lo, s.last() as int);
        assert(lo <= s[s.len() - 1] < hi);
    }
}

/// A bottom tree of a key has at most 17 layers of at most `2^16` nodes.
proof fn lemma_bottom_tree_small<TH: TweakableHash>(t: HashSubTree<TH>, b: nat)
    requires
        t.is_bottom_tree(b),
        t.depth <= 32,
    ensures
        t.layers@.len() <= 17,
        forall|k: int| 0 <= k < t.layers@.len() ==> (#[trigger] t.layers@[k]).nodes@.len() <= 0x10000,
{
    let h = (t.depth / 2) as nat;
    lemma2_to64();
    assert forall|k: int| 0 <= k < t.layers@.len() implies (#[trigger] t.layers@[k]).nodes@.len() <= 0x10000 by {
        assert(t.layers@[k].nodes@.len() == pow2((h - k) as nat));
        if h - k < 16 {
            lemma_pow2_strictly_increases((h - k) as nat, 16);
        }
    }
}

/// Every well-formed secret key can be encoded: its trees are small enough
/// for 32-bit offsets, and it holds at most two bottom trees of consumed
/// epochs.
pub proof fn lemma_well_formed_key_is_encodable<
    PRF: Pseudorandom,
    IE: IncomparableEncoding,
    TH: TweakableHash,
    const LOG_LIFETIME: usize,
>(sk: &GeneralizedXMSSSecretKey<PRF, IE, TH, LOG_LIFETIME>)
    requires
        sk.spec_wf(),
    ensures
        sk.spec_encodable(),
{
    let h = (LOG_LIFETIME / 2) as nat;
    let c = pow2(h);
    let l = sk.left_bottom_tree_index as int;
    lemma2_to64();
    lemma_pow2_adds(h, h);
    if h < 16 {
        lemma_pow2_strictly_increases(h, 16);
    }
    assert(h + h == LOG_LIFETIME);
    lemma_bottom_tree_small(sk.left_bottom_tree, l as nat);
    lemma_bottom_tree_small(sk.right_bottom_tree, (l + 1) as nat);
    lemma_small_subtree_encodable(sk.left_bottom_tree);
    lemma_small_subtree_encodable(sk.right_bottom_tree);
    let t = sk.top_tree;
    let end = sk.activation_epoch + sk.num_active_epochs;
    let a = (sk.activation_epoch as nat) / c;
    let e = (end as nat) / c;
    assert(e <= c) by {
        lemma_div_is_ordered(end as int, (c * c) as int, c as int);
        lemma_div_multiples_vanish(c as int, c as int);
    }
    assert forall|k: int| 0 <= k < t.layers@.len() implies (#[trigger] t.layers@[k]).nodes@.len() <= 0x10000 by {
        lemma_layer_end_bound(e as int, h, k as nat);
        lemma_layer_start_le_shift(a as int, k as nat);
        assert(t.layers@[k].start_index == layer_start(a as int, k as nat));
        assert(t.layers@[k].end() == layer_end(e as int, k as nat));
        if k < h && h - k < 16 {
            lemma_pow2_strictly_increases((h - k) as nat, 16);
        }
    }
    lemma_small_subtree_encodable(t);
    lemma_sorted_window_len(sk.used_epochs@, l * c, (l + 2) * c);
    assert((l + 2) * c - l * c == 2 * c) by (nonlinear_arith);
    lemma_secret_key_header(
        sk.prf_key@,
        sk.parameter@,
        sk.activation_epoch,
        sk.num_active_epochs,
        sk.left_bottom_tree_index,
        sk_offset_left(*sk) as u32,
        sk_offset_right(*sk) as u32,
        sk_offset_used(*sk) as u32,
    );
    lemma_u32s_bytes(sk.used_epochs@);
    assert(sk.spec_ssz().len() == sk_offset_used(*sk) + 4 * sk.used_epochs@.len());
}

/// A signature with a path of at most 64 nodes and at most 256 chain values
/// can be encoded.
pub proof fn lemma_small_signature_encodable<IE: IncomparableEncoding, TH: TweakableHash>(
    sig: &GeneralizedXMSSSignature<IE, TH>,
)
    requires
        sig.path.co_path@.len() <= 64,
        sig.hashes@.len() <= 256,
    ensures
        sig.spec_encodable(),
{
    lemma_auto_spec_u32_to_from_le_bytes();
    lemma_domains_bytes(sig.hashes@);
    lemma_domains_bytes(sig.path.co_path@);
    assert(sig.path.spec_ssz().len() == 4 + 32 * sig.path.co_path@.len());
    assert(sig.spec_ssz().len() == signature_hashes_offset(sig.path) + 32 * sig.hashes@.len());
}

} // verus!
