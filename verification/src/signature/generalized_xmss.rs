//! Generalized XMSS: Winternitz chains under a Merkle tree split into a top
//! tree and a sliding window of two prepared bottom trees.

use vstd::prelude::*;
use vstd::arithmetic::power2::*;
use vstd::arithmetic::div_mod::*;
use vstd::arithmetic::mul::*;
use vstd::bits::*;
use std::marker::PhantomData;
use crate::{HASH_LENGTH, MESSAGE_LENGTH};
use crate::primitives::bytes32_eq;
use crate::inc_encoding::IncomparableEncoding;
use crate::symmetric::prf::Pseudorandom;
use crate::symmetric::tweak_hash::{
    chain, chain_spec, compute_tree_leaves, domain_views, lemma_chain_associative, tree_leaf_spec, TweakableHash,
};
use crate::symmetric::tweak_hash_tree::{
    combined_path, hash_tree_verify, lemma_combined_open_verify, spec_hash_tree_verify, HashSubTree,
    HashTreeOpening,
};
use crate::symmetric::tweak_hash_tree::codec::lemma_subtree_ssz_injective;
use crate::symmetric::tweak_hash_tree::{layer_end, layer_start};
use crate::serialization::Serializable;
use codec::{lemma_secret_key_ssz_injective, lemma_small_signature_encodable, lemma_well_formed_key_is_encodable};
use super::{SignatureScheme, SignatureSchemeSecretKey, SigningError};

pub mod codec;
pub mod instantiations_blake3;

verus! {

/// Generalized XMSS over a PRF, incomparable encoding, and tweakable hash.
///
/// `LOG_LIFETIME` must be even and no greater than 32.
pub struct GeneralizedXMSSSignatureScheme<
    PRF: Pseudorandom,
    IE: IncomparableEncoding,
    TH: TweakableHash,
    const LOG_LIFETIME: usize,
> {
    _prf: PhantomData<PRF>,
    _ie: PhantomData<IE>,
    _th: PhantomData<TH>,
}

/// Merkle path, encoding randomness, and Winternitz chain values.
pub struct GeneralizedXMSSSignature<IE: IncomparableEncoding, TH: TweakableHash> {
    pub path: HashTreeOpening<TH>,
    pub rho: [u8; HASH_LENGTH],
    pub hashes: Vec<[u8; HASH_LENGTH]>,
    pub _encoding: PhantomData<IE>,
}

/// Merkle root and public tweakable-hash parameter.
pub struct GeneralizedXMSSPublicKey<TH: TweakableHash> {
    pub root: [u8; HASH_LENGTH],
    pub parameter: [u8; HASH_LENGTH],
    pub _hash: PhantomData<TH>,
}

/// PRF key, prepared Merkle subtrees, and consumed-epoch state.
pub struct GeneralizedXMSSSecretKey<
    PRF: Pseudorandom,
    IE: IncomparableEncoding,
    TH: TweakableHash,
    const LOG_LIFETIME: usize,
> {
    pub prf_key: [u8; HASH_LENGTH],
    pub parameter: [u8; HASH_LENGTH],
    pub activation_epoch: u64,
    pub num_active_epochs: u64,
    pub top_tree: HashSubTree<TH>,
    pub left_bottom_tree_index: u64,
    pub left_bottom_tree: HashSubTree<TH>,
    pub right_bottom_tree: HashSubTree<TH>,
    /// Epochs consumed inside the current prepared window.
    pub used_epochs: Vec<u32>,
    pub _prf: PhantomData<PRF>,
    pub _encoding_type: PhantomData<IE>,
}

impl<IE: IncomparableEncoding, TH: TweakableHash> GeneralizedXMSSSignature<IE, TH> {
    /// The Merkle authentication path.
    pub fn path(&self) -> (r: &HashTreeOpening<TH>)
        ensures
            r == &self.path,
    {
        &self.path
    }

    /// The encoding randomness.
    pub fn rho(&self) -> (r: &[u8; HASH_LENGTH])
        ensures
            r == &self.rho,
    {
        &self.rho
    }

    /// The chain values.
    pub fn hashes(&self) -> (r: &Vec<[u8; HASH_LENGTH]>)
        ensures
            r == &self.hashes,
    {
        &self.hashes
    }
}

impl<TH: TweakableHash> GeneralizedXMSSPublicKey<TH> {
    /// The Merkle root.
    pub fn root(&self) -> (r: &[u8; HASH_LENGTH])
        ensures
            r == &self.root,
    {
        &self.root
    }

    /// The public tweakable-hash parameter.
    pub fn parameter(&self) -> (r: &[u8; HASH_LENGTH])
        ensures
            r == &self.parameter,
    {
        &self.parameter
    }
}

// ---------------------------------------------------------------------------
// Activation intervals
// ---------------------------------------------------------------------------

/// The activation interval in bottom-tree units, from the aligned interval
/// `[a, b)` that covers the request, in a lifetime of `m` bottom trees: at
/// least two bottom trees, moved left (or cut to the lifetime) where it would
/// end past the lifetime.
pub open spec fn expand_units(a: int, b: int, m: int) -> (int, int) {
    let e1 = if b - a < 2 { a + 2 } else { b };
    if e1 > m {
        if e1 - a > m {
            (0, m)
        } else {
            (m - (e1 - a), m)
        }
    } else {
        (a, e1)
    }
}

/// Expands an activation range to aligned bottom-tree boundaries.
///
/// Returns the inclusive start and exclusive end as bottom-tree indices.
pub fn expand_activation_time<const LOG_LIFETIME: usize>(
    desired_activation_epoch: usize,
    desired_num_active_epochs: usize,
) -> (r: (usize, usize))
    requires
        2 <= LOG_LIFETIME < usize::BITS,
        LOG_LIFETIME % 2 == 0,
        desired_activation_epoch + desired_num_active_epochs + pow2((LOG_LIFETIME / 2) as nat) <= usize::MAX,
    ensures
        ({
            let c = pow2((LOG_LIFETIME / 2) as nat) as int;
            let de = desired_activation_epoch + desired_num_active_epochs;
            &&& (r.0 as int, r.1 as int) == expand_units((desired_activation_epoch as int) / c, (de + c - 1) / c, c)
            &&& r.1 - r.0 >= 2
            &&& r.1 * c <= pow2(LOG_LIFETIME as nat)
            &&& r.0 * c <= desired_activation_epoch
            &&& r.1 * c >= de || r.1 * c == pow2(LOG_LIFETIME as nat)
            &&& (de <= pow2(LOG_LIFETIME as nat) && (de + c - 1) / c - (desired_activation_epoch as int) / c >= 2)
                ==> r == ((desired_activation_epoch as int / c) as usize, ((de + c - 1) / c) as usize)
            &&& de <= pow2(LOG_LIFETIME as nat) ==> {
                let first = desired_activation_epoch as int / c;
                let last = (de + c - 1) / c;
                if first + 2 <= c {
                    &&& r.0 == first
                    &&& r.1 == if last < first + 2 { first + 2 } else { last }
                } else {
                    &&& r.0 == c - 2
                    &&& r.1 == c
                }
            }
        }),
{
    let ghost h = (LOG_LIFETIME / 2) as nat;
    let ghost cc = pow2(h) as int;
    proof {
        lemma_usize_pow2_no_overflow(h);
        lemma_usize_shl_is_mul(1, (LOG_LIFETIME / 2) as usize);
        lemma_pow2_adds(h, h);
        lemma_pow2_unfold(h);
        lemma_pow2_pos(h);
    }
    let c: usize = 1usize << (LOG_LIFETIME / 2);
    let desired_start = desired_activation_epoch;
    let desired_end = desired_activation_epoch + desired_num_active_epochs;
    let mut start = desired_start / c;
    let mut end = (desired_end + c - 1) / c;
    let ghost a = start as int;
    let ghost b = end as int;
    proof {
        lemma_fundamental_div_mod(desired_start as int, cc);
        lemma_mod_bound(desired_start as int, cc);
        lemma_fundamental_div_mod((desired_end + c - 1) as int, cc);
        lemma_mod_bound((desired_end + c - 1) as int, cc);
        assert(a <= b) by {
            lemma_div_is_ordered(desired_start as int, (desired_end + c - 1) as int, cc);
        }
        assert(b * cc >= desired_end) by (nonlinear_arith)
            requires
                (desired_end + c - 1) as int == cc * b + (desired_end + c - 1) as int % cc,
                (desired_end + c - 1) as int % cc < cc,
                c == cc,
        ;
        assert(a * cc <= desired_start) by (nonlinear_arith)
            requires
                desired_start as int == cc * a + desired_start as int % cc,
                desired_start as int % cc >= 0,
        ;
    }
    if end - start < 2 {
        end = start + 2;
    }
    if end > c {
        let duration = end - start;
        if duration > c {
            start = 0;
            end = c;
        } else {
            end = c;
            start = c - duration;
        }
    }
    proof {
        assert(c >= 2);
        let r1 = end as int;
        let r0 = start as int;
        assert(r1 * cc <= cc * cc) by (nonlinear_arith)
            requires
                r1 <= cc,
                0 <= r1,
        ;
        assert(r0 * cc <= a * cc) by (nonlinear_arith)
            requires
                r0 <= a,
                0 <= r0,
                cc > 0,
        ;
        if desired_end <= pow2(LOG_LIFETIME as nat) {
            assert(b <= cc) by {
                lemma_div_is_ordered((desired_end + c - 1) as int, cc * cc + cc - 1, cc);
                lemma_fundamental_div_mod_converse(cc * cc + cc - 1, cc, cc, cc - 1);
            }
        }
        if r1 < cc {
            assert(r1 >= b);
            assert(r1 * cc >= b * cc) by (nonlinear_arith)
                requires
                    r1 >= b,
                    cc > 0,
            ;
        }
    }
    (start, end)
}

// ---------------------------------------------------------------------------
// The trees of a key
// ---------------------------------------------------------------------------

/// Admissible parameters of the scheme (what it checks when instantiated).
pub open spec fn xmss_config_ok<IE: IncomparableEncoding, TH: TweakableHash>(log_lifetime: nat) -> bool {
    &&& IE::spec_well_configured()
    &&& log_lifetime % 2 == 0
    &&& 4 <= log_lifetime <= 32
    &&& log_lifetime < usize::BITS
    &&& TH::accepts_num_chains(IE::DIMENSION as nat)
}

/// The node at `level` (counted from the leaves) and `index` of the full
/// Merkle tree over the epoch leaves that the PRF key determines.
pub open spec fn node_spec<PRF: Pseudorandom, IE: IncomparableEncoding, TH: TweakableHash>(
    prf_key: Seq<u8>,
    parameter: Seq<u8>,
    level: nat,
    index: nat,
) -> Seq<u8>
    decreases level,
{
    if level == 0 {
        tree_leaf_spec::<TH, PRF>(prf_key, parameter, index as u32, IE::DIMENSION as nat, IE::BASE as nat)
    } else {
        TH::spec_apply(
            parameter,
            TH::spec_tree_tweak(level as u8, index as u32),
            seq![
                node_spec::<PRF, IE, TH>(prf_key, parameter, (level - 1) as nat, 2 * index),
                node_spec::<PRF, IE, TH>(prf_key, parameter, (level - 1) as nat, 2 * index + 1),
            ],
        )
    }
}

/// `t` is bottom tree `b` of the key: its leaves are the epoch leaves of its
/// block and its root is the node of the full tree.
pub open spec fn bottom_tree_ok<PRF: Pseudorandom, IE: IncomparableEncoding, TH: TweakableHash>(
    t: HashSubTree<TH>,
    prf_key: Seq<u8>,
    parameter: Seq<u8>,
    log_lifetime: nat,
    b: nat,
) -> bool {
    let h = log_lifetime / 2;
    &&& t.depth == log_lifetime
    &&& t.wf()
    &&& t.consistent(parameter)
    &&& t.is_bottom_tree(b)
    &&& forall|e: int|
        b * pow2(h) <= e < (b + 1) * pow2(h) ==> #[trigger] t.layers@[0].node(e) == tree_leaf_spec::<TH, PRF>(
            prf_key,
            parameter,
            e as u32,
            IE::DIMENSION as nat,
            IE::BASE as nat,
        )
    &&& t.spec_root() == node_spec::<PRF, IE, TH>(prf_key, parameter, h, b)
}

/// `t` is the top tree of the key: its lowest layer holds the roots of the
/// bottom trees `start_b .. end_b`.
pub open spec fn top_tree_ok<PRF: Pseudorandom, IE: IncomparableEncoding, TH: TweakableHash>(
    t: HashSubTree<TH>,
    prf_key: Seq<u8>,
    parameter: Seq<u8>,
    log_lifetime: nat,
    start_b: nat,
    end_b: nat,
) -> bool {
    let h = log_lifetime / 2;
    &&& t.depth == log_lifetime
    &&& t.lowest_layer == h
    &&& t.wf()
    &&& t.consistent(parameter)
    &&& t.num_hashed() == h
    &&& t.layers@.last().start_index == 0
    &&& t.layers@[0].end() <= pow2(h)
    &&& t.has_layer_shape(start_b as int, end_b as int)
    &&& forall|b: int|
        start_b <= b < end_b ==> t.layers@[0].contains(b) && #[trigger] t.layers@[0].node(b) == node_spec::<
            PRF,
            IE,
            TH,
        >(prf_key, parameter, h, b as nat)
}

/// The top tree of a key holds the root of each of the key's bottom trees.
proof fn lemma_top_tree_holds<PRF: Pseudorandom, IE: IncomparableEncoding, TH: TweakableHash>(
    t: HashSubTree<TH>,
    prf_key: Seq<u8>,
    parameter: Seq<u8>,
    log_lifetime: nat,
    start_b: nat,
    end_b: nat,
    b: nat,
)
    requires
        top_tree_ok::<PRF, IE, TH>(t, prf_key, parameter, log_lifetime, start_b, end_b),
        start_b <= b < end_b,
    ensures
        t.layers@[0].contains(b as int),
        t.layers@[0].node(b as int) == node_spec::<PRF, IE, TH>(prf_key, parameter, log_lifetime / 2, b),
{
    assert(t.layers@[0].node(b as int) == node_spec::<PRF, IE, TH>(prf_key, parameter, log_lifetime / 2, b));
}

/// In a bottom tree whose leaves are the epoch leaves, every node is the node
/// of the full tree at its position.
proof fn lemma_bottom_layers<PRF: Pseudorandom, IE: IncomparableEncoding, TH: TweakableHash>(
    t: HashSubTree<TH>,
    prf_key: Seq<u8>,
    parameter: Seq<u8>,
    b: nat,
    k: nat,
)
    requires
        t.wf(),
        t.consistent(parameter),
        t.is_bottom_tree(b),
        t.depth <= 32,
        b < pow2((t.depth / 2) as nat),
        k <= t.depth / 2,
        forall|e: int|
            t.layers@[0].contains(e) ==> #[trigger] t.layers@[0].node(e) == tree_leaf_spec::<TH, PRF>(
                prf_key,
                parameter,
                e as u32,
                IE::DIMENSION as nat,
                IE::BASE as nat,
            ),
    ensures
        forall|p: int|
            t.layers@[k as int].contains(p) ==> #[trigger] t.layers@[k as int].node(p) == node_spec::<PRF, IE, TH>(
                prf_key,
                parameter,
                k,
                p as nat,
            ),
    decreases k,
{
    let h = (t.depth / 2) as nat;
    if k > 0 {
        let k0 = (k - 1) as nat;
        lemma_bottom_layers::<PRF, IE, TH>(t, prf_key, parameter, b, k0);
        let lower = t.layers@[k0 as int];
        let upper = t.layers@[k as int];
        assert(lower.start_index == b * pow2((h - k0) as nat));
        assert(lower.nodes@.len() == pow2((h - k0) as nat));
        assert(upper.start_index == b * pow2((h - k) as nat));
        assert(upper.nodes@.len() == pow2((h - k) as nat));
        lemma_pow2_unfold((h - k0) as nat);
        assert(lower.start_index == 2 * upper.start_index) by {
            let x = pow2((h - k) as nat);
            assert(b * (2 * x) == 2 * (b * x)) by (nonlinear_arith);
        }
        assert forall|p: int| upper.contains(p) implies #[trigger] upper.node(p) == node_spec::<PRF, IE, TH>(
            prf_key,
            parameter,
            k,
            p as nat,
        ) by {
            let j = p - upper.start_index;
            assert(0 <= j < lower.nodes@.len() / 2);
            assert(t.parent_ok(parameter, k0 as int, j));
            assert(lower.nodes@[2 * j]@ == lower.node(2 * p));
            assert(lower.nodes@[2 * j + 1]@ == lower.node(2 * p + 1));
            assert(lower.contains(2 * p) && lower.contains(2 * p + 1));
        }
    } else {
        assert forall|p: int| t.layers@[0].contains(p) implies #[trigger] t.layers@[0].node(p) == node_spec::<PRF, IE, TH>(
            prf_key,
            parameter,
            0,
            p as nat,
        ) by {
            assert(t.layers@[0].node(p) == tree_leaf_spec::<TH, PRF>(
                prf_key,
                parameter,
                p as u32,
                IE::DIMENSION as nat,
                IE::BASE as nat,
            ));
            assert(p >= 0);
        }
    }
}

/// Whether a bottom tree is right depends only on its positions and nodes.
proof fn lemma_bottom_tree_same_nodes<PRF: Pseudorandom, IE: IncomparableEncoding, TH: TweakableHash>(
    t: HashSubTree<TH>,
    u: HashSubTree<TH>,
    prf_key: Seq<u8>,
    parameter: Seq<u8>,
    log_lifetime: nat,
    b: nat,
)
    requires
        t.same_nodes(&u),
        bottom_tree_ok::<PRF, IE, TH>(u, prf_key, parameter, log_lifetime, b),
    ensures
        bottom_tree_ok::<PRF, IE, TH>(t, prf_key, parameter, log_lifetime, b),
{
    let h = (t.depth / 2) as nat;
    let last = t.layers@.len() - 1;
    assert(t.layers@[last].nodes@.len() == u.layers@[last].nodes@.len());
    assert forall|k: int| 0 <= k < t.num_hashed() implies #[trigger] t.link_ok(k) by {
        assert(u.link_ok(k));
        assert(t.layers@[k].nodes@.len() == u.layers@[k].nodes@.len());
        assert(t.layers@[k + 1].nodes@.len() == u.layers@[k + 1].nodes@.len());
    }
    assert forall|k: int, j: int|
        0 <= k < t.num_hashed() && 0 <= j < t.layers@[k].nodes@.len() / 2 implies #[trigger] t.parent_ok(parameter, k, j) by {
        assert(u.parent_ok(parameter, k, j));
        assert(t.layers@[k].nodes@[2 * j]@ == u.layers@[k].nodes@[2 * j]@);
        assert(t.layers@[k].nodes@[2 * j + 1]@ == u.layers@[k].nodes@[2 * j + 1]@);
        let q = t.layers@[k].start_index / 2 + j;
        assert(u.link_ok(k));
        let at = q - t.layers@[k + 1].start_index;
        assert(t.layers@[k + 1].start_index == u.layers@[k + 1].start_index);
        assert(t.layers@[k + 1].nodes@[at]@ == u.layers@[k + 1].nodes@[at]@);
    }
    assert forall|k: int| 0 <= k <= h implies {
        &&& (#[trigger] t.layers@[k]).start_index == b * pow2((h - k) as nat)
        &&& t.layers@[k].nodes@.len() == pow2((h - k) as nat)
    } by {
        assert(u.layers@[k].start_index == b * pow2((h - k) as nat));
    }
    let c = pow2(h);
    assert forall|e: int| b * c <= e < (b + 1) * c implies #[trigger] t.layers@[0].node(e) == tree_leaf_spec::<TH, PRF>(
        prf_key,
        parameter,
        e as u32,
        IE::DIMENSION as nat,
        IE::BASE as nat,
    ) by {
        assert(u.layers@[0].node(e) == tree_leaf_spec::<TH, PRF>(
            prf_key,
            parameter,
            e as u32,
            IE::DIMENSION as nat,
            IE::BASE as nat,
        ));
        assert(u.layers@[0].start_index == b * pow2((h - 0) as nat));
        assert(u.layers@[0].nodes@.len() == pow2((h - 0) as nat));
        assert((b + 1) * c == b * c + c) by (nonlinear_arith);
        assert(t.layers@[0].nodes@[e - b * c]@ == u.layers@[0].nodes@[e - b * c]@);
    }
    assert(t.layers@[last].nodes@[0]@ == u.layers@[last].nodes@[0]@);
}

/// Whether a top tree is right depends only on its positions and nodes.
proof fn lemma_top_tree_same_nodes<PRF: Pseudorandom, IE: IncomparableEncoding, TH: TweakableHash>(
    t: HashSubTree<TH>,
    u: HashSubTree<TH>,
    prf_key: Seq<u8>,
    parameter: Seq<u8>,
    log_lifetime: nat,
    start_b: nat,
    end_b: nat,
)
    requires
        t.same_nodes(&u),
        top_tree_ok::<PRF, IE, TH>(u, prf_key, parameter, log_lifetime, start_b, end_b),
    ensures
        top_tree_ok::<PRF, IE, TH>(t, prf_key, parameter, log_lifetime, start_b, end_b),
{
    let h = log_lifetime / 2;
    let last = t.layers@.len() - 1;
    assert(t.layers@[last].nodes@.len() == u.layers@[last].nodes@.len());
    assert(t.layers@[last].start_index == u.layers@[last].start_index);
    assert(t.layers@[0].start_index == u.layers@[0].start_index);
    assert(t.layers@[0].nodes@.len() == u.layers@[0].nodes@.len());
    assert forall|k: int| 0 <= k < t.num_hashed() implies #[trigger] t.link_ok(k) by {
        assert(u.link_ok(k));
        assert(t.layers@[k].nodes@.len() == u.layers@[k].nodes@.len());
        assert(t.layers@[k + 1].nodes@.len() == u.layers@[k + 1].nodes@.len());
    }
    assert forall|k: int, j: int|
        0 <= k < t.num_hashed() && 0 <= j < t.layers@[k].nodes@.len() / 2 implies #[trigger] t.parent_ok(parameter, k, j) by {
        assert(u.parent_ok(parameter, k, j));
        assert(t.layers@[k].nodes@[2 * j]@ == u.layers@[k].nodes@[2 * j]@);
        assert(t.layers@[k].nodes@[2 * j + 1]@ == u.layers@[k].nodes@[2 * j + 1]@);
        let q = t.layers@[k].start_index / 2 + j;
        assert(u.link_ok(k));
        let at = q - t.layers@[k + 1].start_index;
        assert(t.layers@[k + 1].start_index == u.layers@[k + 1].start_index);
        assert(t.layers@[k + 1].nodes@[at]@ == u.layers@[k + 1].nodes@[at]@);
    }
    assert forall|b: int| start_b <= b < end_b implies t.layers@[0].contains(b) && #[trigger] t.layers@[0].node(b)
        == node_spec::<PRF, IE, TH>(prf_key, parameter, h, b as nat) by {
        assert(u.layers@[0].node(b) == node_spec::<PRF, IE, TH>(prf_key, parameter, h, b as nat));
        assert(u.layers@[0].contains(b));
        let at = b - t.layers@[0].start_index;
        assert(t.layers@[0].nodes@[at]@ == u.layers@[0].nodes@[at]@);
    }
    assert forall|b: int| start_b <= b < end_b implies #[trigger] t.layers@[0].contains(b) by {
        assert(u.layers@[0].node(b) == node_spec::<PRF, IE, TH>(prf_key, parameter, h, b as nat));
        assert(u.layers@[0].contains(b));
    }
}

/// Trees with the same encoding have the same positions and nodes.
proof fn lemma_same_encoding_same_nodes<TH: TweakableHash>(t: HashSubTree<TH>, u: HashSubTree<TH>)
    requires
        t.spec_ssz() == u.spec_ssz(),
        t.spec_encodable(),
        u.spec_encodable(),
    ensures
        t.same_nodes(&u),
{
    lemma_subtree_ssz_injective(t, u);
    assert forall|k: int| 0 <= k < t.layers@.len() implies (#[trigger] t.layers@[k]).start_index
        == u.layers@[k].start_index && t.layers@[k].nodes@.len() == u.layers@[k].nodes@.len() by {
        assert(t.layers@[k].nodes@ == u.layers@[k].nodes@);
    }
    assert forall|k: int, i: int| 0 <= k < t.layers@.len() && 0 <= i < t.layers@[k].nodes@.len() implies (
    #[trigger] t.layers@[k].nodes@[i])@ == u.layers@[k].nodes@[i]@ by {
        assert(t.layers@[k].nodes@ == u.layers@[k].nodes@);
    }
}

/// Decoding the encoding of a well-formed key gives a well-formed key with
/// the same intervals, the same consumed epochs and the same public key.
pub proof fn lemma_decoded_key_well_formed<
    PRF: Pseudorandom,
    IE: IncomparableEncoding,
    TH: TweakableHash,
    const LOG_LIFETIME: usize,
>(
    sk: &GeneralizedXMSSSecretKey<PRF, IE, TH, LOG_LIFETIME>,
    decoded: &GeneralizedXMSSSecretKey<PRF, IE, TH, LOG_LIFETIME>,
)
    requires
        sk.spec_wf(),
        decoded.spec_encodable(),
        decoded.spec_ssz() == sk.spec_ssz(),
    ensures
        decoded.spec_wf(),
        decoded.spec_activation_start() == sk.spec_activation_start(),
        decoded.spec_activation_end() == sk.spec_activation_end(),
        decoded.spec_prepared_start() == sk.spec_prepared_start(),
        decoded.spec_prepared_end() == sk.spec_prepared_end(),
        forall|e: u32| #[trigger] decoded.spec_epoch_used(e) == sk.spec_epoch_used(e),
        public_key_of(decoded) == public_key_of(sk),
{
    lemma_well_formed_key_is_encodable(sk);
    lemma_secret_key_ssz_injective(*decoded, *sk);
    lemma_same_encoding_same_nodes(decoded.top_tree, sk.top_tree);
    lemma_same_encoding_same_nodes(decoded.left_bottom_tree, sk.left_bottom_tree);
    lemma_same_encoding_same_nodes(decoded.right_bottom_tree, sk.right_bottom_tree);
    let c = pow2((LOG_LIFETIME / 2) as nat);
    let l = sk.left_bottom_tree_index;
    lemma_bottom_tree_same_nodes::<PRF, IE, TH>(
        decoded.left_bottom_tree,
        sk.left_bottom_tree,
        sk.prf_key@,
        sk.parameter@,
        LOG_LIFETIME as nat,
        l as nat,
    );
    lemma_bottom_tree_same_nodes::<PRF, IE, TH>(
        decoded.right_bottom_tree,
        sk.right_bottom_tree,
        sk.prf_key@,
        sk.parameter@,
        LOG_LIFETIME as nat,
        (l + 1) as nat,
    );
    lemma_top_tree_same_nodes::<PRF, IE, TH>(
        decoded.top_tree,
        sk.top_tree,
        sk.prf_key@,
        sk.parameter@,
        LOG_LIFETIME as nat,
        (sk.activation_epoch as nat) / c,
        ((sk.activation_epoch + sk.num_active_epochs) as nat) / c,
    );
    let last = sk.top_tree.layers@.len() - 1;
    assert(decoded.top_tree.layers@[last].nodes@[0]@ == sk.top_tree.layers@[last].nodes@[0]@);
    assert(decoded.top_tree.layers@[last].nodes@[0] =~= sk.top_tree.layers@[last].nodes@[0]);
}

/// Every well-formed key can be encoded and passes the decoder's checks, so
/// decoding its encoding succeeds.
pub proof fn lemma_well_formed_key_decodes<
    PRF: Pseudorandom,
    IE: IncomparableEncoding,
    TH: TweakableHash,
    const LOG_LIFETIME: usize,
>(sk: &GeneralizedXMSSSecretKey<PRF, IE, TH, LOG_LIFETIME>)
    requires
        sk.spec_wf(),
    ensures
        sk.spec_encodable(),
        sk.spec_valid(),
{
    lemma_well_formed_key_is_encodable(sk);
    codec::lemma_well_formed_key_is_valid(sk);
}

/// A signature decoded from the encoding of another verifies exactly when the
/// other does.
pub proof fn lemma_decoded_signature_verifies<
    PRF: Pseudorandom,
    IE: IncomparableEncoding,
    TH: TweakableHash,
    const LOG_LIFETIME: usize,
>(
    pk: &GeneralizedXMSSPublicKey<TH>,
    epoch: u32,
    message: Seq<u8>,
    sig: &GeneralizedXMSSSignature<IE, TH>,
    decoded: &GeneralizedXMSSSignature<IE, TH>,
)
    requires
        sig.spec_encodable(),
        decoded.spec_encodable(),
        decoded.spec_ssz() == sig.spec_ssz(),
    ensures
        GeneralizedXMSSSignatureScheme::<PRF, IE, TH, LOG_LIFETIME>::spec_verify(pk, epoch, message, decoded)
            == GeneralizedXMSSSignatureScheme::<PRF, IE, TH, LOG_LIFETIME>::spec_verify(pk, epoch, message, sig),
{
    codec::lemma_signature_ssz_injective(*decoded, *sig);
    assert(decoded.path.view_path() =~= sig.path.view_path());
    assert(domain_views(decoded.hashes@) =~= domain_views(sig.hashes@));
}

/// A valid signature is for an epoch of the lifetime, carries exactly one
/// chain value per codeword entry, and its randomness encodes the message.
pub proof fn lemma_valid_signature_shape<
    PRF: Pseudorandom,
    IE: IncomparableEncoding,
    TH: TweakableHash,
    const LOG_LIFETIME: usize,
>(pk: &GeneralizedXMSSPublicKey<TH>, epoch: u32, message: Seq<u8>, sig: &GeneralizedXMSSSignature<IE, TH>)
    requires
        GeneralizedXMSSSignatureScheme::<PRF, IE, TH, LOG_LIFETIME>::spec_verify(pk, epoch, message, sig),
    ensures
        (epoch as int) < pow2(LOG_LIFETIME as nat),
        sig.hashes@.len() == IE::DIMENSION,
        IE::spec_encode(pk.parameter@, message, sig.rho@, epoch) is Some,
{
}

/// Two right bottom trees with the same index have the same positions and
/// nodes.
proof fn lemma_bottom_trees_agree<PRF: Pseudorandom, IE: IncomparableEncoding, TH: TweakableHash>(
    t: HashSubTree<TH>,
    u: HashSubTree<TH>,
    prf_key: Seq<u8>,
    parameter: Seq<u8>,
    log_lifetime: nat,
    b: nat,
)
    requires
        bottom_tree_ok::<PRF, IE, TH>(t, prf_key, parameter, log_lifetime, b),
        bottom_tree_ok::<PRF, IE, TH>(u, prf_key, parameter, log_lifetime, b),
        log_lifetime <= 32,
        b < pow2(log_lifetime / 2),
    ensures
        t.same_nodes(&u),
{
    let h = log_lifetime / 2;
    let c = pow2(h);
    assert((b + 1) * c == b * c + c) by (nonlinear_arith);
    assert forall|e: int| t.layers@[0].contains(e) implies #[trigger] t.layers@[0].node(e) == tree_leaf_spec::<TH, PRF>(
        prf_key,
        parameter,
        e as u32,
        IE::DIMENSION as nat,
        IE::BASE as nat,
    ) by {
        assert(t.layers@[0].start_index == b * pow2((h - 0) as nat));
    }
    assert forall|e: int| u.layers@[0].contains(e) implies #[trigger] u.layers@[0].node(e) == tree_leaf_spec::<TH, PRF>(
        prf_key,
        parameter,
        e as u32,
        IE::DIMENSION as nat,
        IE::BASE as nat,
    ) by {
        assert(u.layers@[0].start_index == b * pow2((h - 0) as nat));
    }
    assert forall|k: int| 0 <= k < t.layers@.len() implies (#[trigger] t.layers@[k]).start_index
        == u.layers@[k].start_index && t.layers@[k].nodes@.len() == u.layers@[k].nodes@.len() by {
        assert(t.layers@[k].start_index == b * pow2((h - k) as nat));
        assert(u.layers@[k].start_index == b * pow2((h - k) as nat));
    }
    assert forall|k: int, i: int| 0 <= k < t.layers@.len() && 0 <= i < t.layers@[k].nodes@.len() implies (
    #[trigger] t.layers@[k].nodes@[i])@ == u.layers@[k].nodes@[i]@ by {
        lemma_bottom_layers::<PRF, IE, TH>(t, prf_key, parameter, b, k as nat);
        lemma_bottom_layers::<PRF, IE, TH>(u, prf_key, parameter, b, k as nat);
        let p = t.layers@[k].start_index + i;
        assert(t.layers@[k].start_index == u.layers@[k].start_index);
        assert(t.layers@[k].nodes@.len() == u.layers@[k].nodes@.len());
        assert(t.layers@[k].contains(p));
        assert(u.layers@[k].contains(p));
        assert(t.layers@[k].node(p) == u.layers@[k].node(p));
    }
}

/// Whether `t` is bottom tree `b` of the key: rebuilds that tree and compares.
fn check_bottom_tree<PRF: Pseudorandom, IE: IncomparableEncoding, TH: TweakableHash, const LOG_LIFETIME: usize>(
    t: &HashSubTree<TH>,
    prf_key: &[u8; HASH_LENGTH],
    parameter: &[u8; HASH_LENGTH],
    b: u64,
) -> (r: bool)
    requires
        xmss_config_ok::<IE, TH>(LOG_LIFETIME as nat),
        b < pow2((LOG_LIFETIME / 2) as nat),
    ensures
        r == bottom_tree_ok::<PRF, IE, TH>(*t, prf_key@, parameter@, LOG_LIFETIME as nat, b as nat),
{
    let rebuilt = bottom_tree_from_prf_key::<PRF, IE, TH, LOG_LIFETIME>(prf_key, b, parameter);
    let r = t.same_nodes_as(&rebuilt);
    proof {
        if r {
            lemma_bottom_tree_same_nodes::<PRF, IE, TH>(*t, rebuilt, prf_key@, parameter@, LOG_LIFETIME as nat, b as nat);
        } else if bottom_tree_ok::<PRF, IE, TH>(*t, prf_key@, parameter@, LOG_LIFETIME as nat, b as nat) {
            lemma_bottom_trees_agree::<PRF, IE, TH>(*t, rebuilt, prf_key@, parameter@, LOG_LIFETIME as nat, b as nat);
        }
    }
    r
}

/// Whether `t` is the top tree of a key whose bottom trees are
/// `start_b .. end_b`: checks its structure and hashes, and rebuilds the root
/// of each of those bottom trees.
fn check_top_tree<PRF: Pseudorandom, IE: IncomparableEncoding, TH: TweakableHash, const LOG_LIFETIME: usize>(
    t: &HashSubTree<TH>,
    prf_key: &[u8; HASH_LENGTH],
    parameter: &[u8; HASH_LENGTH],
    start_b: u64,
    end_b: u64,
) -> (r: bool)
    requires
        xmss_config_ok::<IE, TH>(LOG_LIFETIME as nat),
        end_b <= pow2((LOG_LIFETIME / 2) as nat),
    ensures
        r == top_tree_ok::<PRF, IE, TH>(*t, prf_key@, parameter@, LOG_LIFETIME as nat, start_b as nat, end_b as nat),
{
    let ghost h = (LOG_LIFETIME / 2) as nat;
    proof {
        lemma_u64_pow2_no_overflow(h);
        lemma_u64_shl_is_mul(1, (LOG_LIFETIME / 2) as u64);
    }
    let half = LOG_LIFETIME / 2;
    if t.depth != LOG_LIFETIME as u64 || t.lowest_layer != half as u64 {
        return false;
    }
    if !t.check_wf() {
        return false;
    }
    if !t.check_consistent(parameter) {
        return false;
    }
    let n = t.layers.len();
    if n - 1 != half || t.layers[n - 1].start_index != 0 {
        return false;
    }
    let mut first: u64 = start_b - start_b % 2;
    let mut last_end: u64 = end_b + end_b % 2;
    let mut k: usize = 0;
    while k < n
        invariant
            n == t.layers@.len(),
            k <= n,
            end_b <= pow2(h),
            pow2(h) < u64::MAX,
            first as int == layer_start(start_b as int, k as nat),
            last_end as int == layer_end(end_b as int, k as nat),
            last_end <= end_b + 1,
            forall|j: int|
                0 <= j < k ==> (#[trigger] t.layers@[j]).start_index == layer_start(start_b as int, j as nat)
                    && t.layers@[j].end() == layer_end(end_b as int, j as nat),
        decreases n - k,
    {
        let layer = &t.layers[k];
        if layer.start_index != first || layer.start_index as u128 + layer.nodes.len() as u128 != last_end as u128 {
            proof {
                assert(!t.has_layer_shape(start_b as int, end_b as int)) by {
                    if t.has_layer_shape(start_b as int, end_b as int) {
                        assert(0 <= k <= t.num_hashed());
                        assert(t.layers@[k as int].start_index == layer_start(start_b as int, k as nat));
                    }
                }
            }
            return false;
        }
        let half_first = first / 2;
        first = half_first - half_first % 2;
        let half_end = last_end / 2;
        last_end = half_end + half_end % 2;
        k = k + 1;
    }
    proof {
        assert(t.has_layer_shape(start_b as int, end_b as int));
    }
    let c: u64 = 1u64 << (half as u64);
    let lowest = &t.layers[0];
    let start = lowest.start_index;
    let len = lowest.nodes.len();
    if start as u128 + len as u128 > c as u128 {
        return false;
    }
    let mut b: u64 = start_b;
    while b < end_b
        invariant
            xmss_config_ok::<IE, TH>(LOG_LIFETIME as nat),
            end_b <= pow2(h),
            h == LOG_LIFETIME / 2,
            t.depth == LOG_LIFETIME,
            t.lowest_layer == h,
            t.wf(),
            t.consistent(parameter@),
            t.num_hashed() == h,
            t.layers@.last().start_index == 0,
            t.layers@[0].end() <= pow2(h),
            t.has_layer_shape(start_b as int, end_b as int),
            *lowest == t.layers@[0],
            start == lowest.start_index,
            len == lowest.nodes@.len(),
            start_b <= b,
            forall|x: int| start_b <= x < b ==> #[trigger] t.layers@[0].contains(x),
            forall|x: int|
                start_b <= x < b ==> #[trigger] t.layers@[0].node(x) == node_spec::<PRF, IE, TH>(
                    prf_key@,
                    parameter@,
                    h,
                    x as nat,
                ),
        decreases end_b - b,
    {
        if !(start <= b && (b as u128) < start as u128 + len as u128) {
            proof {
                assert(!t.layers@[0].contains(b as int));
                if top_tree_ok::<PRF, IE, TH>(*t, prf_key@, parameter@, LOG_LIFETIME as nat, start_b as nat, end_b as nat) {
                    let bb = b as int;
                    assert(start_b <= bb < end_b);
                    assert(t.layers@[0].node(bb) == node_spec::<PRF, IE, TH>(prf_key@, parameter@, h, bb as nat));
                }
            }
            return false;
        }
        let tree = bottom_tree_from_prf_key::<PRF, IE, TH, LOG_LIFETIME>(prf_key, b, parameter);
        let root = tree.root();
        proof {
            assert(root@ == node_spec::<PRF, IE, TH>(prf_key@, parameter@, h, b as nat));
            assert(lowest.nodes@[(b - start) as int]@ == t.layers@[0].node(b as int));
        }
        if !bytes32_eq(&root, &lowest.nodes[(b - start) as usize]) {
            proof {
                assert(t.layers@[0].node(b as int) != node_spec::<PRF, IE, TH>(prf_key@, parameter@, h, (b as int) as nat));
            }
            return false;
        }
        proof {
            assert(t.layers@[0].contains(b as int));
            assert(t.layers@[0].node(b as int) == node_spec::<PRF, IE, TH>(prf_key@, parameter@, h, (b as int) as nat));
        }
        b = b + 1;
    }
    true
}

impl<PRF: Pseudorandom, IE: IncomparableEncoding, TH: TweakableHash, const LOG_LIFETIME: usize> GeneralizedXMSSSecretKey<
    PRF,
    IE,
    TH,
    LOG_LIFETIME,
> {
    /// Whether the key is well formed: its intervals are aligned and nested,
    /// its trees are the ones that its PRF key and parameter determine, and
    /// its consumed epochs are sorted and prepared. Rebuilds the bottom trees
    /// of the whole activation interval to check the top tree.
    pub fn is_consistent(&self) -> (r: bool)
        requires
            xmss_config_ok::<IE, TH>(LOG_LIFETIME as nat),
        ensures
            r == self.spec_wf(),
    {
        let ghost h = (LOG_LIFETIME / 2) as nat;
        proof {
            lemma_u64_pow2_no_overflow(h);
            lemma_u64_shl_is_mul(1, (LOG_LIFETIME / 2) as u64);
            lemma_pow2_adds(h, h);
            lemma2_to64();
            lemma_pow2_strictly_increases(h, 17);
            assert(h + h == LOG_LIFETIME);
        }
        let c: u64 = 1u64 << ((LOG_LIFETIME / 2) as u64);
        let cc: u128 = c as u128 * c as u128;
        let a: u128 = self.activation_epoch as u128;
        let n: u128 = self.num_active_epochs as u128;
        let end: u128 = a + n;
        if a % (c as u128) != 0 || n % (c as u128) != 0 || n < 2 * (c as u128) || end > cc {
            return false;
        }
        let l: u128 = self.left_bottom_tree_index as u128;
        proof {
            assert(l * c <= 0xffff_ffff_ffff_ffff * 0x2_0000) by (nonlinear_arith)
                requires
                    l <= 0xffff_ffff_ffff_ffff,
                    c <= 0x2_0000,
            ;
            assert((l + 2) * c == l * c + 2 * c) by (nonlinear_arith);
        }
        if a > l * (c as u128) || (l + 2) * (c as u128) > end {
            return false;
        }
        proof {
            assert(l + 2 <= c) by (nonlinear_arith)
                requires
                    (l + 2) * c <= c * c,
                    c > 0,
            ;
            assert((l + 2) * c == l * c + 2 * c) by (nonlinear_arith);
        }
        let index = self.left_bottom_tree_index;
        if !check_bottom_tree::<PRF, IE, TH, LOG_LIFETIME>(&self.left_bottom_tree, &self.prf_key, &self.parameter, index) {
            return false;
        }
        if !check_bottom_tree::<PRF, IE, TH, LOG_LIFETIME>(
            &self.right_bottom_tree,
            &self.prf_key,
            &self.parameter,
            index + 1,
        ) {
            return false;
        }
        proof {
            lemma_div_is_ordered(end as int, (c * c) as int, c as int);
            lemma_div_multiples_vanish(c as int, c as int);
            lemma_div_is_ordered(a as int, end as int, c as int);
        }
        let start_b = (a / (c as u128)) as u64;
        let end_b = (end / (c as u128)) as u64;
        if !check_top_tree::<PRF, IE, TH, LOG_LIFETIME>(&self.top_tree, &self.prf_key, &self.parameter, start_b, end_b) {
            return false;
        }
        let prepared_start = (l * (c as u128)) as u64;
        let prepared_end = ((l + 2) * (c as u128)) as u64;
        codec::consumed_epochs_ok(&self.used_epochs, prepared_start, prepared_end, prepared_start, prepared_end)
    }
}

/// Rebuilds one bottom tree from PRF-derived chain starts.
fn bottom_tree_from_prf_key<
    PRF: Pseudorandom,
    IE: IncomparableEncoding,
    TH: TweakableHash,
    const LOG_LIFETIME: usize,
>(
    prf_key: &[u8; HASH_LENGTH],
    bottom_tree_index: u64,
    parameter: &[u8; HASH_LENGTH],
) -> (t: HashSubTree<TH>)
    requires
        xmss_config_ok::<IE, TH>(LOG_LIFETIME as nat),
        bottom_tree_index < pow2((LOG_LIFETIME / 2) as nat),
    ensures
        bottom_tree_ok::<PRF, IE, TH>(t, prf_key@, parameter@, LOG_LIFETIME as nat, bottom_tree_index as nat),
{
    let ghost h = (LOG_LIFETIME / 2) as nat;
    let ghost b = bottom_tree_index as nat;
    proof {
        IE::lemma_well_configured();
        lemma_u64_pow2_no_overflow(h);
        lemma_u64_shl_is_mul(1, (LOG_LIFETIME / 2) as u64);
        lemma_pow2_adds(h, h);
        lemma2_to64();
        lemma_pow2_strictly_increases(h, 17);
        assert((b + 1) * pow2(h) <= pow2(h) * pow2(h)) by (nonlinear_arith)
            requires
                b < pow2(h),
        ;
        if LOG_LIFETIME < 32 {
            lemma_pow2_strictly_increases(LOG_LIFETIME as nat, 32);
        }
    }
    let leafs_per_bottom_tree: u64 = 1u64 << ((LOG_LIFETIME / 2) as u64);
    proof {
        assert(bottom_tree_index * leafs_per_bottom_tree + leafs_per_bottom_tree <= pow2(h) * pow2(h)) by (nonlinear_arith)
            requires
                leafs_per_bottom_tree == pow2(h),
                bottom_tree_index < pow2(h),
        ;
        assert(pow2(h) * pow2(h) == pow2(LOG_LIFETIME as nat));
        assert(pow2(LOG_LIFETIME as nat) <= 0x1_0000_0000);
    }
    let num_chains = IE::DIMENSION;
    let chain_length = IE::BASE;
    let epoch_start = bottom_tree_index * leafs_per_bottom_tree;
    let epoch_end = epoch_start + leafs_per_bottom_tree;
    let mut epochs: Vec<u32> = Vec::new();
    let mut e = epoch_start;
    while e < epoch_end
        invariant
            epoch_start <= e <= epoch_end,
            epoch_end <= 0x1_0000_0000,
            epochs@.len() == e - epoch_start,
            forall|i: int| 0 <= i < epochs@.len() ==> #[trigger] epochs@[i] == epoch_start + i,
        decreases epoch_end - e,
    {
        epochs.push(e as u32);
        e = e + 1;
    }
    let leaves = compute_tree_leaves::<TH, PRF>(prf_key, parameter, epochs.as_slice(), num_chains, chain_length);
    let ghost leaf_seq = leaves@;
    let t = HashSubTree::new_bottom_tree(LOG_LIFETIME, bottom_tree_index as usize, parameter, leaves);
    proof {
        assert(leaf_seq.len() == pow2(h));
        assert((b + 1) * pow2(h) == b * pow2(h) + pow2(h)) by (nonlinear_arith);
        assert(t.layers@[0].start_index == b * pow2(h));
        assert(t.layers@[0].nodes@.len() == pow2((h - 0) as nat));
        assert forall|ep: int| t.layers@[0].contains(ep) implies #[trigger] t.layers@[0].node(ep) == tree_leaf_spec::<TH, PRF>(
            prf_key@,
            parameter@,
            ep as u32,
            IE::DIMENSION as nat,
            IE::BASE as nat,
        ) by {
            assert(b * pow2(h) <= ep < (b + 1) * pow2(h));
            assert(t.layers@[0].node(ep) == leaf_seq[ep - b * leaf_seq.len()]@);
            assert(epochs@[ep - epoch_start] == ep);
        }
        assert forall|ep: int| b * pow2(h) <= ep < (b + 1) * pow2(h) implies #[trigger] t.layers@[0].node(ep) == tree_leaf_spec::<TH, PRF>(
            prf_key@,
            parameter@,
            ep as u32,
            IE::DIMENSION as nat,
            IE::BASE as nat,
        ) by {
            assert(t.layers@[0].contains(ep));
        }
        lemma_bottom_layers::<PRF, IE, TH>(t, prf_key@, parameter@, b, h);
        assert(t.layers@[h as int].start_index == b * pow2(0));
        assert(pow2(0) == 1);
        assert(t.layers@.last() == t.layers@[h as int]);
        assert(t.layers@[h as int].contains(b as int));
        assert(t.layers@[h as int].node(b as int) == node_spec::<PRF, IE, TH>(prf_key@, parameter@, h, b));
        assert(t.spec_root() == t.layers@[h as int].node(b as int));
        assert(t.depth == LOG_LIFETIME);
        assert(t.is_bottom_tree(b));
        assert(t.wf());
        assert(t.consistent(parameter@));
    }
    t
}


// ---------------------------------------------------------------------------
// Consumed epochs
// ---------------------------------------------------------------------------

/// Strictly increasing.
pub open spec fn strictly_sorted(s: Seq<u32>) -> bool {
    forall|i: int, j: int| 0 <= i < j < s.len() ==> s[i] < s[j]
}

/// The entries of `s` that are at least `bound`, in order.
pub open spec fn epochs_from(s: Seq<u32>, bound: int) -> Seq<u32>
    decreases s.len(),
{
    if s.len() == 0 {
        s
    } else if s.last() >= bound {
        epochs_from(s.drop_last(), bound).push(s.last())
    } else {
        epochs_from(s.drop_last(), bound)
    }
}

proof fn lemma_epochs_from_contains(s: Seq<u32>, bound: int, x: u32)
    ensures
        epochs_from(s, bound).contains(x) <==> (s.contains(x) && x >= bound),
    decreases s.len(),
{
    if s.len() > 0 {
        lemma_epochs_from_contains(s.drop_last(), bound, x);
        if s.contains(x) && x != s.last() {
            let i = choose|i: int| 0 <= i < s.len() && s[i] == x;
            assert(s.drop_last()[i] == x);
        }
        if s.drop_last().contains(x) {
            let i = choose|i: int| 0 <= i < s.drop_last().len() && s.drop_last()[i] == x;
            assert(s[i] == x);
        }
        let r = epochs_from(s.drop_last(), bound);
        if s.last() >= bound {
            if r.push(s.last()).contains(x) && x != s.last() {
                let i = choose|i: int| 0 <= i < r.push(s.last()).len() && r.push(s.last())[i] == x;
                assert(r[i] == x);
            }
            if r.contains(x) {
                let i = choose|i: int| 0 <= i < r.len() && r[i] == x;
                assert(r.push(s.last())[i] == x);
            }
            assert(r.push(s.last())[r.len() as int] == s.last());
        }
        assert(s[s.len() - 1] == s.last());
    }
}

/// Binary search in a strictly increasing vector: the index of `x`, or the
/// index at which inserting `x` keeps the order.
fn search_sorted(v: &Vec<u32>, x: u32) -> (r: Result<usize, usize>)
    requires
        strictly_sorted(v@),
    ensures
        match r {
            Ok(i) => i < v@.len() && v@[i as int] == x,
            Err(i) => {
                &&& i <= v@.len()
                &&& !v@.contains(x)
                &&& forall|j: int| 0 <= j < i ==> v@[j] < x
                &&& forall|j: int| i <= j < v@.len() ==> v@[j] > x
            },
        },
{
    let mut lo: usize = 0;
    let mut hi: usize = v.len();
    while lo < hi
        invariant
            0 <= lo <= hi <= v@.len(),
            strictly_sorted(v@),
            forall|j: int| 0 <= j < lo ==> v@[j] < x,
            forall|j: int| hi <= j < v@.len() ==> v@[j] > x,
        decreases hi - lo,
    {
        let mid = lo + (hi - lo) / 2;
        if v[mid] == x {
            return Ok(mid);
        } else if v[mid] < x {
            lo = mid + 1;
        } else {
            hi = mid;
        }
    }
    proof {
        if v@.contains(x) {
            let j = choose|j: int| 0 <= j < v@.len() && v@[j] == x;
            assert(v@[j] == x);
        }
    }
    Err(lo)
}

/// Inserting `x` at its place keeps a strictly increasing vector so.
proof fn lemma_insert_sorted(s: Seq<u32>, i: int, x: u32)
    requires
        strictly_sorted(s),
        0 <= i <= s.len(),
        forall|j: int| 0 <= j < i ==> s[j] < x,
        forall|j: int| i <= j < s.len() ==> s[j] > x,
    ensures
        strictly_sorted(s.insert(i, x)),
        forall|y: u32| s.insert(i, x).contains(y) <==> (s.contains(y) || y == x),
{
    let t = s.insert(i, x);
    assert forall|a: int, b: int| 0 <= a < b < t.len() implies t[a] < t[b] by {
        if b < i {
        } else if b == i {
        } else if a < i {
            assert(t[b] == s[b - 1]);
        } else if a == i {
            assert(t[b] == s[b - 1]);
        } else {
            assert(t[a] == s[a - 1] && t[b] == s[b - 1]);
        }
    }
    assert forall|y: u32| t.contains(y) <==> (s.contains(y) || y == x) by {
        if t.contains(y) {
            let k = choose|k: int| 0 <= k < t.len() && t[k] == y;
            if k < i {
                assert(s[k] == y);
            } else if k > i {
                assert(s[k - 1] == y);
            }
        }
        if s.contains(y) {
            let k = choose|k: int| 0 <= k < s.len() && s[k] == y;
            if k < i {
                assert(t[k] == y);
            } else {
                assert(t[k + 1] == y);
            }
        }
        if y == x {
            assert(t[i] == x);
        }
    }
}

/// A sequence whose elements all occur in one whose elements lie in
/// `[lo, hi)` has its elements there too.
proof fn lemma_in_window(s: Seq<u32>, t: Seq<u32>, lo: int, hi: int)
    requires
        forall|i: int| 0 <= i < s.len() ==> lo <= #[trigger] s[i] < hi,
        forall|x: u32| t.contains(x) ==> s.contains(x),
    ensures
        forall|i: int| 0 <= i < t.len() ==> lo <= #[trigger] t[i] < hi,
{
    assert forall|i: int| 0 <= i < t.len() implies lo <= #[trigger] t[i] < hi by {
        assert(t.contains(t[i]));
        let j = choose|j: int| 0 <= j < s.len() && s[j] == t[i];
        assert(lo <= s[j] < hi);
    }
}

/// Keeping the entries from a bound keeps a sequence strictly increasing.
proof fn lemma_epochs_from_sorted(s: Seq<u32>, bound: int)
    requires
        strictly_sorted(s),
    ensures
        strictly_sorted(epochs_from(s, bound)),
    decreases s.len(),
{
    if s.len() > 0 {
        let t = s.drop_last();
        assert(strictly_sorted(t));
        lemma_epochs_from_sorted(t, bound);
        let r = epochs_from(t, bound);
        if s.last() >= bound {
            assert forall|i: int, j: int| 0 <= i < j < r.push(s.last()).len() implies r.push(s.last())[i] < r.push(
                s.last(),
            )[j] by {
                if j == r.len() {
                    assert(r.contains(r[i]));
                    lemma_epochs_from_contains(t, bound, r[i]);
                    let k = choose|k: int| 0 <= k < t.len() && t[k] == r[i];
                    assert(s[k] < s[s.len() - 1]);
                }
            }
        }
    }
}

/// The bounds of a key's activation interval and prepared window can be
/// computed in `u64`.
pub open spec fn intervals_fit<PRF: Pseudorandom, IE: IncomparableEncoding, TH: TweakableHash, const LOG_LIFETIME: usize>(
    sk: &GeneralizedXMSSSecretKey<PRF, IE, TH, LOG_LIFETIME>,
) -> bool {
    &&& LOG_LIFETIME / 2 < 64
    &&& sk.activation_epoch + sk.num_active_epochs <= u64::MAX
    &&& (sk.left_bottom_tree_index + 2) * pow2((LOG_LIFETIME / 2) as nat) <= u64::MAX
}

/// The public key of a secret key: the root of its top tree and its parameter.
pub open spec fn public_key_of<PRF: Pseudorandom, IE: IncomparableEncoding, TH: TweakableHash, const LOG_LIFETIME: usize>(
    sk: &GeneralizedXMSSSecretKey<PRF, IE, TH, LOG_LIFETIME>,
) -> GeneralizedXMSSPublicKey<TH> {
    GeneralizedXMSSPublicKey { root: sk.top_tree.layers@.last().nodes@[0], parameter: sk.parameter, _hash: PhantomData }
}

/// The intervals of a well-formed key can be computed.
proof fn lemma_wf_intervals_fit<PRF: Pseudorandom, IE: IncomparableEncoding, TH: TweakableHash, const LOG_LIFETIME: usize>(
    sk: &GeneralizedXMSSSecretKey<PRF, IE, TH, LOG_LIFETIME>,
)
    requires
        sk.spec_wf(),
    ensures
        sk.spec_intervals_fit(),
{
    lemma2_to64();
    lemma_pow2_strictly_increases(LOG_LIFETIME as nat, 64);
}

/// Two strictly increasing sequences with the same elements are equal.
proof fn lemma_sorted_same_elements(a: Seq<u32>, b: Seq<u32>)
    requires
        strictly_sorted(a),
        strictly_sorted(b),
        forall|x: u32| a.contains(x) <==> b.contains(x),
    ensures
        a == b,
    decreases a.len(),
{
    if a.len() == 0 {
        if b.len() > 0 {
            assert(b.contains(b[0]));
        }
        assert(a =~= b);
    } else {
        if b.len() == 0 {
            assert(a.contains(a[0]));
        }
        let x = a.last();
        let y = b.last();
        assert(a.contains(x));
        assert(b.contains(y));
        let i = choose|i: int| 0 <= i < b.len() && b[i] == x;
        let j = choose|j: int| 0 <= j < a.len() && a[j] == y;
        if i < b.len() - 1 {
            assert(b[i] < b[b.len() - 1]);
        }
        if j < a.len() - 1 {
            assert(a[j] < a[a.len() - 1]);
        }
        assert(x == y);
        let a1 = a.drop_last();
        let b1 = b.drop_last();
        assert forall|z: u32| a1.contains(z) <==> b1.contains(z) by {
            if a1.contains(z) {
                let k = choose|k: int| 0 <= k < a1.len() && a1[k] == z;
                assert(a[k] < a[a.len() - 1]);
                assert(a.contains(z));
                let m = choose|m: int| 0 <= m < b.len() && b[m] == z;
                assert(m != b.len() - 1);
                assert(b1[m] == z);
            }
            if b1.contains(z) {
                let k = choose|k: int| 0 <= k < b1.len() && b1[k] == z;
                assert(b[k] < b[b.len() - 1]);
                assert(b.contains(z));
                let m = choose|m: int| 0 <= m < a.len() && a[m] == z;
                assert(m != a.len() - 1);
                assert(a1[m] == z);
            }
        }
        lemma_sorted_same_elements(a1, b1);
        assert(a =~= a1.push(x));
        assert(b =~= b1.push(y));
    }
}

/// Sorts the consumed epochs and removes repeated ones.
fn normalize_epochs(v: &mut Vec<u32>)
    ensures
        strictly_sorted(final(v)@),
        forall|x: u32| final(v)@.contains(x) <==> old(v)@.contains(x),
{
    let mut out: Vec<u32> = Vec::new();
    let n = v.len();
    for i in 0..n
        invariant
            n == v@.len(),
            strictly_sorted(out@),
            forall|x: u32| out@.contains(x) <==> v@.subrange(0, i as int).contains(x),
    {
        let x = v[i];
        let ghost before = out@;
        proof {
            let pre = v@.subrange(0, i as int);
            let post = v@.subrange(0, i + 1);
            assert(post =~= pre.push(x));
            assert forall|y: u32| post.contains(y) <==> (pre.contains(y) || y == x) by {
                if post.contains(y) {
                    let k = choose|k: int| 0 <= k < post.len() && post[k] == y;
                    if k < i {
                        assert(pre[k] == y);
                    }
                }
                if pre.contains(y) {
                    let k = choose|k: int| 0 <= k < pre.len() && pre[k] == y;
                    assert(post[k] == y);
                }
                if y == x {
                    assert(post[i as int] == x);
                }
            }
        }
        match search_sorted(&out, x) {
            Ok(idx) => {
                proof {
                    assert(out@[idx as int] == x);
                    let pre = v@.subrange(0, i as int);
                    let post = v@.subrange(0, i + 1);
                    assert forall|y: u32| out@.contains(y) <==> post.contains(y) by {
                        assert(post.contains(y) <==> (pre.contains(y) || y == x));
                        assert(out@.contains(y) <==> pre.contains(y));
                    }
                }
            },
            Err(pos) => {
                proof {
                    lemma_insert_sorted(out@, pos as int, x);
                }
                out.insert(pos, x);
                proof {
                    let pre = v@.subrange(0, i as int);
                    let post = v@.subrange(0, i + 1);
                    assert forall|y: u32| out@.contains(y) <==> post.contains(y) by {
                        assert(post.contains(y) <==> (pre.contains(y) || y == x));
                        assert(out@.contains(y) <==> (before.contains(y) || y == x));
                        assert(before.contains(y) <==> pre.contains(y));
                    }
                }
            },
        }
    }
    proof {
        assert(v@.subrange(0, n as int) =~= v@);
    }
    *v = out;
}

/// Keeps the consumed epochs that are at least `bound`.
fn retain_epochs_from(v: &mut Vec<u32>, bound: u64)
    ensures
        final(v)@ == epochs_from(old(v)@, bound as int),
{
    let mut out: Vec<u32> = Vec::new();
    let n = v.len();
    for i in 0..n
        invariant
            n == v@.len(),
            out@ == epochs_from(v@.subrange(0, i as int), bound as int),
    {
        proof {
            assert(v@.subrange(0, i + 1).drop_last() =~= v@.subrange(0, i as int));
            assert(v@.subrange(0, i + 1).last() == v@[i as int]);
        }
        if v[i] as u64 >= bound {
            out.push(v[i]);
        }
    }
    proof {
        assert(v@.subrange(0, n as int) =~= v@);
    }
    *v = out;
}

// ---------------------------------------------------------------------------
// Secret key
// ---------------------------------------------------------------------------

impl<PRF: Pseudorandom, IE: IncomparableEncoding, TH: TweakableHash, const LOG_LIFETIME: usize> SignatureSchemeSecretKey for GeneralizedXMSSSecretKey<
    PRF,
    IE,
    TH,
    LOG_LIFETIME,
> {
    open spec fn spec_wf(&self) -> bool {
        let c = pow2((LOG_LIFETIME / 2) as nat);
        let end = self.activation_epoch + self.num_active_epochs;
        &&& xmss_config_ok::<IE, TH>(LOG_LIFETIME as nat)
        &&& (self.activation_epoch as nat) % c == 0
        &&& (self.num_active_epochs as nat) % c == 0
        &&& self.num_active_epochs >= 2 * c
        &&& end <= pow2(LOG_LIFETIME as nat)
        &&& self.activation_epoch <= self.left_bottom_tree_index * c
        &&& (self.left_bottom_tree_index + 2) * c <= end
        &&& bottom_tree_ok::<PRF, IE, TH>(
            self.left_bottom_tree,
            self.prf_key@,
            self.parameter@,
            LOG_LIFETIME as nat,
            self.left_bottom_tree_index as nat,
        )
        &&& bottom_tree_ok::<PRF, IE, TH>(
            self.right_bottom_tree,
            self.prf_key@,
            self.parameter@,
            LOG_LIFETIME as nat,
            (self.left_bottom_tree_index + 1) as nat,
        )
        &&& top_tree_ok::<PRF, IE, TH>(
            self.top_tree,
            self.prf_key@,
            self.parameter@,
            LOG_LIFETIME as nat,
            (self.activation_epoch as nat) / c,
            (end as nat) / c,
        )
        &&& strictly_sorted(self.used_epochs@)
        &&& forall|i: int|
            0 <= i < self.used_epochs@.len() ==> self.left_bottom_tree_index * c <= #[trigger] self.used_epochs@[i] < (
            self.left_bottom_tree_index + 2) * c
    }

    open spec fn spec_activation_start(&self) -> int {
        self.activation_epoch as int
    }

    open spec fn spec_activation_end(&self) -> int {
        self.activation_epoch + self.num_active_epochs
    }

    open spec fn spec_prepared_start(&self) -> int {
        self.left_bottom_tree_index * pow2((LOG_LIFETIME / 2) as nat)
    }

    open spec fn spec_prepared_end(&self) -> int {
        (self.left_bottom_tree_index + 2) * pow2((LOG_LIFETIME / 2) as nat)
    }

    open spec fn spec_epoch_used(&self, epoch: u32) -> bool {
        self.used_epochs@.contains(epoch)
    }

    open spec fn spec_intervals_fit(&self) -> bool {
        intervals_fit(self)
    }

    fn get_activation_interval(&self) -> (r: std::ops::Range<u64>) {
        let start = self.activation_epoch;
        let end = start + self.num_active_epochs;
        start..end
    }

    fn get_prepared_interval(&self) -> (r: std::ops::Range<u64>) {
        let ghost c = pow2((LOG_LIFETIME / 2) as nat);
        proof {
            lemma_u64_pow2_no_overflow((LOG_LIFETIME / 2) as nat);
            lemma_u64_shl_is_mul(1, (LOG_LIFETIME / 2) as u64);
            assert((self.left_bottom_tree_index + 2) * c == self.left_bottom_tree_index * c + 2 * c) by (nonlinear_arith);
            assert(self.left_bottom_tree_index * c <= (self.left_bottom_tree_index + 2) * c) by (nonlinear_arith);
        }
        let leafs_per_bottom_tree: u64 = 1u64 << ((LOG_LIFETIME / 2) as u64);
        let start = self.left_bottom_tree_index * leafs_per_bottom_tree;
        let end = start + (2 * leafs_per_bottom_tree);
        start..end
    }

    fn advance_preparation(&mut self)
        ensures
            ({
                let c = pow2((LOG_LIFETIME / 2) as nat);
                let advanced = (old(self).left_bottom_tree_index + 3) * c <= old(self).activation_epoch
                    + old(self).num_active_epochs;
                &&& advanced ==> final(self).left_bottom_tree_index == old(self).left_bottom_tree_index + 1
                &&& advanced ==> final(self).left_bottom_tree == old(self).right_bottom_tree
                &&& advanced ==> final(self).used_epochs@ == epochs_from(
                    old(self).used_epochs@,
                    (old(self).left_bottom_tree_index + 1) * c,
                )
                &&& !advanced ==> *final(self) == *old(self)
                &&& final(self).top_tree == old(self).top_tree
                &&& final(self).parameter == old(self).parameter
                &&& public_key_of(final(self)) == public_key_of(old(self))
                &&& final(self).prf_key == old(self).prf_key
                &&& final(self).activation_epoch == old(self).activation_epoch
                &&& final(self).num_active_epochs == old(self).num_active_epochs
            }),
            final(self).spec_encodable(),
    {
        let ghost h = (LOG_LIFETIME / 2) as nat;
        let ghost c = pow2(h);
        let ghost l = self.left_bottom_tree_index as nat;
        proof {
            lemma_u64_pow2_no_overflow(h);
            lemma_u64_shl_is_mul(1, (LOG_LIFETIME / 2) as u64);
            lemma2_to64();
            lemma_pow2_strictly_increases(LOG_LIFETIME as nat, 64);
            lemma_pow2_adds(h, h);
            lemma_pow2_pos(h);
            assert((l + 3) * c == l * c + 3 * c) by (nonlinear_arith);
            assert((l + 2) * c == l * c + 2 * c) by (nonlinear_arith);
        }
        let leafs_per_bottom_tree: u64 = 1u64 << ((LOG_LIFETIME / 2) as u64);
        let next_prepared_end_epoch = self.left_bottom_tree_index * leafs_per_bottom_tree + 3 * leafs_per_bottom_tree;
        proof {
            lemma_wf_intervals_fit(self);
            lemma_well_formed_key_is_encodable(self);
        }
        if next_prepared_end_epoch > self.get_activation_interval().end {
            return;
        }
        proof {
            assert(l + 3 <= c) by (nonlinear_arith)
                requires
                    (l + 3) * c <= c * c,
                    c > 0,
            ;
        }
        let mut new_right_bottom_tree = bottom_tree_from_prf_key::<PRF, IE, TH, LOG_LIFETIME>(
            &self.prf_key,
            self.left_bottom_tree_index + 2,
            &self.parameter,
        );
        std::mem::swap(&mut self.right_bottom_tree, &mut new_right_bottom_tree);
        self.left_bottom_tree = new_right_bottom_tree;
        self.left_bottom_tree_index = self.left_bottom_tree_index + 1;
        proof {
            assert(self.left_bottom_tree_index == l + 1);
            assert((l + 1) * c == l * c + c) by (nonlinear_arith);
            assert(self.left_bottom_tree_index * leafs_per_bottom_tree == l * c + c);
        }
        let prepared_start = self.left_bottom_tree_index * leafs_per_bottom_tree;
        retain_epochs_from(&mut self.used_epochs, prepared_start);
        proof {
            let old_used = old(self).used_epochs@;
            lemma_epochs_from_sorted(old_used, ((l + 1) * c) as int);
            assert forall|i: int| 0 <= i < self.used_epochs@.len() implies (l + 1) * c <= #[trigger] self.used_epochs@[i]
                < (l + 3) * c by {
                let x = self.used_epochs@[i];
                assert(self.used_epochs@.contains(x));
                lemma_epochs_from_contains(old_used, ((l + 1) * c) as int, x);
                let j = choose|j: int| 0 <= j < old_used.len() && old_used[j] == x;
                assert(l * c <= old_used[j] < (l + 2) * c);
            }
            assert((l + 1) * c == l * c + c) by (nonlinear_arith);
            assert((l + 1 + 2) * c == l * c + 3 * c) by (nonlinear_arith);
            lemma_well_formed_key_is_encodable(self);
        }
    }
}


// ---------------------------------------------------------------------------
// The scheme
// ---------------------------------------------------------------------------

/// The chain ends that a verifier computes: chain `i` continues from the
/// signature's value at position `x[i]` to the end of the chain.
pub open spec fn verifier_chain_ends<IE: IncomparableEncoding, TH: TweakableHash>(
    parameter: Seq<u8>,
    epoch: u32,
    x: Seq<u8>,
    hashes: Seq<Seq<u8>>,
) -> Seq<Seq<u8>> {
    Seq::new(
        x.len(),
        |i: int| chain_spec::<TH>(parameter, epoch, i as u8, x[i] as nat, (IE::BASE - 1 - x[i]) as nat, hashes[i]),
    )
}

/// The authentication path of `epoch` in a key: the path in the prepared
/// bottom tree that holds the epoch, then the path of that bottom tree's root
/// in the top tree.
pub open spec fn signing_path<PRF: Pseudorandom, IE: IncomparableEncoding, TH: TweakableHash, const LOG_LIFETIME: usize>(
    sk: GeneralizedXMSSSecretKey<PRF, IE, TH, LOG_LIFETIME>,
    epoch: u32,
) -> Seq<Seq<u8>> {
    let c = pow2((LOG_LIFETIME / 2) as nat);
    let l = sk.left_bottom_tree_index as nat;
    if (epoch as int) < (l + 1) * c {
        sk.left_bottom_tree.path_spec(epoch as nat) + sk.top_tree.path_spec(l)
    } else {
        sk.right_bottom_tree.path_spec(epoch as nat) + sk.top_tree.path_spec(l + 1)
    }
}

/// `sig` is the signature that `sk` gives `message` at `epoch`: its
/// randomness is the first of the deterministic candidates whose encoding
/// succeeds, chain `i` is walked from its PRF start to the codeword's entry
/// `i`, and the path is the epoch's authentication path.
pub open spec fn signature_of<PRF: Pseudorandom, IE: IncomparableEncoding, TH: TweakableHash, const LOG_LIFETIME: usize>(
    sk: GeneralizedXMSSSecretKey<PRF, IE, TH, LOG_LIFETIME>,
    epoch: u32,
    message: Seq<u8>,
    sig: GeneralizedXMSSSignature<IE, TH>,
) -> bool {
    &&& exists|a: int|
        0 <= a < IE::MAX_TRIES && sig.rho@ == #[trigger] PRF::spec_randomness(sk.prf_key@, epoch, message, a as u64) && (
        forall|b: int|
            0 <= b < a ==> (#[trigger] IE::spec_encode(
                sk.parameter@,
                message,
                PRF::spec_randomness(sk.prf_key@, epoch, message, b as u64),
                epoch,
            )) is None)
    &&& IE::spec_encode(sk.parameter@, message, sig.rho@, epoch) matches Some(x) && sig.hashes@.len() == x.len() && (
    forall|i: int|
        0 <= i < x.len() ==> (#[trigger] sig.hashes@[i])@ == chain_spec::<TH>(
            sk.parameter@,
            epoch,
            i as u8,
            0,
            x[i] as nat,
            PRF::spec_domain_element(sk.prf_key@, epoch, i as u64),
        ))
    &&& sig.path.view_path() == signing_path(sk, epoch)
}

/// The lifetime fits the machine's integers.
proof fn lemma_lifetime_fits(log_lifetime: nat)
    requires
        log_lifetime % 2 == 0,
        4 <= log_lifetime <= 32,
        log_lifetime < usize::BITS,
    ensures
        pow2(log_lifetime) + pow2(log_lifetime / 2) <= usize::MAX,
        pow2(log_lifetime) <= 0x1_0000_0000,
        pow2(log_lifetime / 2) <= 0x1_0000,
        pow2(log_lifetime) == pow2(log_lifetime / 2) * pow2(log_lifetime / 2),
        pow2(log_lifetime / 2) >= 4,
{
    lemma2_to64();
    let h = log_lifetime / 2;
    lemma_pow2_adds(h, h);
    if log_lifetime < 32 {
        lemma_pow2_strictly_increases(log_lifetime, 32);
    }
    if h < 16 {
        lemma_pow2_strictly_increases(h, 16);
    }
    if h > 2 {
        lemma_pow2_strictly_increases(2, h);
    }
    if usize::BITS == 32 {
        assert(log_lifetime <= 30);
        if log_lifetime < 30 {
            lemma_pow2_strictly_increases(log_lifetime, 30);
        }
        if h < 15 {
            lemma_pow2_strictly_increases(h, 15);
        }
    }
}

impl<PRF: Pseudorandom, IE: IncomparableEncoding, TH: TweakableHash, const LOG_LIFETIME: usize> GeneralizedXMSSSignatureScheme<
    PRF,
    IE,
    TH,
    LOG_LIFETIME,
> {
    /// The lifetime is `2^LOG_LIFETIME` epochs.
    pub proof fn lemma_lifetime()
        requires
            LOG_LIFETIME < 64,
        ensures
            <Self as SignatureScheme>::LIFETIME == pow2(LOG_LIFETIME as nat),
    {
        lemma_u64_pow2_no_overflow(LOG_LIFETIME as nat);
        lemma_u64_shl_is_mul(1, LOG_LIFETIME as u64);
    }
}

impl<PRF: Pseudorandom, IE: IncomparableEncoding, TH: TweakableHash, const LOG_LIFETIME: usize> SignatureScheme for GeneralizedXMSSSignatureScheme<
    PRF,
    IE,
    TH,
    LOG_LIFETIME,
> {
    type PublicKey = GeneralizedXMSSPublicKey<TH>;

    type SecretKey = GeneralizedXMSSSecretKey<PRF, IE, TH, LOG_LIFETIME>;

    type Signature = GeneralizedXMSSSignature<IE, TH>;

    const LIFETIME: u64 = 1u64 << (LOG_LIFETIME as u64);

    open spec fn spec_well_configured() -> bool {
        xmss_config_ok::<IE, TH>(LOG_LIFETIME as nat)
    }

    open spec fn spec_public_key(sk: &GeneralizedXMSSSecretKey<PRF, IE, TH, LOG_LIFETIME>) -> GeneralizedXMSSPublicKey<TH> {
        public_key_of(sk)
    }

    open spec fn spec_verify(
        pk: &GeneralizedXMSSPublicKey<TH>,
        epoch: u32,
        message: Seq<u8>,
        sig: &GeneralizedXMSSSignature<IE, TH>,
    ) -> bool {
        &&& (epoch as int) < pow2(LOG_LIFETIME as nat)
        &&& sig.hashes@.len() == IE::DIMENSION
        &&& match IE::spec_encode(pk.parameter@, message, sig.rho@, epoch) {
            Some(x) => spec_hash_tree_verify::<TH>(
                pk.parameter@,
                pk.root@,
                epoch,
                verifier_chain_ends::<IE, TH>(pk.parameter@, epoch, x, domain_views(sig.hashes@)),
                sig.path.view_path(),
            ),
            None => false,
        }
    }

    fn key_gen(
        rng: &mut rand::rngs::StdRng,
        activation_epoch: usize,
        num_active_epochs: usize,
    ) -> (r: (GeneralizedXMSSPublicKey<TH>, GeneralizedXMSSSecretKey<PRF, IE, TH, LOG_LIFETIME>))
        ensures
            ({
                let c = pow2((LOG_LIFETIME / 2) as nat) as int;
                let units = expand_units(
                    (activation_epoch as int) / c,
                    (activation_epoch + num_active_epochs + c - 1) / c,
                    c,
                );
                &&& r.1.activation_epoch == units.0 * c
                &&& r.1.activation_epoch + r.1.num_active_epochs == units.1 * c
                &&& r.1.left_bottom_tree_index == units.0
                &&& r.1.used_epochs@.len() == 0
            }),
            ({
                let c = pow2((LOG_LIFETIME / 2) as nat) as int;
                let first = activation_epoch as int / c;
                let last = (activation_epoch + num_active_epochs + c - 1) / c;
                let end = r.1.activation_epoch + r.1.num_active_epochs;
                if first + 2 <= c {
                    &&& r.1.activation_epoch == first * c
                    &&& end == (if last < first + 2 { first + 2 } else { last }) * c
                } else {
                    &&& r.1.activation_epoch == (c - 2) * c
                    &&& end == c * c
                }
            }),
            r.1.spec_encodable(),
    {
        let ghost h = (LOG_LIFETIME / 2) as nat;
        let ghost c = pow2(h);
        proof {
            lemma_lifetime_fits(LOG_LIFETIME as nat);
            lemma_u64_shl_is_mul(1, LOG_LIFETIME as u64);
            lemma_usize_pow2_no_overflow(h);
            lemma_usize_shl_is_mul(1, (LOG_LIFETIME / 2) as usize);
        }
        // The secret key keeps the top tree and two consecutive bottom trees.
        let leafs_per_bottom_tree: usize = 1usize << (LOG_LIFETIME / 2);
        let (start_bottom_tree_index, end_bottom_tree_index) = expand_activation_time::<LOG_LIFETIME>(
            activation_epoch,
            num_active_epochs,
        );
        let ghost s0 = start_bottom_tree_index as nat;
        let ghost e0 = end_bottom_tree_index as nat;
        proof {
            assert(e0 <= c) by (nonlinear_arith)
                requires
                    e0 * c <= c * c,
                    c > 0,
            ;
            assert(e0 * c >= activation_epoch + num_active_epochs);
            assert(s0 * c + 2 * c <= e0 * c) by (nonlinear_arith)
                requires
                    e0 - s0 >= 2,
                    c > 0,
            ;
        }
        let num_bottom_trees = end_bottom_tree_index - start_bottom_tree_index;
        let new_activation_epoch = start_bottom_tree_index * leafs_per_bottom_tree;
        proof {
            assert(num_bottom_trees * c + s0 * c == e0 * c) by (nonlinear_arith)
                requires
                    num_bottom_trees == e0 - s0,
            ;
        }
        let new_num_active_epochs = num_bottom_trees * leafs_per_bottom_tree;

        let parameter = TH::rand_parameter(rng);
        let prf_key = PRF::key_gen(rng);
        let mut roots_of_bottom_trees: Vec<[u8; HASH_LENGTH]> = Vec::with_capacity(num_bottom_trees);

        let left_bottom_tree_index = start_bottom_tree_index as u64;
        let left_bottom_tree = bottom_tree_from_prf_key::<PRF, IE, TH, LOG_LIFETIME>(
            &prf_key,
            left_bottom_tree_index,
            &parameter,
        );
        roots_of_bottom_trees.push(left_bottom_tree.root());

        let right_bottom_tree_index = (start_bottom_tree_index + 1) as u64;
        let right_bottom_tree = bottom_tree_from_prf_key::<PRF, IE, TH, LOG_LIFETIME>(
            &prf_key,
            right_bottom_tree_index,
            &parameter,
        );
        roots_of_bottom_trees.push(right_bottom_tree.root());

        let mut bottom_tree_index = start_bottom_tree_index + 2;
        while bottom_tree_index < end_bottom_tree_index
            invariant
                xmss_config_ok::<IE, TH>(LOG_LIFETIME as nat),
                h == LOG_LIFETIME / 2,
                c == pow2(h),
                start_bottom_tree_index + 2 <= bottom_tree_index <= end_bottom_tree_index,
                end_bottom_tree_index <= c,
                roots_of_bottom_trees@.len() == bottom_tree_index - start_bottom_tree_index,
                forall|i: int|
                    0 <= i < roots_of_bottom_trees@.len() ==> (#[trigger] roots_of_bottom_trees@[i])@ == node_spec::<
                        PRF,
                        IE,
                        TH,
                    >(prf_key@, parameter@, h, (start_bottom_tree_index + i) as nat),
            decreases end_bottom_tree_index - bottom_tree_index,
        {
            let bottom_tree = bottom_tree_from_prf_key::<PRF, IE, TH, LOG_LIFETIME>(
                &prf_key,
                bottom_tree_index as u64,
                &parameter,
            );
            roots_of_bottom_trees.push(bottom_tree.root());
            bottom_tree_index = bottom_tree_index + 1;
        }
        let ghost roots = roots_of_bottom_trees@;
        let top_tree = HashSubTree::new_top_tree(
            rng,
            LOG_LIFETIME,
            start_bottom_tree_index,
            &parameter,
            roots_of_bottom_trees,
        );

        let sk = GeneralizedXMSSSecretKey {
            prf_key,
            parameter,
            activation_epoch: new_activation_epoch as u64,
            num_active_epochs: new_num_active_epochs as u64,
            top_tree,
            left_bottom_tree_index,
            left_bottom_tree,
            right_bottom_tree,
            used_epochs: Vec::new(),
            _prf: PhantomData,
            _encoding_type: PhantomData,
        };
        proof {
            lemma_mod_multiples_basic(s0 as int, c as int);
            lemma_mod_multiples_basic(num_bottom_trees as int, c as int);
            lemma_div_multiples_vanish(s0 as int, c as int);
            lemma_div_multiples_vanish(e0 as int, c as int);
            assert(c * s0 == s0 * c) by (nonlinear_arith);
            assert(c * e0 == e0 * c) by (nonlinear_arith);
            assert(c * num_bottom_trees == num_bottom_trees * c) by (nonlinear_arith);
            assert(num_bottom_trees * c >= 2 * c) by (nonlinear_arith)
                requires
                    num_bottom_trees >= 2,
                    c > 0,
            ;
            let end = sk.activation_epoch + sk.num_active_epochs;
            assert(end == e0 * c);
            assert((sk.activation_epoch as nat) / c == s0);
            assert((end as nat) / c == e0);
            assert forall|b: int|
                s0 <= b < e0 implies sk.top_tree.layers@[0].contains(b) && #[trigger] sk.top_tree.layers@[0].node(b)
                    == node_spec::<PRF, IE, TH>(prf_key@, parameter@, h, b as nat) by {
                assert(sk.top_tree.layers@[0].node(b) == roots[b - s0]@);
            }
            assert(sk.activation_epoch <= sk.left_bottom_tree_index * c);
            assert((sk.left_bottom_tree_index + 2) * c <= end) by (nonlinear_arith)
                requires
                    sk.left_bottom_tree_index == s0,
                    end == e0 * c,
                    e0 >= s0 + 2,
                    c > 0,
            ;
            assert(end <= pow2(LOG_LIFETIME as nat)) by (nonlinear_arith)
                requires
                    end == e0 * c,
                    e0 <= c,
                    pow2(LOG_LIFETIME as nat) == c * c,
                    c > 0,
            ;
            assert(top_tree_ok::<PRF, IE, TH>(sk.top_tree, prf_key@, parameter@, LOG_LIFETIME as nat, s0, e0));
            assert(bottom_tree_ok::<PRF, IE, TH>(sk.left_bottom_tree, prf_key@, parameter@, LOG_LIFETIME as nat, s0));
            assert(bottom_tree_ok::<PRF, IE, TH>(sk.right_bottom_tree, prf_key@, parameter@, LOG_LIFETIME as nat, s0 + 1));
        }
        proof {
            lemma_well_formed_key_is_encodable(&sk);
        }
        let pk = Self::get_public_key(&sk);
        (pk, sk)
    }

    fn sign(
        sk: &mut GeneralizedXMSSSecretKey<PRF, IE, TH, LOG_LIFETIME>,
        epoch: u32,
        message: &[u8; MESSAGE_LENGTH],
    ) -> (r: Result<GeneralizedXMSSSignature<IE, TH>, SigningError>)
        ensures
            (r == Err::<GeneralizedXMSSSignature<IE, TH>, SigningError>(
                SigningError::EncodingAttemptsExceeded { attempts: IE::MAX_TRIES },
            )) <==> ({
                &&& old(sk).spec_activation_start() <= epoch < old(sk).spec_activation_end()
                &&& old(sk).spec_prepared_start() <= epoch < old(sk).spec_prepared_end()
                &&& !old(sk).spec_epoch_used(epoch)
                &&& forall|a: int|
                    0 <= a < IE::MAX_TRIES ==> (#[trigger] IE::spec_encode(
                        old(sk).parameter@,
                        message@,
                        PRF::spec_randomness(old(sk).prf_key@, epoch, message@, a as u64),
                        epoch,
                    )) is None
            }),
            r matches Err(SigningError::EncodingAttemptsExceeded { attempts }) ==> attempts == IE::MAX_TRIES,
            r is Ok <==> ({
                &&& old(sk).spec_activation_start() <= epoch < old(sk).spec_activation_end()
                &&& old(sk).spec_prepared_start() <= epoch < old(sk).spec_prepared_end()
                &&& !old(sk).spec_epoch_used(epoch)
                &&& exists|a: int|
                    0 <= a < IE::MAX_TRIES && (#[trigger] IE::spec_encode(
                        old(sk).parameter@,
                        message@,
                        PRF::spec_randomness(old(sk).prf_key@, epoch, message@, a as u64),
                        epoch,
                    )) is Some
            }),
            final(sk).top_tree == old(sk).top_tree,
            final(sk).parameter == old(sk).parameter,
            final(sk).prf_key == old(sk).prf_key,
            final(sk).activation_epoch == old(sk).activation_epoch,
            final(sk).num_active_epochs == old(sk).num_active_epochs,
            final(sk).left_bottom_tree_index == old(sk).left_bottom_tree_index,
            final(sk).left_bottom_tree == old(sk).left_bottom_tree,
            final(sk).right_bottom_tree == old(sk).right_bottom_tree,
            r is Err ==> final(sk).used_epochs@ == old(sk).used_epochs@,
            final(sk).spec_encodable(),
            r matches Ok(sig) ==> sig.spec_encodable(),
            r matches Ok(sig) ==> signature_of(*old(sk), epoch, message@, sig),
    {
        let ghost h = (LOG_LIFETIME / 2) as nat;
        let ghost c = pow2(h);
        let ghost old_sk = *sk;
        let ghost l = sk.left_bottom_tree_index as nat;
        proof {
            lemma_lifetime_fits(LOG_LIFETIME as nat);
            lemma_u64_pow2_no_overflow(h);
            lemma_u64_shl_is_mul(1, (LOG_LIFETIME / 2) as u64);
            assert((l + 2) * c == l * c + 2 * c) by (nonlinear_arith);
            assert((l + 1) * c == l * c + c) by (nonlinear_arith);
        }
        proof {
            lemma_wf_intervals_fit(sk);
            lemma_well_formed_key_is_encodable(sk);
        }
        let activation = sk.get_activation_interval();
        if !(activation.start <= epoch as u64 && (epoch as u64) < activation.end) {
            return Err(SigningError::EpochOutsideActivation { epoch });
        }
        let prepared = sk.get_prepared_interval();
        if !(prepared.start <= epoch as u64 && (epoch as u64) < prepared.end) {
            return Err(SigningError::EpochNotPrepared { epoch });
        }

        // Keep the invariant robust even if this key arrived through a format
        // that does not run the canonical decoder's structural validation.
        normalize_epochs(&mut sk.used_epochs);
        proof {
            lemma_sorted_same_elements(sk.used_epochs@, old_sk.used_epochs@);
            lemma_in_window(old_sk.used_epochs@, sk.used_epochs@, (l * c) as int, ((l + 2) * c) as int);
            lemma_well_formed_key_is_encodable(sk);
        }
        let used_epoch_position = match search_sorted(&sk.used_epochs, epoch) {
            Ok(_) => {
                return Err(SigningError::EpochAlreadyUsed { epoch });
            },
            Err(pos) => pos,
        };

        let leafs_per_bottom_tree: u64 = 1u64 << ((LOG_LIFETIME / 2) as u64);
        let boundary_between_bottom_trees = (sk.left_bottom_tree_index * leafs_per_bottom_tree
            + leafs_per_bottom_tree) as u32;
        let ghost b: nat = if (epoch as int) < l * c + c { l } else { l + 1 };
        let bottom_tree = if epoch < boundary_between_bottom_trees {
            &sk.left_bottom_tree
        } else {
            &sk.right_bottom_tree
        };
        proof {
            let bt = *bottom_tree;
            assert(bottom_tree_ok::<PRF, IE, TH>(bt, sk.prf_key@, sk.parameter@, LOG_LIFETIME as nat, b));
            assert(bt.layers@[0].start_index == b * pow2((h - 0) as nat));
            assert(bt.layers@[0].nodes@.len() == pow2((h - 0) as nat));
            assert(b * c + c == (b + 1) * c) by (nonlinear_arith);
            lemma_mod_multiples_basic(b as int, c as int);
            lemma_div_multiples_vanish(b as int, c as int);
            assert(c * b == b * c) by (nonlinear_arith);
            assert(bt.spec_bottom_index() == b);
            assert(b < c) by (nonlinear_arith)
                requires
                    (l + 2) * c <= c * c,
                    b <= l + 1,
                    c > 0,
            ;
            // b lies among the top tree's bottom-tree roots.
            let act = sk.activation_epoch as nat;
            let end = (sk.activation_epoch + sk.num_active_epochs) as nat;
            lemma_div_is_ordered(act as int, (l * c) as int, c as int);
            lemma_div_multiples_vanish(l as int, c as int);
            lemma_div_is_ordered(((l + 2) * c) as int, end as int, c as int);
            lemma_div_multiples_vanish((l + 2) as int, c as int);
            assert(c * l == l * c) by (nonlinear_arith);
            assert(c * (l + 2) == (l + 2) * c) by (nonlinear_arith);
            assert(act / c <= b < end / c);
            assert(top_tree_ok::<PRF, IE, TH>(
                sk.top_tree,
                sk.prf_key@,
                sk.parameter@,
                LOG_LIFETIME as nat,
                act / c,
                end / c,
            ));
            lemma_top_tree_holds::<PRF, IE, TH>(
                sk.top_tree,
                sk.prf_key@,
                sk.parameter@,
                LOG_LIFETIME as nat,
                act / c,
                end / c,
                b,
            );
        }
        let path = combined_path(&sk.top_tree, bottom_tree, epoch);
        let ghost path_tree = *bottom_tree;

        let max_tries = IE::MAX_TRIES;
        let mut attempts: usize = 0;
        let mut found: Option<(Vec<u8>, [u8; HASH_LENGTH])> = None;
        proof {
            IE::lemma_well_configured();
        }
        while attempts < max_tries
            invariant_except_break
                found is None,
            invariant
                xmss_config_ok::<IE, TH>(LOG_LIFETIME as nat),
                max_tries == IE::MAX_TRIES,
                attempts <= max_tries,
                forall|a: int|
                    0 <= a < attempts ==> (#[trigger] IE::spec_encode(
                        sk.parameter@,
                        message@,
                        PRF::spec_randomness(sk.prf_key@, epoch, message@, a as u64),
                        epoch,
                    )) is None,
            ensures
                found matches Some(p) ==> IE::spec_encode(sk.parameter@, message@, p.1@, epoch) == Some(p.0@),
                found matches Some(p) ==> attempts < max_tries && p.1@ == PRF::spec_randomness(
                    sk.prf_key@,
                    epoch,
                    message@,
                    attempts as u64,
                ),
                found is None ==> attempts == max_tries,
            decreases max_tries - attempts,
        {
            let curr_rho = PRF::get_randomness(&sk.prf_key, epoch, message, attempts as u64);
            let curr_x = IE::encode(&sk.parameter, message, &curr_rho, epoch);
            match curr_x {
                Ok(cx) => {
                    found = Some((cx, curr_rho));
                    break;
                },
                Err(_) => {},
            }
            attempts = attempts + 1;
        }

        let (x, rho) = match found {
            None => {
                return Err(SigningError::EncodingAttemptsExceeded { attempts: max_tries });
            },
            Some(p) => p,
        };
        proof {
            IE::lemma_encode_shape(sk.parameter@, message@, rho@, epoch);
            assert(IE::spec_encode(
                old_sk.parameter@,
                message@,
                PRF::spec_randomness(old_sk.prf_key@, epoch, message@, attempts as u64),
                epoch,
            ) is Some);
        }
        let num_chains = IE::DIMENSION;
        let mut hashes: Vec<[u8; HASH_LENGTH]> = Vec::with_capacity(num_chains);
        for chain_index in 0..num_chains
            invariant
                xmss_config_ok::<IE, TH>(LOG_LIFETIME as nat),
                num_chains == IE::DIMENSION,
                x@.len() == num_chains,
                forall|i: int| 0 <= i < x@.len() ==> (#[trigger] x@[i]) < IE::BASE,
                hashes@.len() == chain_index,
                forall|i: int|
                    0 <= i < chain_index ==> (#[trigger] hashes@[i])@ == chain_spec::<TH>(
                        sk.parameter@,
                        epoch,
                        i as u8,
                        0,
                        x@[i] as nat,
                        PRF::spec_domain_element(sk.prf_key@, epoch, i as u64),
                    ),
        {
            let start = PRF::get_domain_element(&sk.prf_key, epoch, chain_index as u64);
            let steps = x[chain_index] as usize;
            proof {
                IE::lemma_well_configured();
            }
            let value = chain::<TH>(&sk.parameter, epoch, chain_index as u8, 0, steps, &start);
            hashes.push(value);
        }

        // Record use before returning the signature.
        let signature = GeneralizedXMSSSignature { path, rho, hashes, _encoding: PhantomData };
        let ghost before_insert = sk.used_epochs@;
        proof {
            lemma_insert_sorted(sk.used_epochs@, used_epoch_position as int, epoch);
        }
        sk.used_epochs.insert(used_epoch_position, epoch);
        proof {
            assert forall|i: int| 0 <= i < sk.used_epochs@.len() implies l * c <= #[trigger] sk.used_epochs@[i] < (l
                + 2) * c by {
                let x = sk.used_epochs@[i];
                assert(sk.used_epochs@.contains(x));
                if x != epoch {
                    assert(before_insert.contains(x));
                    let j = choose|j: int| 0 <= j < before_insert.len() && before_insert[j] == x;
                    assert(l * c <= before_insert[j] < (l + 2) * c);
                }
            }
            let pk = Self::spec_public_key(&old_sk);
            let param = sk.parameter@;
            let leaf = verifier_chain_ends::<IE, TH>(param, epoch, x@, domain_views(signature.hashes@));
            let ends = crate::symmetric::tweak_hash::chain_ends_spec::<TH, PRF>(
                sk.prf_key@,
                param,
                epoch,
                IE::DIMENSION as nat,
                IE::BASE as nat,
            );
            IE::lemma_well_configured();
            assert forall|i: int| 0 <= i < leaf.len() implies #[trigger] leaf[i] == ends[i] by {
                let start = PRF::spec_domain_element(sk.prf_key@, epoch, i as u64);
                lemma_chain_associative::<TH>(param, epoch, i as u8, 0, x@[i] as nat, (IE::BASE - 1 - x@[i]) as nat, start);
            }
            assert(leaf =~= ends);
            assert(path_tree.layers@[0].node(epoch as int) == tree_leaf_spec::<TH, PRF>(
                sk.prf_key@,
                param,
                epoch,
                IE::DIMENSION as nat,
                IE::BASE as nat,
            ));
            lemma_combined_open_verify::<TH>(&sk.top_tree, &path_tree, param, b, epoch, leaf);
            assert(pk.root@ == sk.top_tree.spec_root());
            assert(epoch < pow2(LOG_LIFETIME as nat));
            assert forall|e: u32| e != epoch implies #[trigger] sk.spec_epoch_used(e) == old_sk.spec_epoch_used(e) by {}
            assert(signature.path.view_path() == signing_path(old_sk, epoch));
            assert(signature.rho@ == PRF::spec_randomness(old_sk.prf_key@, epoch, message@, attempts as u64));
            assert(signature_of(old_sk, epoch, message@, signature));
            IE::lemma_well_configured();
            assert(signature.path.co_path@.len() == signing_path(old_sk, epoch).len());
            lemma_small_signature_encodable(&signature);
            lemma_well_formed_key_is_encodable(sk);
        }
        Ok(signature)
    }

    fn verify(
        pk: &GeneralizedXMSSPublicKey<TH>,
        epoch: u32,
        message: &[u8; MESSAGE_LENGTH],
        sig: &GeneralizedXMSSSignature<IE, TH>,
    ) -> (r: bool)
        ensures
            r ==> (epoch as int) < pow2(LOG_LIFETIME as nat),
            r ==> sig.hashes@.len() == IE::DIMENSION,
            r ==> IE::spec_encode(pk.parameter@, message@, sig.rho@, epoch) is Some,
    {
        proof {
            lemma_lifetime_fits(LOG_LIFETIME as nat);
            lemma_u64_shl_is_mul(1, LOG_LIFETIME as u64);
            IE::lemma_well_configured();
        }
        if (epoch as u64) >= Self::LIFETIME {
            return false;
        }
        if sig.hashes.len() != IE::DIMENSION {
            return false;
        }
        let x = match IE::encode(&pk.parameter, message, &sig.rho, epoch) {
            Ok(x) => x,
            Err(_) => {
                return false;
            },
        };
        proof {
            IE::lemma_encode_shape(pk.parameter@, message@, sig.rho@, epoch);
        }
        let chain_length = IE::BASE;
        let num_chains = IE::DIMENSION;
        let mut chain_ends: Vec<[u8; HASH_LENGTH]> = Vec::with_capacity(num_chains);
        for chain_index in 0..num_chains
            invariant
                num_chains == IE::DIMENSION,
                chain_length == IE::BASE,
                2 <= IE::BASE <= 256,
                x@.len() == num_chains,
                sig.hashes@.len() == num_chains,
                forall|i: int| 0 <= i < x@.len() ==> (#[trigger] x@[i]) < IE::BASE,
                chain_ends@.len() == chain_index,
                forall|i: int|
                    0 <= i < chain_index ==> (#[trigger] chain_ends@[i])@ == verifier_chain_ends::<IE, TH>(
                        pk.parameter@,
                        epoch,
                        x@,
                        domain_views(sig.hashes@),
                    )[i],
        {
            let xi = x[chain_index];
            let steps = (chain_length - 1) as u8 - xi;
            let start_pos_in_chain = xi;
            let end = chain::<TH>(
                &pk.parameter,
                epoch,
                chain_index as u8,
                start_pos_in_chain,
                steps as usize,
                &sig.hashes[chain_index],
            );
            chain_ends.push(end);
        }
        proof {
            assert(domain_views(chain_ends@) =~= verifier_chain_ends::<IE, TH>(
                pk.parameter@,
                epoch,
                x@,
                domain_views(sig.hashes@),
            ));
        }
        hash_tree_verify::<TH>(&pk.parameter, &pk.root, epoch, chain_ends.as_slice(), &sig.path)
    }

    fn get_public_key(sk: &GeneralizedXMSSSecretKey<PRF, IE, TH, LOG_LIFETIME>) -> (r: GeneralizedXMSSPublicKey<TH>) {
        GeneralizedXMSSPublicKey { root: sk.top_tree.root(), parameter: sk.parameter, _hash: PhantomData }
    }
}


} // verus!
