//! Tweakable hashing: addressed hashes, Winternitz chains and the leaves of
//! the Merkle tree.

use vstd::prelude::*;
use rayon::iter::{IndexedParallelIterator, IntoParallelRefIterator, ParallelIterator};
use crate::HASH_LENGTH;
use crate::symmetric::prf::Pseudorandom;

pub mod blake3;
pub mod blake3_simd;

verus! {

/// The byte views of a sequence of domain elements.
pub open spec fn domain_views(s: Seq<[u8; HASH_LENGTH]>) -> Seq<Seq<u8>> {
    s.map_values(|x: [u8; HASH_LENGTH]| x@)
}

/// Addressed hash used by Winternitz chains and Merkle trees.
pub trait TweakableHash: Sized {
    /// Address type.
    type Tweak;

    /// The Merkle-tree address of a node.
    spec fn spec_tree_tweak(level: u8, pos_in_level: u32) -> Self::Tweak;

    /// The chain address of a chain step.
    spec fn spec_chain_tweak(epoch: u32, chain_index: u8, pos_in_chain: u8) -> Self::Tweak;

    /// The hash of `message` at `tweak` under `parameter`.
    spec fn spec_apply(parameter: Seq<u8>, tweak: Self::Tweak, message: Seq<Seq<u8>>) -> Seq<u8>;

    /// Whether `apply` accepts `len` inputs at `tweak`.
    spec fn accepts(tweak: Self::Tweak, len: nat) -> bool;

    /// Whether `compute_tree_leaves` accepts `num_chains` chain ends per leaf.
    spec fn accepts_num_chains(num_chains: nat) -> bool;

    /// A chain step hashes one value.
    proof fn lemma_chain_accepts(epoch: u32, chain_index: u8, pos_in_chain: u8)
        ensures
            Self::accepts(Self::spec_chain_tweak(epoch, chain_index, pos_in_chain), 1),
    ;

    /// An inner tree node hashes two children.
    proof fn lemma_node_accepts(level: u8, pos_in_level: u32)
        requires
            level >= 1,
        ensures
            Self::accepts(Self::spec_tree_tweak(level, pos_in_level), 2),
    ;

    /// A leaf hashes any number of chain ends.
    proof fn lemma_leaf_accepts(pos_in_level: u32, len: nat)
        ensures
            Self::accepts(Self::spec_tree_tweak(0, pos_in_level), len),
    ;

    /// Samples the public hash parameter.
    fn rand_parameter(rng: &mut rand::rngs::StdRng) -> [u8; HASH_LENGTH];

    /// Samples a domain element for tree padding and tests.
    fn rand_domain(rng: &mut rand::rngs::StdRng) -> [u8; HASH_LENGTH];

    /// Returns a Merkle-tree address distinct from chain addresses.
    fn tree_tweak(level: u8, pos_in_level: u32) -> (t: Self::Tweak)
        ensures
            t == Self::spec_tree_tweak(level, pos_in_level),
    ;

    /// Returns a chain address distinct from tree addresses.
    fn chain_tweak(epoch: u32, chain_index: u8, pos_in_chain: u8) -> (t: Self::Tweak)
        ensures
            t == Self::spec_chain_tweak(epoch, chain_index, pos_in_chain),
    ;

    /// Hashes domain elements at an address.
    fn apply(parameter: &[u8; HASH_LENGTH], tweak: &Self::Tweak, message: &[[u8; HASH_LENGTH]]) -> (r: [u8; HASH_LENGTH])
        requires
            Self::accepts(*tweak, message@.len()),
        ensures
            r@ == Self::spec_apply(parameter@, *tweak, domain_views(message@)),
    ;

    /// Hashes consecutive child pairs into one Merkle-tree layer.
    fn compute_tree_layer(
        parameter: &[u8; HASH_LENGTH],
        level: u8,
        parent_start: usize,
        children: &[[u8; HASH_LENGTH]],
    ) -> (r: Vec<[u8; HASH_LENGTH]>)
        requires
            level >= 1,
            parent_start + children@.len() / 2 <= usize::MAX,
        ensures
            r@.len() == children@.len() / 2,
            forall|i: int|
                0 <= i < r@.len() ==> (#[trigger] r@[i])@ == Self::spec_apply(
                    parameter@,
                    Self::spec_tree_tweak(level, (parent_start + i) as u32),
                    seq![children@[2 * i]@, children@[2 * i + 1]@],
                ),
    {
        let len = children.len();
        let n = len / 2;
        let mut out: Vec<[u8; HASH_LENGTH]> = Vec::with_capacity(n);
        for i in 0..n
            invariant
                n == children@.len() / 2,
                len == children@.len(),
                level >= 1,
                parent_start + n <= usize::MAX,
                out@.len() == i,
                forall|j: int|
                    0 <= j < i ==> (#[trigger] out@[j])@ == Self::spec_apply(
                        parameter@,
                        Self::spec_tree_tweak(level, (parent_start + j) as u32),
                        seq![children@[2 * j]@, children@[2 * j + 1]@],
                    ),
        {
            assert(2 * i + 1 < children@.len());
            let pair = [children[2 * i], children[2 * i + 1]];
            let pos = (parent_start + i) as u32;
            let tweak = Self::tree_tweak(level, pos);
            proof {
                Self::lemma_node_accepts(level, pos);
                assert(domain_views(pair@) =~= seq![children@[2 * i]@, children@[2 * i + 1]@]);
            }
            let node = Self::apply(parameter, &tweak, &pair);
            out.push(node);
        }
        out
    }
}

/// The end of the chain that starts at `start`, at position `start_pos`, after
/// `steps` steps; step `j` hashes at chain position `start_pos + j`.
pub open spec fn chain_spec<TH: TweakableHash>(
    parameter: Seq<u8>,
    epoch: u32,
    chain_index: u8,
    start_pos: nat,
    steps: nat,
    start: Seq<u8>,
) -> Seq<u8>
    decreases steps,
{
    if steps == 0 {
        start
    } else {
        chain_spec::<TH>(
            parameter,
            epoch,
            chain_index,
            start_pos + 1,
            (steps - 1) as nat,
            TH::spec_apply(parameter, TH::spec_chain_tweak(epoch, chain_index, (start_pos + 1) as u8), seq![start]),
        )
    }
}

/// A chain of `steps + 1` steps hashes its start once, at the next position
/// with its own epoch and chain index, and continues from there.
pub proof fn lemma_chain_first_step<TH: TweakableHash>(
    parameter: Seq<u8>,
    epoch: u32,
    chain_index: u8,
    start_pos: nat,
    steps: nat,
    start: Seq<u8>,
)
    ensures
        chain_spec::<TH>(parameter, epoch, chain_index, start_pos, steps + 1, start) == chain_spec::<TH>(
            parameter,
            epoch,
            chain_index,
            start_pos + 1,
            steps,
            TH::spec_apply(parameter, TH::spec_chain_tweak(epoch, chain_index, (start_pos + 1) as u8), seq![start]),
        ),
{
}

/// The chain ends of one epoch: chain `i` starts at the PRF value for `(epoch, i)`
/// and runs its full length.
pub open spec fn chain_ends_spec<TH: TweakableHash, PRF: Pseudorandom>(
    prf_key: Seq<u8>,
    parameter: Seq<u8>,
    epoch: u32,
    num_chains: nat,
    chain_length: nat,
) -> Seq<Seq<u8>> {
    Seq::new(
        num_chains,
        |i: int|
            chain_spec::<TH>(
                parameter,
                epoch,
                i as u8,
                0,
                (chain_length - 1) as nat,
                PRF::spec_domain_element(prf_key, epoch, i as u64),
            ),
    )
}

/// The Merkle leaf of one epoch: the hash of its chain ends at tree level 0.
pub open spec fn tree_leaf_spec<TH: TweakableHash, PRF: Pseudorandom>(
    prf_key: Seq<u8>,
    parameter: Seq<u8>,
    epoch: u32,
    num_chains: nat,
    chain_length: nat,
) -> Seq<u8> {
    TH::spec_apply(
        parameter,
        TH::spec_tree_tweak(0, epoch),
        chain_ends_spec::<TH, PRF>(prf_key, parameter, epoch, num_chains, chain_length),
    )
}

/// Walking `a` steps and then `b` more steps is walking `a + b` steps.
pub proof fn lemma_chain_associative<TH: TweakableHash>(
    parameter: Seq<u8>,
    epoch: u32,
    chain_index: u8,
    start_pos: nat,
    a: nat,
    b: nat,
    start: Seq<u8>,
)
    ensures
        chain_spec::<TH>(parameter, epoch, chain_index, start_pos, a + b, start) == chain_spec::<TH>(
            parameter,
            epoch,
            chain_index,
            start_pos + a,
            b,
            chain_spec::<TH>(parameter, epoch, chain_index, start_pos, a, start),
        ),
    decreases a,
{
    if a > 0 {
        let next = TH::spec_apply(
            parameter,
            TH::spec_chain_tweak(epoch, chain_index, (start_pos + 1) as u8),
            seq![start],
        );
        lemma_chain_associative::<TH>(parameter, epoch, chain_index, start_pos + 1, (a - 1) as nat, b, next);
        assert((a - 1) as nat + b == (a + b - 1) as nat);
        assert(start_pos + 1 + (a - 1) as nat == start_pos + a);
    }
}

/// Walks `steps` positions in an addressed hash chain.
pub fn chain<TH: TweakableHash>(
    parameter: &[u8; HASH_LENGTH],
    epoch: u32,
    chain_index: u8,
    start_pos_in_chain: u8,
    steps: usize,
    start: &[u8; HASH_LENGTH],
) -> (r: [u8; HASH_LENGTH])
    requires
        start_pos_in_chain + steps <= 255,
    ensures
        r@ == chain_spec::<TH>(parameter@, epoch, chain_index, start_pos_in_chain as nat, steps as nat, start@),
{
    let mut current = *start;
    for j in 0..steps
        invariant
            start_pos_in_chain + steps <= 255,
            chain_spec::<TH>(parameter@, epoch, chain_index, start_pos_in_chain as nat, steps as nat, start@)
                == chain_spec::<TH>(
                parameter@,
                epoch,
                chain_index,
                (start_pos_in_chain + j) as nat,
                (steps - j) as nat,
                current@,
            ),
    {
        let pos: u8 = start_pos_in_chain + (j as u8) + 1u8;
        let tweak = TH::chain_tweak(epoch, chain_index, pos);
        let input = [current];
        proof {
            TH::lemma_chain_accepts(epoch, chain_index, pos);
            assert(domain_views(input@) =~= seq![current@]);
        }
        current = TH::apply(parameter, &tweak, &input);
    }
    current
}

/// The Merkle leaf of one epoch: the hash of the ends of its `num_chains`
/// chains of `chain_length` values, each started from the PRF.
pub fn tree_leaf<TH: TweakableHash, PRF: Pseudorandom>(
    prf_key: &[u8; HASH_LENGTH],
    parameter: &[u8; HASH_LENGTH],
    epoch: u32,
    num_chains: usize,
    chain_length: usize,
) -> (r: [u8; HASH_LENGTH])
    requires
        1 <= chain_length <= 256,
    ensures
        r@ == tree_leaf_spec::<TH, PRF>(prf_key@, parameter@, epoch, num_chains as nat, chain_length as nat),
{
    let mut chain_ends: Vec<[u8; HASH_LENGTH]> = Vec::with_capacity(num_chains);
    for chain_index in 0..num_chains
        invariant
                1 <= chain_length <= 256,
            chain_ends@.len() == chain_index,
            forall|j: int|
                0 <= j < chain_index ==> (#[trigger] chain_ends@[j])@ == chain_spec::<TH>(
                    parameter@,
                    epoch,
                    j as u8,
                    0,
                    (chain_length - 1) as nat,
                    PRF::spec_domain_element(prf_key@, epoch, j as u64),
                ),
    {
        let start = PRF::get_domain_element(prf_key, epoch, chain_index as u64);
        let end = chain::<TH>(parameter, epoch, chain_index as u8, 0, chain_length - 1, &start);
        chain_ends.push(end);
    }
    let tweak = TH::tree_tweak(0, epoch);
    proof {
        TH::lemma_leaf_accepts(epoch, chain_ends@.len());
        assert(domain_views(chain_ends@) =~= chain_ends_spec::<TH, PRF>(
            prf_key@,
            parameter@,
            epoch,
            num_chains as nat,
            chain_length as nat,
        ));
    }
    TH::apply(parameter, &tweak, chain_ends.as_slice())
}

/// Computes the leaves of `epochs` in parallel with rayon:
/// `epochs.par_iter().map(..).collect_into_vec(..)`, each leaf by `tree_leaf`.
///
/// Claimed: rayon's `collect_into_vec` on an indexed parallel iterator (a
/// slice's `par_iter` followed by `map`) writes each result at the index of
/// its item, so the result has one leaf per epoch, in order, each the value
/// that `tree_leaf` ensures.
#[verifier::external_body]
fn par_tree_leaves<TH: TweakableHash, PRF: Pseudorandom>(
    prf_key: &[u8; HASH_LENGTH],
    parameter: &[u8; HASH_LENGTH],
    epochs: &[u32],
    num_chains: usize,
    chain_length: usize,
) -> (r: Vec<[u8; HASH_LENGTH]>)
    requires
        1 <= chain_length <= 256,
    ensures
        r@.len() == epochs@.len(),
        (forall|i: int|
            0 <= i < r@.len() ==> (#[trigger] r@[i])@ == tree_leaf_spec::<TH, PRF>(
                prf_key@,
                parameter@,
                epochs@[i],
                num_chains as nat,
                chain_length as nat,
            )),
{
    let mut leaves = Vec::new();
    epochs
        .par_iter()
        .map(|epoch| tree_leaf::<TH, PRF>(prf_key, parameter, *epoch, num_chains, chain_length))
        .collect_into_vec(&mut leaves);
    leaves
}

/// Computes bottom-tree leaves from complete Winternitz chains: the leaf of each
/// epoch hashes the ends of its `num_chains` chains of `chain_length` values.
pub fn compute_tree_leaves<TH: TweakableHash, PRF: Pseudorandom>(
    prf_key: &[u8; HASH_LENGTH],
    parameter: &[u8; HASH_LENGTH],
    epochs: &[u32],
    num_chains: usize,
    chain_length: usize,
) -> (r: Vec<[u8; HASH_LENGTH]>)
    requires
        TH::accepts_num_chains(num_chains as nat),
        1 <= chain_length <= 256,
    ensures
        r@.len() == epochs@.len(),
        forall|i: int|
            0 <= i < r@.len() ==> (#[trigger] r@[i])@ == tree_leaf_spec::<TH, PRF>(
                prf_key@,
                parameter@,
                epochs@[i],
                num_chains as nat,
                chain_length as nat,
            ),
{
    par_tree_leaves::<TH, PRF>(prf_key, parameter, epochs, num_chains, chain_length)
}

} // verus!
