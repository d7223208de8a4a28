//! Domain-separated BLAKE3 hashing for Winternitz chains and Merkle trees.

use vstd::prelude::*;
use vstd::bytes::*;
use super::{chain_spec, domain_views, TweakableHash};
use crate::primitives::{blake3_derive_key, derive_key, push_bytes, push_u32_le, random_bytes};
use crate::HASH_LENGTH;

verus! {

/// Context of chain hashing.
pub const CHAIN_HASH_CONTEXT: &'static str = "leansig 2026-08-17 chain hash v1";

/// Context of Merkle-leaf hashing.
pub const TREE_LEAF_CONTEXT: &'static str = "leansig 2026-08-17 tree leaf hash v1";

/// Context of inner Merkle-node hashing.
pub const TREE_NODE_CONTEXT: &'static str = "leansig 2026-08-17 tree node hash v1";

/// Addresses a hash invocation within a Winternitz chain or Merkle tree.
#[derive(Debug, Clone, Copy, PartialEq, Eq)]
pub enum Blake3Tweak {
    Tree { level: u8, position: u32 },
    Chain { epoch: u32, chain_index: u8, position: u8 },
}

/// BLAKE3 tweakable hash. `NUM_CHUNKS` binds the tree-leaf arity to an instantiation.
#[derive(Debug, Clone, Copy, Default)]
pub struct Blake3TweakHash<const NUM_CHUNKS: usize>;

/// Derive-key material of a chain step: parameter, epoch, chain index,
/// position and the value.
pub open spec fn chain_transcript(parameter: Seq<u8>, epoch: u32, chain_index: u8, position: u8, value: Seq<u8>) -> Seq<u8> {
    parameter + spec_u32_to_le_bytes(epoch) + seq![chain_index, position] + value
}

/// A chain walked with `blake3::derive_key` in the chain context: step `j`
/// hashes the chain transcript at position `start_pos + j`.
pub open spec fn derive_key_chain_spec(
    parameter: Seq<u8>,
    epoch: u32,
    chain_index: u8,
    start_pos: nat,
    steps: nat,
    start: Seq<u8>,
) -> Seq<u8>
    decreases steps,
{
    if steps == 0 {
        start
    } else {
        derive_key_chain_spec(
            parameter,
            epoch,
            chain_index,
            start_pos + 1,
            (steps - 1) as nat,
            blake3_derive_key(CHAIN_HASH_CONTEXT@, chain_transcript(parameter, epoch, chain_index, (start_pos + 1) as u8, start)),
        )
    }
}

/// A chain of the BLAKE3 tweakable hash, whatever its number of chunks, is
/// the chain walked with `blake3::derive_key` in the chain context.
pub proof fn lemma_chain_spec_derive_key<const NUM_CHUNKS: usize>(
    parameter: Seq<u8>,
    epoch: u32,
    chain_index: u8,
    start_pos: nat,
    steps: nat,
    start: Seq<u8>,
)
    ensures
        chain_spec::<Blake3TweakHash<NUM_CHUNKS>>(parameter, epoch, chain_index, start_pos, steps, start)
            == derive_key_chain_spec(parameter, epoch, chain_index, start_pos, steps, start),
    decreases steps,
{
    if steps > 0 {
        let next = blake3_derive_key(
            CHAIN_HASH_CONTEXT@,
            chain_transcript(parameter, epoch, chain_index, (start_pos + 1) as u8, start),
        );
        assert(Blake3TweakHash::<NUM_CHUNKS>::spec_apply(
            parameter,
            Blake3TweakHash::<NUM_CHUNKS>::spec_chain_tweak(epoch, chain_index, (start_pos + 1) as u8),
            seq![start],
        ) == next);
        lemma_chain_spec_derive_key::<NUM_CHUNKS>(parameter, epoch, chain_index, start_pos + 1, (steps - 1) as nat, next);
    }
}

/// Derive-key material of a tree node: parameter, level, position, the number
/// of inputs and the inputs in order.
pub open spec fn tree_transcript(parameter: Seq<u8>, level: u8, position: u32, message: Seq<Seq<u8>>) -> Seq<u8> {
    parameter + seq![level] + spec_u32_to_le_bytes(position) + spec_u32_to_le_bytes(message.len() as u32)
        + message.flatten()
}

/// The derive-key context of a tree node at `level`.
pub open spec fn tree_context(level: u8) -> Seq<char> {
    if level == 0 {
        TREE_LEAF_CONTEXT@
    } else {
        TREE_NODE_CONTEXT@
    }
}

impl<const NUM_CHUNKS: usize> TweakableHash for Blake3TweakHash<NUM_CHUNKS> {
    type Tweak = Blake3Tweak;

    open spec fn spec_tree_tweak(level: u8, pos_in_level: u32) -> Blake3Tweak {
        Blake3Tweak::Tree { level, position: pos_in_level }
    }

    open spec fn spec_chain_tweak(epoch: u32, chain_index: u8, pos_in_chain: u8) -> Blake3Tweak {
        Blake3Tweak::Chain { epoch, chain_index, position: pos_in_chain }
    }

    open spec fn spec_apply(parameter: Seq<u8>, tweak: Blake3Tweak, message: Seq<Seq<u8>>) -> Seq<u8> {
        match tweak {
            Blake3Tweak::Chain { epoch, chain_index, position } => blake3_derive_key(
                CHAIN_HASH_CONTEXT@,
                chain_transcript(parameter, epoch, chain_index, position, message[0]),
            ),
            Blake3Tweak::Tree { level, position } => blake3_derive_key(
                tree_context(level),
                tree_transcript(parameter, level, position, message),
            ),
        }
    }

    open spec fn accepts(tweak: Blake3Tweak, len: nat) -> bool {
        match tweak {
            Blake3Tweak::Chain { epoch: _, chain_index: _, position: _ } => len == 1,
            Blake3Tweak::Tree { level, position: _ } => level == 0 || len == 2,
        }
    }

    open spec fn accepts_num_chains(num_chains: nat) -> bool {
        num_chains == NUM_CHUNKS
    }

    proof fn lemma_chain_accepts(epoch: u32, chain_index: u8, pos_in_chain: u8) {
    }

    proof fn lemma_node_accepts(level: u8, pos_in_level: u32) {
        let t = Self::spec_tree_tweak(level, pos_in_level);
        assert(t == Blake3Tweak::Tree { level, position: pos_in_level });
        assert(level >= 1);
        assert(Self::accepts(t, 2nat));
    }

    proof fn lemma_leaf_accepts(pos_in_level: u32, len: nat) {
    }

    fn rand_parameter(rng: &mut rand::rngs::StdRng) -> [u8; HASH_LENGTH] {
        random_bytes(rng)
    }

    fn rand_domain(rng: &mut rand::rngs::StdRng) -> [u8; HASH_LENGTH] {
        random_bytes(rng)
    }

    fn tree_tweak(level: u8, pos_in_level: u32) -> (t: Blake3Tweak) {
        Blake3Tweak::Tree { level, position: pos_in_level }
    }

    fn chain_tweak(epoch: u32, chain_index: u8, pos_in_chain: u8) -> (t: Blake3Tweak) {
        Blake3Tweak::Chain { epoch, chain_index, position: pos_in_chain }
    }

    fn apply(parameter: &[u8; HASH_LENGTH], tweak: &Blake3Tweak, message: &[[u8; HASH_LENGTH]]) -> (r: [u8; HASH_LENGTH]) {
        match *tweak {
            Blake3Tweak::Chain { epoch, chain_index, position } => {
                let mut input: Vec<u8> = Vec::with_capacity(70);
                push_bytes(&mut input, parameter);
                push_u32_le(&mut input, epoch);
                input.push(chain_index);
                input.push(position);
                push_bytes(&mut input, &message[0]);
                proof {
                    assert(domain_views(message@)[0] == message@[0]@);
                    assert(input@ =~= chain_transcript(parameter@, epoch, chain_index, position, message@[0]@));
                }
                derive_key(CHAIN_HASH_CONTEXT, input.as_slice())
            },
            Blake3Tweak::Tree { level, position } => {
                let mut input: Vec<u8> = Vec::new();
                push_bytes(&mut input, parameter);
                input.push(level);
                push_u32_le(&mut input, position);
                push_u32_le(&mut input, message.len() as u32);
                let ghost prefix = input@;
                let n = message.len();
                for i in 0..n
                    invariant
                        n == message@.len(),
                        input@ == prefix + domain_views(message@).subrange(0, i as int).flatten(),
                {
                    proof {
                        let vs = domain_views(message@);
                        assert(vs.subrange(0, i + 1) =~= vs.subrange(0, i as int).push(message@[i as int]@));
                        vs.subrange(0, i as int).lemma_flatten_push(message@[i as int]@);
                    }
                    push_bytes(&mut input, &message[i]);
                }
                proof {
                    let vs = domain_views(message@);
                    assert(vs.subrange(0, n as int) =~= vs);
                    assert(input@ =~= tree_transcript(parameter@, level, position, vs));
                }
                if level == 0 {
                    derive_key(TREE_LEAF_CONTEXT, input.as_slice())
                } else {
                    derive_key(TREE_NODE_CONTEXT, input.as_slice())
                }
            },
        }
    }

}

/// A chain step hashes, with `blake3::derive_key` in the chain context, the
/// parameter, the epoch in four little-endian bytes, the chain index, the
/// position and the value.
pub proof fn lemma_chain_hash_input<const NUM_CHUNKS: usize>(
    parameter: Seq<u8>,
    epoch: u32,
    chain_index: u8,
    position: u8,
    value: Seq<u8>,
)
    ensures
        Blake3TweakHash::<NUM_CHUNKS>::spec_apply(
            parameter,
            Blake3TweakHash::<NUM_CHUNKS>::spec_chain_tweak(epoch, chain_index, position),
            seq![value],
        ) == blake3_derive_key(
            CHAIN_HASH_CONTEXT@,
            parameter + spec_u32_to_le_bytes(epoch) + seq![chain_index, position] + value,
        ),
{
}

/// A tree node hashes, with `blake3::derive_key` in the leaf context at
/// level 0 and the node context above, the parameter, the level, the position
/// in four little-endian bytes, the number of inputs in four little-endian
/// bytes and the inputs in order.
pub proof fn lemma_tree_hash_input<const NUM_CHUNKS: usize>(
    parameter: Seq<u8>,
    level: u8,
    position: u32,
    message: Seq<Seq<u8>>,
)
    ensures
        Blake3TweakHash::<NUM_CHUNKS>::spec_apply(
            parameter,
            Blake3TweakHash::<NUM_CHUNKS>::spec_tree_tweak(level, position),
            message,
        ) == blake3_derive_key(
            if level == 0 {
                TREE_LEAF_CONTEXT@
            } else {
                TREE_NODE_CONTEXT@
            },
            parameter + seq![level] + spec_u32_to_le_bytes(position) + spec_u32_to_le_bytes(message.len() as u32)
                + message.flatten(),
        ),
{
}

/// Chain transcripts with parameters of one length determine the parameter,
/// the epoch, the chain index, the position and the value: distinct chain
/// steps hash distinct inputs.
pub proof fn lemma_chain_transcript_injective(
    p1: Seq<u8>,
    e1: u32,
    c1: u8,
    q1: u8,
    v1: Seq<u8>,
    p2: Seq<u8>,
    e2: u32,
    c2: u8,
    q2: u8,
    v2: Seq<u8>,
)
    requires
        p1.len() == p2.len(),
        chain_transcript(p1, e1, c1, q1, v1) == chain_transcript(p2, e2, c2, q2, v2),
    ensures
        p1 == p2,
        e1 == e2,
        c1 == c2,
        q1 == q2,
        v1 == v2,
{
    let n = p1.len() as int;
    let a = chain_transcript(p1, e1, c1, q1, v1);
    let b = chain_transcript(p2, e2, c2, q2, v2);
    lemma_auto_spec_u32_to_from_le_bytes();
    assert(a.subrange(0, n) =~= p1);
    assert(b.subrange(0, n) =~= p2);
    assert(a.subrange(n, n + 4) =~= spec_u32_to_le_bytes(e1));
    assert(b.subrange(n, n + 4) =~= spec_u32_to_le_bytes(e2));
    assert(a[n + 4] == c1 && b[n + 4] == c2);
    assert(a[n + 5] == q1 && b[n + 5] == q2);
    assert(a.subrange(n + 6, a.len() as int) =~= v1);
    assert(b.subrange(n + 6, b.len() as int) =~= v2);
}

/// Tree transcripts with parameters of one length determine the parameter,
/// the level, the position and the number of inputs.
pub proof fn lemma_tree_transcript_injective(
    p1: Seq<u8>,
    l1: u8,
    q1: u32,
    m1: Seq<Seq<u8>>,
    p2: Seq<u8>,
    l2: u8,
    q2: u32,
    m2: Seq<Seq<u8>>,
)
    requires
        p1.len() == p2.len(),
        m1.len() <= u32::MAX,
        m2.len() <= u32::MAX,
        tree_transcript(p1, l1, q1, m1) == tree_transcript(p2, l2, q2, m2),
    ensures
        p1 == p2,
        l1 == l2,
        q1 == q2,
        m1.len() == m2.len(),
        m1.flatten() == m2.flatten(),
{
    let n = p1.len() as int;
    let a = tree_transcript(p1, l1, q1, m1);
    let b = tree_transcript(p2, l2, q2, m2);
    lemma_auto_spec_u32_to_from_le_bytes();
    assert(a.subrange(0, n) =~= p1);
    assert(b.subrange(0, n) =~= p2);
    assert(a[n] == l1 && b[n] == l2);
    assert(a.subrange(n + 1, n + 5) =~= spec_u32_to_le_bytes(q1));
    assert(b.subrange(n + 1, n + 5) =~= spec_u32_to_le_bytes(q2));
    assert(a.subrange(n + 5, n + 9) =~= spec_u32_to_le_bytes(m1.len() as u32));
    assert(b.subrange(n + 5, n + 9) =~= spec_u32_to_le_bytes(m2.len() as u32));
    assert(a.subrange(n + 9, a.len() as int) =~= m1.flatten());
    assert(b.subrange(n + 9, b.len() as int) =~= m2.flatten());
}

} // verus!
