//! Batches of four independent BLAKE3 invocations, lane by lane.

use vstd::prelude::*;
use vstd::bytes::spec_u32_to_le_bytes;
use super::blake3::{chain_transcript, derive_key_chain_spec, CHAIN_HASH_CONTEXT};
use crate::primitives::{
    blake3_context_key_hash, blake3_derive_key, blake3_derive_key_context, blake3_keyed_hash, context_key_hash, derive_key_context,
    keyed_hash, push_bytes, push_u32_le,
};
use crate::HASH_LENGTH;

pub mod lanes;

verus! {

/// Number of lanes in a batch.
pub const SIMD_LANES: usize = 4;

/// Keyed BLAKE3 of each of four inputs.
pub fn keyed_hash_4<const INPUT_LEN: usize>(
    key: &[u8; HASH_LENGTH],
    inputs: &[[u8; INPUT_LEN]; SIMD_LANES],
) -> (r: [[u8; HASH_LENGTH]; SIMD_LANES])
    ensures
        forall|lane: int| 0 <= lane < 4 ==> (#[trigger] r@[lane])@ == blake3_keyed_hash(key@, inputs@[lane]@),
{
    let a = keyed_hash(key, &inputs[0]);
    let b = keyed_hash(key, &inputs[1]);
    let c = keyed_hash(key, &inputs[2]);
    let d = keyed_hash(key, &inputs[3]);
    let r = [a, b, c, d];
    assert(r@[0] == a && r@[1] == b && r@[2] == c && r@[3] == d);
    r
}

/// A chain walked with a hasher started from a derive-key context key: step
/// `j` hashes the 70-byte chain transcript at position `start_pos + j`.
pub open spec fn context_key_chain_spec(
    context_key: Seq<u8>,
    parameter: Seq<u8>,
    epoch: u32,
    chain_index: u8,
    start_pos: nat,
    steps: nat,
    start: Seq<u8>,
) -> Seq<u8>
    decreases steps,
{
    if steps == 0 {
        start
    } else {
        context_key_chain_spec(
            context_key,
            parameter,
            epoch,
            chain_index,
            start_pos + 1,
            (steps - 1) as nat,
            blake3_context_key_hash(
                context_key,
                chain_transcript(parameter, epoch, chain_index, (start_pos + 1) as u8, start),
            ),
        )
    }
}

/// The context key of the chain context, for `chain_4`.
pub fn chain_context_key() -> (r: [u8; HASH_LENGTH])
    ensures
        r@ == blake3_derive_key_context(CHAIN_HASH_CONTEXT@),
{
    derive_key_context(CHAIN_HASH_CONTEXT)
}

/// One chain step of one lane.
fn chain_step(
    context_key: &[u8; HASH_LENGTH],
    parameter: &[u8; HASH_LENGTH],
    epoch: u32,
    chain_index: u8,
    position: u8,
    value: &[u8; HASH_LENGTH],
) -> (r: [u8; HASH_LENGTH])
    ensures
        r@ == blake3_context_key_hash(context_key@, chain_transcript(parameter@, epoch, chain_index, position, value@)),
        blake3_derive_key_context(CHAIN_HASH_CONTEXT@) == context_key@ ==> r@ == blake3_derive_key(
            CHAIN_HASH_CONTEXT@,
            chain_transcript(parameter@, epoch, chain_index, position, value@),
        ),
{
    let mut input: Vec<u8> = Vec::with_capacity(70);
    push_bytes(&mut input, parameter);
    push_u32_le(&mut input, epoch);
    input.push(chain_index);
    input.push(position);
    push_bytes(&mut input, value);
    assert(input@ =~= chain_transcript(parameter@, epoch, chain_index, position, value@));
    context_key_hash(context_key, input.as_slice())
}

/// Walks four chains of the same index and length, one per epoch, in lockstep.
pub fn chain_4(
    context_key: &[u8; HASH_LENGTH],
    parameter: &[u8; HASH_LENGTH],
    epochs: [u32; SIMD_LANES],
    chain_index: u8,
    start_position: u8,
    steps: usize,
    starts: [[u8; HASH_LENGTH]; SIMD_LANES],
) -> (r: [[u8; HASH_LENGTH]; SIMD_LANES])
    requires
        start_position + steps <= 255,
    ensures
        forall|lane: int|
            0 <= lane < 4 ==> (#[trigger] r@[lane])@ == context_key_chain_spec(
                context_key@,
                parameter@,
                epochs@[lane],
                chain_index,
                start_position as nat,
                steps as nat,
                starts@[lane]@,
            ),
        blake3_derive_key_context(CHAIN_HASH_CONTEXT@) == context_key@ ==> forall|lane: int|
            0 <= lane < 4 ==> (#[trigger] r@[lane])@ == derive_key_chain_spec(
                parameter@,
                epochs@[lane],
                chain_index,
                start_position as nat,
                steps as nat,
                starts@[lane]@,
            ),
{
    let mut values = starts;
    for step in 0..steps
        invariant
            start_position + steps <= 255,
            forall|lane: int|
                0 <= lane < 4 ==> context_key_chain_spec(
                    context_key@,
                    parameter@,
                    epochs@[lane],
                    chain_index,
                    start_position as nat,
                    steps as nat,
                    starts@[lane]@,
                ) == context_key_chain_spec(
                    context_key@,
                    parameter@,
                    epochs@[lane],
                    chain_index,
                    (start_position + step) as nat,
                    (steps - step) as nat,
                    (#[trigger] values@[lane])@,
                ),
            blake3_derive_key_context(CHAIN_HASH_CONTEXT@) == context_key@ ==> forall|lane: int|
                0 <= lane < 4 ==> derive_key_chain_spec(
                    parameter@,
                    epochs@[lane],
                    chain_index,
                    start_position as nat,
                    steps as nat,
                    starts@[lane]@,
                ) == derive_key_chain_spec(
                    parameter@,
                    epochs@[lane],
                    chain_index,
                    (start_position + step) as nat,
                    (steps - step) as nat,
                    (#[trigger] values@[lane])@,
                ),
    {
        let position: u8 = start_position + step as u8 + 1;
        let a = chain_step(context_key, parameter, epochs[0], chain_index, position, &values[0]);
        let b = chain_step(context_key, parameter, epochs[1], chain_index, position, &values[1]);
        let c = chain_step(context_key, parameter, epochs[2], chain_index, position, &values[2]);
        let d = chain_step(context_key, parameter, epochs[3], chain_index, position, &values[3]);
        let ghost old_values = values;
        values = [a, b, c, d];
        assert(values@[0] == a && values@[1] == b && values@[2] == c && values@[3] == d);
        assert forall|lane: int| 0 <= lane < 4 implies context_key_chain_spec(
                context_key@,
                parameter@,
                epochs@[lane],
                chain_index,
                (start_position + step) as nat,
                (steps - step) as nat,
                old_values@[lane]@,
            ) == context_key_chain_spec(
                context_key@,
                parameter@,
                epochs@[lane],
                chain_index,
                (start_position + step + 1) as nat,
                (steps - step - 1) as nat,
                (#[trigger] values@[lane])@,
            ) by {
        }
        assert forall|lane: int| 0 <= lane < 4 && blake3_derive_key_context(CHAIN_HASH_CONTEXT@) == context_key@ implies derive_key_chain_spec(
                parameter@,
                epochs@[lane],
                chain_index,
                (start_position + step) as nat,
                (steps - step) as nat,
                old_values@[lane]@,
            ) == derive_key_chain_spec(
                parameter@,
                epochs@[lane],
                chain_index,
                (start_position + step + 1) as nat,
                (steps - step - 1) as nat,
                (#[trigger] values@[lane])@,
            ) by {
        }
    }
    values
}

/// A chain walked from a context key hashes its start once, with the hasher
/// started from that key, over the parameter, the epoch in four little-endian
/// bytes, the chain index, the next position and the start, and continues
/// from there.
pub proof fn lemma_context_key_chain_first_step(
    context_key: Seq<u8>,
    parameter: Seq<u8>,
    epoch: u32,
    chain_index: u8,
    start_pos: nat,
    steps: nat,
    start: Seq<u8>,
)
    ensures
        context_key_chain_spec(context_key, parameter, epoch, chain_index, start_pos, steps + 1, start)
            == context_key_chain_spec(
            context_key,
            parameter,
            epoch,
            chain_index,
            start_pos + 1,
            steps,
            blake3_context_key_hash(
                context_key,
                parameter + spec_u32_to_le_bytes(epoch) + seq![chain_index, (start_pos + 1) as u8] + start,
            ),
        ),
{
}

/// A chain walked with `blake3::derive_key` hashes its start once, in the
/// chain context, over the parameter, the epoch in four little-endian bytes,
/// the chain index, the next position and the start, and continues from
/// there.
pub proof fn lemma_derive_key_chain_first_step(
    parameter: Seq<u8>,
    epoch: u32,
    chain_index: u8,
    start_pos: nat,
    steps: nat,
    start: Seq<u8>,
)
    ensures
        derive_key_chain_spec(parameter, epoch, chain_index, start_pos, steps + 1, start) == derive_key_chain_spec(
            parameter,
            epoch,
            chain_index,
            start_pos + 1,
            steps,
            blake3_derive_key(
                CHAIN_HASH_CONTEXT@,
                parameter + spec_u32_to_le_bytes(epoch) + seq![chain_index, (start_pos + 1) as u8] + start,
            ),
        ),
{
}

} // verus!
