//! BLAKE3 XOF message hashing into uniformly distributed encoding chunks.

use vstd::prelude::*;
use vstd::bytes::*;
use super::MessageHash;
use crate::primitives::{blake3_derive_key_xof, derive_key_xof_block, push_bytes, push_u32_le, random_bytes};
use crate::{HASH_LENGTH, MESSAGE_LENGTH};
use vstd::arithmetic::power2::*;
use vstd::arithmetic::div_mod::{lemma_fundamental_div_mod, lemma_fundamental_div_mod_converse, lemma_mod_multiples_vanish};
use vstd::bits::lemma_u8_shr_is_div;

verus! {

/// Context of message hashing.
pub const MESSAGE_HASH_CONTEXT: &'static str = "leansig 2026-08-17 message hash v1";

/// Number of 64-byte output blocks that the message hash may read; their
/// offsets fit in `u64`.
pub const MAX_XOF_BLOCKS: u64 = 0x0400_0000_0000_0000;

/// A BLAKE3 message hash with `DIMENSION` independent uniform chunks in `0..BASE`.
#[derive(Debug, Clone, Copy, Default)]
pub struct Blake3MessageHash<const DIMENSION: usize, const BASE: usize>;

/// The message hash read all the output blocks it may read without finding
/// enough accepted bytes.
#[derive(Debug, Clone, Copy, PartialEq, Eq)]
pub enum Blake3MessageHashError {
    OutputExhausted,
}

/// Derive-key material of the message hash.
pub open spec fn message_hash_material(parameter: Seq<u8>, epoch: u32, randomness: Seq<u8>, message: Seq<u8>) -> Seq<u8> {
    parameter + spec_u32_to_le_bytes(epoch) + randomness + message
}

/// The first `num_blocks` 64-byte blocks of the extendable output.
pub open spec fn xof_stream(material: Seq<u8>, num_blocks: nat) -> Seq<u8>
    decreases num_blocks,
{
    if num_blocks == 0 {
        Seq::empty()
    } else {
        xof_stream(material, (num_blocks - 1) as nat) + blake3_derive_key_xof(
            MESSAGE_HASH_CONTEXT@,
            material,
            (64 * (num_blocks - 1)) as u64,
        )
    }
}

/// Bytes below this bound are accepted; it is the largest multiple of `base` up to 256.
pub open spec fn acceptance_bound(base: nat) -> nat {
    (256 - 256nat % base) as nat
}

/// The chunks that rejection sampling takes from `bytes`: each byte below the
/// acceptance limit, reduced modulo `base`, in order.
pub open spec fn accepted(bytes: Seq<u8>, base: nat) -> Seq<u8>
    decreases bytes.len(),
{
    if bytes.len() == 0 {
        Seq::empty()
    } else {
        let last = bytes.last();
        accepted(bytes.drop_last(), base) + if (last as nat) < acceptance_bound(base) {
            seq![((last as nat) % base) as u8]
        } else {
            Seq::empty()
        }
    }
}

/// Byte `index` of the BLAKE3 derive-key extendable output of `material` in
/// the message-hash context, read from the 64-byte block that holds it.
pub open spec fn derive_key_xof_byte(material: Seq<u8>, index: int) -> u8 {
    blake3_derive_key_xof(MESSAGE_HASH_CONTEXT@, material, (64 * (index / 64)) as u64)[index % 64]
}

/// Rejection sampling over the output of `material`: `chunks[i]` is the
/// output byte at `positions[i]` modulo `base`; those bytes are below the
/// largest multiple of `base` up to 256, the positions increase, and every
/// other byte before the last position is at or above that bound.
pub open spec fn rejection_positions(material: Seq<u8>, base: nat, chunks: Seq<u8>, positions: Seq<int>) -> bool {
    &&& positions.len() == chunks.len()
    &&& forall|i: int, j: int| 0 <= i < j < positions.len() ==> positions[i] < positions[j]
    &&& forall|i: int|
        0 <= i < positions.len() ==> {
            &&& 0 <= positions[i]
            &&& (derive_key_xof_byte(material, positions[i]) as nat) < 256 - 256nat % base
            &&& chunks[i] as nat == (derive_key_xof_byte(material, positions[i]) as nat) % base
        }
    &&& forall|q: int|
        0 <= q < (if positions.len() > 0 { positions.last() } else { 0 }) && !positions.contains(q) ==> (
        derive_key_xof_byte(material, q) as nat) >= 256 - 256nat % base
}

/// Rejection sampling has read the output of `material` up to `scanned`:
/// `chunks` hold the accepted bytes at `positions`, and every other byte read
/// was rejected.
pub open spec fn scan_ok(material: Seq<u8>, base: nat, chunks: Seq<u8>, positions: Seq<int>, scanned: int) -> bool {
    &&& positions.len() == chunks.len()
    &&& forall|i: int, j: int| 0 <= i < j < positions.len() ==> positions[i] < positions[j]
    &&& forall|i: int|
        0 <= i < positions.len() ==> {
            &&& 0 <= #[trigger] positions[i] < scanned
            &&& (derive_key_xof_byte(material, positions[i]) as nat) < 256 - 256nat % base
            &&& chunks[i] as nat == (derive_key_xof_byte(material, positions[i]) as nat) % base
        }
    &&& forall|q: int|
        0 <= q < scanned && !positions.contains(q) ==> (#[trigger] derive_key_xof_byte(material, q) as nat) >= 256
            - 256nat % base
}

/// The number of bits in a chunk when `base` is a power of two from 2 to 256.
pub open spec fn chunk_bits(base: nat) -> Option<nat> {
    if base == 2 {
        Some(1nat)
    } else if base == 4 {
        Some(2nat)
    } else if base == 8 {
        Some(3nat)
    } else if base == 16 {
        Some(4nat)
    } else if base == 32 {
        Some(5nat)
    } else if base == 64 {
        Some(6nat)
    } else if base == 128 {
        Some(7nat)
    } else if base == 256 {
        Some(8nat)
    } else {
        None
    }
}

/// Byte `position` of the extendable output: byte `position % 64` of the
/// 64-byte block that starts at the multiple of 64 below it.
pub open spec fn xof_byte(material: Seq<u8>, position: nat) -> u8 {
    blake3_derive_key_xof(MESSAGE_HASH_CONTEXT@, material, (64 * (position / 64)) as u64)[(position % 64) as int]
}

/// Bit `index` of the extendable output, bits numbered from the least
/// significant bit of each byte up, byte after byte.
pub open spec fn xof_bit(material: Seq<u8>, index: nat) -> nat {
    ((xof_byte(material, index / 8) >> ((index % 8) as u8)) & 1u8) as nat
}

/// The `width` output bits from bit `start` on, read as a number whose least
/// significant bit is the first of them.
pub open spec fn bit_group(material: Seq<u8>, start: nat, width: nat) -> nat
    decreases width,
{
    if width == 0 {
        0
    } else {
        bit_group(material, start, (width - 1) as nat) + xof_bit(material, (start + width - 1) as nat) * pow2(
            (width - 1) as nat,
        )
    }
}

/// Bit packing: chunk `i` is the `i`-th disjoint group of `bits` output bits.
pub open spec fn packed_chunks(material: Seq<u8>, dimension: nat, bits: nat) -> Seq<u8> {
    Seq::new(dimension, |i: int| bit_group(material, (i * bits) as nat, bits) as u8)
}

/// The chunks of the message hash. For a power-of-two base they are packed
/// bit groups of the output. For another base they are the first `dimension`
/// accepted bytes of the output stream, if the blocks that may be read hold
/// that many.
pub open spec fn message_hash_spec(material: Seq<u8>, dimension: nat, base: nat) -> Option<Seq<u8>> {
    match chunk_bits(base) {
        Some(bits) => Some(packed_chunks(material, dimension, bits)),
        None => {
            let all = accepted(xof_stream(material, MAX_XOF_BLOCKS as nat), base);
            if all.len() >= dimension {
                Some(all.take(dimension as int))
            } else {
                None
            }
        },
    }
}

/// The bits per chunk of a power-of-two base give the base back.
pub proof fn lemma_chunk_bits(base: nat)
    ensures
        chunk_bits(base) matches Some(bits) ==> 1 <= bits <= 8 && pow2(bits) == base,
{
    lemma2_to64();
}

/// An output bit is 0 or 1.
proof fn lemma_xof_bit(material: Seq<u8>, index: nat)
    ensures
        xof_bit(material, index) <= 1,
{
    let b = xof_byte(material, index / 8);
    let s = (index % 8) as u8;
    assert((b >> s) & 1u8 <= 1u8) by (bit_vector);
}

/// A group of `width` bits is below `2^width`.
pub proof fn lemma_bit_group_bound(material: Seq<u8>, start: nat, width: nat)
    ensures
        bit_group(material, start, width) < pow2(width),
    decreases width,
{
    if width == 0 {
        lemma2_to64();
    } else {
        lemma_bit_group_bound(material, start, (width - 1) as nat);
        lemma_xof_bit(material, (start + width - 1) as nat);
        lemma_pow2_unfold(width);
        let w = pow2((width - 1) as nat);
        let x = xof_bit(material, (start + width - 1) as nat);
        assert(x * w <= w) by (nonlinear_arith)
            requires
                x <= 1,
        ;
    }
}

/// The bits per chunk of `base`, when it is a power of two from 2 to 256.
fn chunk_bits_of(base: usize) -> (r: Option<usize>)
    ensures
        match r {
            Some(bits) => chunk_bits(base as nat) == Some(bits as nat),
            None => chunk_bits(base as nat) is None,
        },
{
    if base == 2 {
        Some(1)
    } else if base == 4 {
        Some(2)
    } else if base == 8 {
        Some(3)
    } else if base == 16 {
        Some(4)
    } else if base == 32 {
        Some(5)
    } else if base == 64 {
        Some(6)
    } else if base == 128 {
        Some(7)
    } else if base == 256 {
        Some(8)
    } else {
        None
    }
}

/// Reads the first `len` bytes of the extendable output.
fn read_xof(material: &Vec<u8>, len: usize) -> (out: Vec<u8>)
    ensures
        out@.len() == len,
        forall|p: int| 0 <= p < len ==> out@[p] == #[trigger] xof_byte(material@, p as nat),
{
    let mut out: Vec<u8> = Vec::new();
    let mut block_index: u64 = 0;
    while out.len() < len
        invariant
            out@.len() <= len,
            out@.len() < len ==> out@.len() == 64 * block_index,
            forall|p: int| 0 <= p < out@.len() ==> out@[p] == #[trigger] xof_byte(material@, p as nat),
        decreases len - out@.len(),
    {
        let position: u64 = block_index * 64;
        let block = derive_key_xof_block(MESSAGE_HASH_CONTEXT, material.as_slice(), position);
        let ghost start = out@.len();
        let mut j: usize = 0;
        while j < 64 && out.len() < len
            invariant
                j <= 64,
                start == 64 * block_index,
                position == 64 * block_index,
                out@.len() == start + j,
                out@.len() <= len,
                block@ == blake3_derive_key_xof(MESSAGE_HASH_CONTEXT@, material@, position),
                forall|p: int| 0 <= p < out@.len() ==> out@[p] == #[trigger] xof_byte(material@, p as nat),
            decreases 64 - j,
        {
            proof {
                let p = (start + j) as int;
                lemma_fundamental_div_mod_converse(p, 64, block_index as int, j as int);
            }
            out.push(block[j]);
            j = j + 1;
        }
        block_index = block_index + 1;
    }
    out
}

/// Packs the output bits into `dimension` chunks of `bits` bits each.
fn pack_chunks(material: &Vec<u8>, dimension: usize, bits: usize) -> (chunks: Vec<u8>)
    requires
        1 <= bits <= 8,
    ensures
        chunks@ == packed_chunks(material@, dimension as nat, bits as nat),
{
    proof {
        assert(dimension * bits <= 8 * dimension) by (nonlinear_arith)
            requires
                bits <= 8,
        ;
    }
    let total_bits: u128 = (dimension as u128) * (bits as u128);
    let needed: usize = ((total_bits + 7) / 8) as usize;
    let stream = read_xof(material, needed);
    let mut chunks: Vec<u8> = Vec::new();
    let mut i: usize = 0;
    while i < dimension
        invariant
            1 <= bits <= 8,
            i <= dimension,
            total_bits == dimension * bits,
            needed == (total_bits + 7) / 8,
            stream@.len() == needed,
            forall|p: int| 0 <= p < needed ==> stream@[p] == #[trigger] xof_byte(material@, p as nat),
            chunks@.len() == i,
            forall|q: int| 0 <= q < i ==> #[trigger] chunks@[q] == bit_group(material@, (q * bits) as nat, bits as nat) as u8,
        decreases dimension - i,
    {
        proof {
            assert(i * bits + bits <= dimension * bits) by (nonlinear_arith)
                requires
                    i < dimension,
            ;
        }
        let first: u128 = (i as u128) * (bits as u128);
        let mut value: u32 = 0;
        let mut weight: u32 = 1;
        let mut t: usize = 0;
        proof {
            lemma2_to64();
        }
        while t < bits
            invariant
                1 <= bits <= 8,
                t <= bits,
                first + bits <= total_bits,
                needed == (total_bits + 7) / 8,
                stream@.len() == needed,
                forall|p: int| 0 <= p < needed ==> stream@[p] == #[trigger] xof_byte(material@, p as nat),
                weight == pow2(t as nat),
                value == bit_group(material@, first as nat, t as nat),
                value < weight,
                weight <= 256,
            decreases bits - t,
        {
            let index: u128 = first + t as u128;
            let ghost p: int = (index / 8) as int;
            assert(0 <= p < needed);
            assert(stream@[p] == xof_byte(material@, p as nat));
            let byte = stream[(index / 8) as usize];
            let bit: u8 = (byte >> ((index % 8) as u8)) & 1u8;
            proof {
                lemma_xof_bit(material@, index as nat);
                lemma_pow2_unfold((t + 1) as nat);
                lemma2_to64();
                if t + 1 <= 8 {
                    if t + 1 < 8 {
                        lemma_pow2_strictly_increases((t + 1) as nat, 8);
                    }
                }
                assert(bit as nat == xof_bit(material@, index as nat));
                assert(bit as nat * weight <= weight) by (nonlinear_arith)
                    requires
                        bit <= 1,
                ;
            }
            value = value + (bit as u32) * weight;
            weight = weight * 2;
            t = t + 1;
        }
        proof {
            lemma_bit_group_bound(material@, first as nat, bits as nat);
        }
        chunks.push(value as u8);
        i = i + 1;
    }
    proof {
        assert(chunks@ =~= packed_chunks(material@, dimension as nat, bits as nat));
    }
    chunks
}

/// Rejection sampling distributes over concatenation.
pub proof fn lemma_accepted_concat(a: Seq<u8>, b: Seq<u8>, base: nat)
    ensures
        accepted(a + b, base) == accepted(a, base) + accepted(b, base),
    decreases b.len(),
{
    if b.len() == 0 {
        assert(a + b =~= a);
        assert(accepted(a, base) + accepted(b, base) =~= accepted(a, base));
    } else {
        assert((a + b).drop_last() =~= a + b.drop_last());
        assert((a + b).last() == b.last());
        lemma_accepted_concat(a, b.drop_last(), base);
        let tail = if (b.last() as nat) < acceptance_bound(base) {
            seq![((b.last() as nat) % base) as u8]
        } else {
            Seq::empty()
        };
        assert(accepted(a + b, base) == accepted(a + b.drop_last(), base) + tail);
        assert(accepted(b, base) == accepted(b.drop_last(), base) + tail);
        assert(accepted(a, base) + accepted(b.drop_last(), base) + tail =~= accepted(a, base) + (accepted(b.drop_last(), base) + tail));
    }
}

/// Every accepted chunk is below `base`.
pub proof fn lemma_accepted_bounded(bytes: Seq<u8>, base: nat)
    requires
        1 <= base <= 256,
    ensures
        forall|i: int| 0 <= i < accepted(bytes, base).len() ==> (#[trigger] accepted(bytes, base)[i]) < base,
    decreases bytes.len(),
{
    if bytes.len() > 0 {
        lemma_accepted_bounded(bytes.drop_last(), base);
        let last = bytes.last();
        let prev = accepted(bytes.drop_last(), base);
        let tail = if (last as nat) < acceptance_bound(base) {
            seq![((last as nat) % base) as u8]
        } else {
            Seq::empty()
        };
        assert((last as nat) % base < base);
        assert(accepted(bytes, base) == prev + tail);
        assert forall|i: int| 0 <= i < accepted(bytes, base).len() implies (#[trigger] accepted(bytes, base)[i]) < base by {
            if i < prev.len() {
                assert(accepted(bytes, base)[i] == prev[i]);
            } else {
                assert(accepted(bytes, base)[i] == tail[i - prev.len()]);
            }
        }
    }
}

/// The accepted chunks of a shorter output prefix begin those of a longer one.
pub proof fn lemma_accepted_stream_prefix(material: Seq<u8>, n: nat, m: nat, base: nat)
    requires
        n <= m,
    ensures
        accepted(xof_stream(material, m), base).len() >= accepted(xof_stream(material, n), base).len(),
        accepted(xof_stream(material, m), base).take(accepted(xof_stream(material, n), base).len() as int)
            == accepted(xof_stream(material, n), base),
    decreases m - n,
{
    if n < m {
        lemma_accepted_stream_prefix(material, n, (m - 1) as nat, base);
        let block = blake3_derive_key_xof(MESSAGE_HASH_CONTEXT@, material, (64 * (m - 1)) as u64);
        lemma_accepted_concat(xof_stream(material, (m - 1) as nat), block, base);
        let a = accepted(xof_stream(material, (m - 1) as nat), base);
        let p = accepted(xof_stream(material, n), base);
        assert((a + accepted(block, base)).take(p.len() as int) =~= a.take(p.len() as int));
    }
}

impl<const DIMENSION: usize, const BASE: usize> Blake3MessageHash<DIMENSION, BASE> {
    /// The hash's dimension and base are its two parameters.
    pub proof fn lemma_parameters()
        ensures
            <Self as MessageHash>::DIMENSION == DIMENSION,
            <Self as MessageHash>::BASE == BASE,
    {
    }
}

impl<const DIMENSION: usize, const BASE: usize> MessageHash for Blake3MessageHash<DIMENSION, BASE> {
    type Error = Blake3MessageHashError;

    const DIMENSION: usize = DIMENSION;

    const BASE: usize = BASE;

    open spec fn spec_apply(parameter: Seq<u8>, epoch: u32, randomness: Seq<u8>, message: Seq<u8>) -> Option<Seq<u8>> {
        message_hash_spec(message_hash_material(parameter, epoch, randomness, message), DIMENSION as nat, BASE as nat)
    }

    open spec fn spec_apply_error(parameter: Seq<u8>, epoch: u32, randomness: Seq<u8>, message: Seq<u8>) -> Blake3MessageHashError {
        Blake3MessageHashError::OutputExhausted
    }

    proof fn lemma_apply_shape(parameter: Seq<u8>, epoch: u32, randomness: Seq<u8>, message: Seq<u8>) {
        let material = message_hash_material(parameter, epoch, randomness, message);
        lemma_chunk_bits(BASE as nat);
        if let Some(bits) = chunk_bits(BASE as nat) {
            let c = packed_chunks(material, DIMENSION as nat, bits);
            assert forall|i: int| 0 <= i < c.len() implies (#[trigger] c[i]) < BASE by {
                lemma_bit_group_bound(material, (i * bits) as nat, bits);
                lemma2_to64();
            }
        } else {
            let all = accepted(xof_stream(material, MAX_XOF_BLOCKS as nat), BASE as nat);
            lemma_accepted_bounded(xof_stream(material, MAX_XOF_BLOCKS as nat), BASE as nat);
            if all.len() >= DIMENSION {
                let c = all.take(DIMENSION as int);
                assert forall|i: int| 0 <= i < c.len() implies (#[trigger] c[i]) < BASE by {
                    assert(c[i] == all[i]);
                }
            }
        }
    }

    fn rand(rng: &mut rand::rngs::StdRng) -> [u8; HASH_LENGTH] {
        random_bytes(rng)
    }

    fn apply(
        parameter: &[u8; HASH_LENGTH],
        epoch: u32,
        randomness: &[u8; HASH_LENGTH],
        message: &[u8; MESSAGE_LENGTH],
    ) -> (r: Result<Vec<u8>, Blake3MessageHashError>)
        ensures
            chunk_bits(BASE as nat) is None ==> (r matches Ok(c) ==> exists|positions: Seq<int>|
                #[trigger] rejection_positions(
                    parameter@ + spec_u32_to_le_bytes(epoch) + randomness@ + message@,
                    BASE as nat,
                    c@,
                    positions,
                )),
            chunk_bits(BASE as nat) is None ==> (r is Err ==> exists|chunks: Seq<u8>, positions: Seq<int>|
                chunks.len() < DIMENSION && #[trigger] scan_ok(
                    parameter@ + spec_u32_to_le_bytes(epoch) + randomness@ + message@,
                    BASE as nat,
                    chunks,
                    positions,
                    64 * MAX_XOF_BLOCKS,
                )),
    {
        let mut material: Vec<u8> = Vec::new();
        push_bytes(&mut material, parameter);
        push_u32_le(&mut material, epoch);
        push_bytes(&mut material, randomness);
        push_bytes(&mut material, message);
        let ghost mat = material@;
        assert(mat =~= message_hash_material(parameter@, epoch, randomness@, message@));

        // Power-of-two bases take disjoint groups of output bits.
        if let Some(bits) = chunk_bits_of(BASE) {
            proof {
                lemma_chunk_bits(BASE as nat);
            }
            return Ok(pack_chunks(&material, DIMENSION, bits));
        }

        // Rejection sampling avoids modulo bias for non-power-of-two bases.
        let acceptance_limit: usize = 256 - (256 % BASE);
        let mut chunks: Vec<u8> = Vec::new();
        let mut block_index: u64 = 0;
        let ghost mut positions: Seq<int> = Seq::empty();
        let ghost mut scanned: int = 0;
        while chunks.len() < DIMENSION && block_index < MAX_XOF_BLOCKS
            invariant
                2 <= BASE <= 256,
                acceptance_limit == acceptance_bound(BASE as nat),
                material@ == mat,
                scan_ok(mat, BASE as nat, chunks@, positions, scanned),
                0 <= scanned <= 64 * block_index,
                chunks@.len() < DIMENSION ==> scanned == 64 * block_index,
                block_index <= MAX_XOF_BLOCKS,
                chunks@.len() <= DIMENSION,
                accepted(xof_stream(mat, block_index as nat), BASE as nat).len() >= chunks@.len(),
                chunks@ == accepted(xof_stream(mat, block_index as nat), BASE as nat).take(chunks@.len() as int),
                chunks@.len() < DIMENSION ==> chunks@ == accepted(xof_stream(mat, block_index as nat), BASE as nat),
            decreases MAX_XOF_BLOCKS - block_index,
        {
            let block = derive_key_xof_block(MESSAGE_HASH_CONTEXT, material.as_slice(), block_index * 64);
            let ghost before = chunks@;
            assert(scanned == 64 * block_index);
            let mut j: usize = 0;
            while j < 64 && chunks.len() < DIMENSION
                invariant
                    2 <= BASE <= 256,
                    acceptance_limit == acceptance_bound(BASE as nat),
                    j <= 64,
                    block@.len() == 64,
                    chunks@.len() <= DIMENSION,
                    chunks@ == before + accepted(block@.subrange(0, j as int), BASE as nat),
                    block@ == blake3_derive_key_xof(MESSAGE_HASH_CONTEXT@, mat, (block_index * 64) as u64),
                    block_index < MAX_XOF_BLOCKS,
                    scanned == 64 * block_index + j,
                    scan_ok(mat, BASE as nat, chunks@, positions, scanned),
                decreases 64 - j,
            {
                let byte = block[j];
                proof {
                    assert(block@.subrange(0, j + 1).drop_last() =~= block@.subrange(0, j as int));
                    assert(block@.subrange(0, j + 1).last() == byte);
                    lemma_fundamental_div_mod_converse(scanned, 64, block_index as int, j as int);
                    assert(derive_key_xof_byte(mat, scanned) == byte);
                }
                let ghost old_positions = positions;
                let ghost old_chunks = chunks@;
                if (byte as usize) < acceptance_limit {
                    chunks.push(((byte as usize) % BASE) as u8);
                    assert(chunks@ =~= before + accepted(block@.subrange(0, j + 1), BASE as nat));
                    proof {
                        positions = positions.push(scanned);
                        assert forall|i: int| 0 <= i < positions.len() implies {
                            &&& 0 <= #[trigger] positions[i] < scanned + 1
                            &&& (derive_key_xof_byte(mat, positions[i]) as nat) < 256 - 256nat % (BASE as nat)
                            &&& chunks@[i] as nat == (derive_key_xof_byte(mat, positions[i]) as nat) % (BASE as nat)
                        } by {
                            if i < old_positions.len() {
                                assert(positions[i] == old_positions[i]);
                                assert(chunks@[i] == old_chunks[i]);
                            }
                        }
                        assert forall|q: int| 0 <= q < scanned + 1 && !positions.contains(q) implies (
                        #[trigger] derive_key_xof_byte(mat, q) as nat) >= 256 - 256nat % (BASE as nat) by {
                            if q < scanned && old_positions.contains(q) {
                                let w = choose|w: int| 0 <= w < old_positions.len() && old_positions[w] == q;
                                assert(positions[w] == q);
                            }
                            if q == scanned {
                                assert(positions[positions.len() - 1] == q);
                            }
                        }
                        assert(scan_ok(mat, BASE as nat, chunks@, positions, scanned + 1));
                    }
                } else {
                    assert(chunks@ =~= before + accepted(block@.subrange(0, j + 1), BASE as nat));
                    proof {
                        assert forall|q: int| 0 <= q < scanned + 1 && !positions.contains(q) implies (
                        #[trigger] derive_key_xof_byte(mat, q) as nat) >= 256 - 256nat % (BASE as nat) by {
                        }
                        assert forall|i: int| 0 <= i < positions.len() implies 0 <= #[trigger] positions[i] < scanned + 1 by {
                        }
                        assert(scan_ok(mat, BASE as nat, chunks@, positions, scanned + 1));
                    }
                }
                proof {
                    scanned = scanned + 1;
                }
                j = j + 1;
            }
            proof {
                let n = block_index as nat;
                assert(xof_stream(mat, n + 1) == xof_stream(mat, n) + block@);
                lemma_accepted_concat(xof_stream(mat, n), block@, BASE as nat);
                assert(block@ =~= block@.subrange(0, j as int) + block@.subrange(j as int, 64));
                lemma_accepted_concat(block@.subrange(0, j as int), block@.subrange(j as int, 64), BASE as nat);
                let next = accepted(xof_stream(mat, n + 1), BASE as nat);
                assert(next =~= chunks@ + accepted(block@.subrange(j as int, 64), BASE as nat));
                assert(next.take(chunks@.len() as int) =~= chunks@);
                if chunks@.len() < DIMENSION {
                    assert(j == 64);
                    assert(block@.subrange(j as int, 64) =~= Seq::<u8>::empty());
                    assert(next =~= chunks@);
                }
            }
            block_index = block_index + 1;
        }
        proof {
            lemma_accepted_stream_prefix(mat, block_index as nat, MAX_XOF_BLOCKS as nat, BASE as nat);
            let all = accepted(xof_stream(mat, MAX_XOF_BLOCKS as nat), BASE as nat);
            let here = accepted(xof_stream(mat, block_index as nat), BASE as nat);
            if chunks@.len() == DIMENSION {
                assert(all.take(DIMENSION as int) =~= here.take(DIMENSION as int));
            }
        }
        if chunks.len() < DIMENSION {
            proof {
                assert(scan_ok(mat, BASE as nat, chunks@, positions, 64 * MAX_XOF_BLOCKS));
            }
            Err(Blake3MessageHashError::OutputExhausted)
        } else {
            proof {
                assert(rejection_positions(mat, BASE as nat, chunks@, positions));
            }
            Ok(chunks)
        }
    }
}

/// An output bit is the bit of its byte, read by division.
proof fn lemma_xof_bit_value(material: Seq<u8>, index: nat)
    ensures
        xof_bit(material, index) == (xof_byte(material, index / 8) as nat / pow2(index % 8)) % 2,
{
    let b = xof_byte(material, index / 8);
    let s = (index % 8) as u8;
    lemma_u8_shr_is_div(b, s);
    let y = b >> s;
    assert(y & 1u8 == y % 2u8) by (bit_vector);
}

/// Bit `t` of a group of `width` output bits is output bit `start + t`.
proof fn lemma_bit_group_bit(material: Seq<u8>, start: nat, width: nat, t: nat)
    requires
        t < width,
    ensures
        (bit_group(material, start, width) / pow2(t)) % 2 == xof_bit(material, start + t),
    decreases width,
{
    let w1 = (width - 1) as nat;
    let v = bit_group(material, start, w1);
    let b = xof_bit(material, start + w1);
    lemma_bit_group_bound(material, start, w1);
    lemma_xof_bit(material, start + w1);
    lemma_pow2_pos(w1);
    lemma_pow2_pos(t);
    assert(bit_group(material, start, width) == v + b * pow2(w1));
    if t == w1 {
        lemma_fundamental_div_mod_converse((v + b * pow2(w1)) as int, pow2(w1) as int, b as int, v as int);
    } else {
        lemma_bit_group_bit(material, start, w1, t);
        let d = pow2(t);
        let k = (w1 - t) as nat;
        lemma_pow2_adds(t, k);
        assert(t + k == w1);
        let q = v / d;
        let rem = v % d;
        lemma_fundamental_div_mod(v as int, d as int);
        let big = b * pow2(k);
        assert(b * pow2(w1) == big * d) by (nonlinear_arith)
            requires
                pow2(w1) == d * pow2(k),
                big == b * pow2(k),
        ;
        assert(v + big * d == (q + big) * d + rem) by (nonlinear_arith)
            requires
                v == d * q + rem,
        ;
        lemma_fundamental_div_mod_converse((v + big * d) as int, d as int, (q + big) as int, rem as int);
        lemma_pow2_unfold(k);
        let half = b * pow2((k - 1) as nat);
        assert(big == 2 * half) by (nonlinear_arith)
            requires
                big == b * pow2(k),
                pow2(k) == 2 * pow2((k - 1) as nat),
                half == b * pow2((k - 1) as nat),
        ;
        lemma_mod_multiples_vanish(half as int, q as int, 2);
        assert(q + big == 2 * half + q);
    }
}

/// Output bit `index` of the derive-key extendable output of `material` in
/// the message-hash context: bit `index % 8` of byte `index / 8`, that byte
/// read from the 64-byte block that holds it.
pub open spec fn derive_key_xof_bit(material: Seq<u8>, index: nat) -> nat {
    let byte = index / 8;
    let block = blake3_derive_key_xof(MESSAGE_HASH_CONTEXT@, material, (64 * (byte / 64)) as u64);
    (block[(byte % 64) as int] as nat / pow2(index % 8)) % 2
}

impl<const DIMENSION: usize, const BASE: usize> Blake3MessageHash<DIMENSION, BASE> {
    /// For a base `2^bits`, the hash gives `DIMENSION` chunks below the base,
    /// and bit `t` of chunk `i` is bit `i * bits + t` of the BLAKE3 derive-key
    /// output, in the message-hash context, of the parameter, the epoch in
    /// four little-endian bytes, the randomness and the message.
    pub proof fn lemma_power_of_two_output(
        parameter: Seq<u8>,
        epoch: u32,
        randomness: Seq<u8>,
        message: Seq<u8>,
        bits: nat,
    )
        requires
            1 <= bits <= 8,
            BASE == pow2(bits),
        ensures
            <Self as MessageHash>::spec_apply(parameter, epoch, randomness, message) matches Some(c) && c.len()
                == DIMENSION && (forall|i: int| 0 <= i < DIMENSION ==> (#[trigger] c[i]) < BASE) && (forall|
                i: int,
                t: nat,
            |
                #![trigger c[i], pow2(t)]
                0 <= i < DIMENSION && t < bits ==> (c[i] as nat / pow2(t)) % 2 == derive_key_xof_bit(
                    parameter + spec_u32_to_le_bytes(epoch) + randomness + message,
                    (i * bits + t) as nat,
                )),
    {
        let material = parameter + spec_u32_to_le_bytes(epoch) + randomness + message;
        assert(material == message_hash_material(parameter, epoch, randomness, message));
        lemma2_to64();
        assert(chunk_bits(BASE as nat) == Some(bits));
        let c = packed_chunks(material, DIMENSION as nat, bits);
        assert forall|i: int| 0 <= i < DIMENSION implies (#[trigger] c[i]) < BASE by {
            lemma_bit_group_bound(material, (i * bits) as nat, bits);
        }
        assert forall|i: int, t: nat| #![trigger c[i], pow2(t)] 0 <= i < DIMENSION && t < bits implies (c[i] as nat / pow2(t)) % 2
            == derive_key_xof_bit(material, (i * bits + t) as nat) by {
            let start = (i * bits) as nat;
            lemma_bit_group_bound(material, start, bits);
            lemma_bit_group_bit(material, start, bits, t);
            lemma_xof_bit_value(material, start + t);
            assert(start + t == (i * bits + t) as nat);
        }
    }
}

/// Materials with the same extendable output have the same output streams.
proof fn lemma_same_xof_stream(a: Seq<u8>, b: Seq<u8>, n: nat)
    requires
        forall|pos: u64|
            #[trigger] blake3_derive_key_xof(MESSAGE_HASH_CONTEXT@, a, pos) == blake3_derive_key_xof(
                MESSAGE_HASH_CONTEXT@,
                b,
                pos,
            ),
    ensures
        xof_stream(a, n) == xof_stream(b, n),
    decreases n,
{
    if n > 0 {
        lemma_same_xof_stream(a, b, (n - 1) as nat);
        assert(blake3_derive_key_xof(MESSAGE_HASH_CONTEXT@, a, (64 * (n - 1)) as u64) == blake3_derive_key_xof(
            MESSAGE_HASH_CONTEXT@,
            b,
            (64 * (n - 1)) as u64,
        ));
    }
}

/// Materials with the same extendable output have the same bit groups.
proof fn lemma_same_bit_group(a: Seq<u8>, b: Seq<u8>, start: nat, width: nat)
    requires
        forall|pos: u64|
            #[trigger] blake3_derive_key_xof(MESSAGE_HASH_CONTEXT@, a, pos) == blake3_derive_key_xof(
                MESSAGE_HASH_CONTEXT@,
                b,
                pos,
            ),
    ensures
        bit_group(a, start, width) == bit_group(b, start, width),
    decreases width,
{
    if width > 0 {
        lemma_same_bit_group(a, b, start, (width - 1) as nat);
        let j = (start + width - 1) as nat;
        let pos = (64 * ((j / 8) / 64)) as u64;
        assert(blake3_derive_key_xof(MESSAGE_HASH_CONTEXT@, a, pos) == blake3_derive_key_xof(MESSAGE_HASH_CONTEXT@, b, pos));
        assert(xof_bit(a, j) == xof_bit(b, j));
    }
}

impl<const DIMENSION: usize, const BASE: usize> Blake3MessageHash<DIMENSION, BASE> {
    /// For every base, the hash is a function of the BLAKE3 derive-key output,
    /// in the message-hash context, of the parameter, the epoch in four
    /// little-endian bytes, the randomness and the message: inputs whose
    /// outputs agree hash alike.
    pub proof fn lemma_output_determined_by_xof(
        p1: Seq<u8>,
        e1: u32,
        r1: Seq<u8>,
        m1: Seq<u8>,
        p2: Seq<u8>,
        e2: u32,
        r2: Seq<u8>,
        m2: Seq<u8>,
    )
        requires
            forall|pos: u64|
                #[trigger] blake3_derive_key_xof(
                    MESSAGE_HASH_CONTEXT@,
                    p1 + spec_u32_to_le_bytes(e1) + r1 + m1,
                    pos,
                ) == blake3_derive_key_xof(MESSAGE_HASH_CONTEXT@, p2 + spec_u32_to_le_bytes(e2) + r2 + m2, pos),
        ensures
            <Self as MessageHash>::spec_apply(p1, e1, r1, m1) == <Self as MessageHash>::spec_apply(p2, e2, r2, m2),
    {
        let a = p1 + spec_u32_to_le_bytes(e1) + r1 + m1;
        let b = p2 + spec_u32_to_le_bytes(e2) + r2 + m2;
        assert(a == message_hash_material(p1, e1, r1, m1));
        assert(b == message_hash_material(p2, e2, r2, m2));
        match chunk_bits(BASE as nat) {
            Some(bits) => {
                assert forall|i: int| 0 <= i < DIMENSION implies #[trigger] packed_chunks(a, DIMENSION as nat, bits)[i]
                    == packed_chunks(b, DIMENSION as nat, bits)[i] by {
                    lemma_same_bit_group(a, b, (i * bits) as nat, bits);
                }
                assert(packed_chunks(a, DIMENSION as nat, bits) =~= packed_chunks(b, DIMENSION as nat, bits));
            },
            None => {
                lemma_same_xof_stream(a, b, MAX_XOF_BLOCKS as nat);
            },
        }
    }
}

} // verus!
