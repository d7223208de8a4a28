//! The BLAKE3 compression function over four independent lanes, for the
//! fixed-size hashes of the Winternitz chains: each 32-bit word of the state
//! is a vector of four lanes, one per input.

use vstd::prelude::*;
use crate::HASH_LENGTH;
use crate::serialization::{read_u32, u32_at};
use super::SIMD_LANES;

verus! {

// ---------------------------------------------------------------------------
// The compression function on one lane
// ---------------------------------------------------------------------------

/// The first eight words of the BLAKE3 initialization vector.
pub open spec fn iv_spec() -> Seq<u32> {
    seq![0x6A09_E667u32, 0xBB67_AE85u32, 0x3C6E_F372u32, 0xA54F_F53Au32, 0x510E_527Fu32, 0x9B05_688Cu32, 0x1F83_D9ABu32, 0x5BE0_CD19u32]
}

/// Rotation right by 16 bits.
pub open spec fn rotr16(x: u32) -> u32 {
    (x >> 16u32) | (x << 16u32)
}

/// Rotation right by 12 bits.
pub open spec fn rotr12(x: u32) -> u32 {
    (x >> 12u32) | (x << 20u32)
}

/// Rotation right by 8 bits.
pub open spec fn rotr8(x: u32) -> u32 {
    (x >> 8u32) | (x << 24u32)
}

/// Rotation right by 7 bits.
pub open spec fn rotr7(x: u32) -> u32 {
    (x >> 7u32) | (x << 25u32)
}

/// The quarter-round `G` on state words `a, b, c, d` with message words `x`
/// and `y`.
pub open spec fn g_spec(s: Seq<u32>, a: int, b: int, c: int, d: int, x: u32, y: u32) -> Seq<u32> {
    let va = s[a].wrapping_add(s[b]).wrapping_add(x);
    let vd = rotr16(s[d] ^ va);
    let vc = s[c].wrapping_add(vd);
    let vb = rotr12(s[b] ^ vc);
    let va2 = va.wrapping_add(vb).wrapping_add(y);
    let vd2 = rotr8(vd ^ va2);
    let vc2 = vc.wrapping_add(vd2);
    let vb2 = rotr7(vb ^ vc2);
    s.update(a, va2).update(b, vb2).update(c, vc2).update(d, vd2)
}

/// One round: `G` on the columns, then on the diagonals, with the message
/// words that `schedule` picks.
pub open spec fn round_spec(s: Seq<u32>, m: Seq<u32>, schedule: Seq<usize>) -> Seq<u32> {
    let s1 = g_spec(s, 0, 4, 8, 12, m[schedule[0] as int], m[schedule[1] as int]);
    let s2 = g_spec(s1, 1, 5, 9, 13, m[schedule[2] as int], m[schedule[3] as int]);
    let s3 = g_spec(s2, 2, 6, 10, 14, m[schedule[4] as int], m[schedule[5] as int]);
    let s4 = g_spec(s3, 3, 7, 11, 15, m[schedule[6] as int], m[schedule[7] as int]);
    let s5 = g_spec(s4, 0, 5, 10, 15, m[schedule[8] as int], m[schedule[9] as int]);
    let s6 = g_spec(s5, 1, 6, 11, 12, m[schedule[10] as int], m[schedule[11] as int]);
    let s7 = g_spec(s6, 2, 7, 8, 13, m[schedule[12] as int], m[schedule[13] as int]);
    g_spec(s7, 3, 4, 9, 14, m[schedule[14] as int], m[schedule[15] as int])
}

/// The message permutation of round `r`.
pub open spec fn schedule_spec(r: int) -> Seq<usize> {
    if r == 0 {
        seq![0usize, 1, 2, 3, 4, 5, 6, 7, 8, 9, 10, 11, 12, 13, 14, 15]
    } else if r == 1 {
        seq![2usize, 6, 3, 10, 7, 0, 4, 13, 1, 11, 12, 5, 9, 14, 15, 8]
    } else if r == 2 {
        seq![3usize, 4, 10, 12, 13, 2, 7, 14, 6, 5, 9, 0, 11, 15, 8, 1]
    } else if r == 3 {
        seq![10usize, 7, 12, 9, 14, 3, 13, 15, 4, 0, 11, 2, 5, 8, 1, 6]
    } else if r == 4 {
        seq![12usize, 13, 9, 11, 15, 10, 14, 8, 7, 2, 5, 3, 0, 1, 6, 4]
    } else if r == 5 {
        seq![9usize, 14, 11, 5, 8, 12, 15, 1, 13, 3, 0, 10, 2, 6, 4, 7]
    } else {
        seq![11usize, 15, 5, 0, 1, 9, 8, 6, 14, 10, 2, 12, 3, 4, 7, 13]
    }
}

/// The state after the first `r` rounds.
pub open spec fn rounds_spec(s: Seq<u32>, m: Seq<u32>, r: nat) -> Seq<u32>
    decreases r,
{
    if r == 0 {
        s
    } else {
        round_spec(rounds_spec(s, m, (r - 1) as nat), m, schedule_spec(r - 1))
    }
}

/// The initial state of a compression with counter zero.
pub open spec fn initial_state(cv: Seq<u32>, block_len: u32, flags: u32) -> Seq<u32> {
    cv + iv_spec().subrange(0, 4) + seq![0u32, 0u32, block_len, flags]
}

/// The BLAKE3 compression of one block (as 16 words) into a chaining value,
/// with counter zero: seven rounds, then the two halves of the state xored.
pub open spec fn compress_spec(cv: Seq<u32>, m: Seq<u32>, block_len: u32, flags: u32) -> Seq<u32> {
    let s = rounds_spec(initial_state(cv, block_len, flags), m, 7);
    Seq::new(8, |i: int| s[i] ^ s[i + 8])
}

/// The little-endian words of a byte string of whole words.
pub open spec fn le_words(b: Seq<u8>, n: nat) -> Seq<u32> {
    Seq::new(n, |w: int| u32_at(b, 4 * w))
}

/// The bytes of words, each little-endian.
pub open spec fn words_le_bytes(words: Seq<u32>) -> Seq<u8> {
    Seq::new(4 * words.len(), |i: int| vstd::bytes::spec_u32_to_le_bytes(words[i / 4])[i % 4])
}

/// A block of input bytes padded with zeros to 64 bytes.
pub open spec fn padded_block(b: Seq<u8>) -> Seq<u8> {
    b + Seq::new((64 - b.len()) as nat, |i: int| 0u8)
}

/// The 32-byte output of hashing a 70-byte input in derive-key-material
/// mode from a context key: the first 64 bytes as the chunk's first block,
/// the last six as its final, root block.
pub open spec fn derive_key_material_70_spec(context_key: Seq<u8>, input: Seq<u8>) -> Seq<u8> {
    let cv1 = compress_spec(le_words(context_key, 8), le_words(input.subrange(0, 64), 16), 64, 65);
    let cv2 = compress_spec(cv1, le_words(padded_block(input.subrange(64, 70)), 16), 6, 74);
    words_le_bytes(cv2)
}

/// The 32-byte output of a keyed hash of at most one block: the input as
/// the single, root block of its chunk.
pub open spec fn keyed_hash_block_spec(key: Seq<u8>, input: Seq<u8>) -> Seq<u8> {
    words_le_bytes(compress_spec(le_words(key, 8), le_words(padded_block(input), 16), input.len() as u32, 27))
}

// ---------------------------------------------------------------------------
// Four-lane vectors
// ---------------------------------------------------------------------------

/// Four 32-bit lanes.
#[derive(Clone, Copy)]
pub struct V {
    pub lanes: [u32; SIMD_LANES],
}

/// Lane `l` of each vector of `st`.
pub open spec fn lane(st: Seq<V>, l: int) -> Seq<u32> {
    Seq::new(st.len(), |i: int| st[i].lanes@[l])
}

impl V {
    /// The same value in every lane.
    pub fn splat(value: u32) -> (r: V)
        ensures
            forall|l: int| 0 <= l < 4 ==> #[trigger] r.lanes@[l] == value,
    {
        V { lanes: [value, value, value, value] }
    }

    /// The vector with the given lanes.
    pub fn from_lanes(lanes: [u32; SIMD_LANES]) -> (r: V)
        ensures
            r.lanes == lanes,
    {
        V { lanes }
    }

    /// The lanes of the vector.
    pub fn to_lanes(self) -> (r: [u32; SIMD_LANES])
        ensures
            r == self.lanes,
    {
        self.lanes
    }

    /// Lane-wise wrapping addition.
    pub fn wrapping_add(self, rhs: V) -> (r: V)
        ensures
            forall|l: int| 0 <= l < 4 ==> #[trigger] r.lanes@[l] == self.lanes@[l].wrapping_add(rhs.lanes@[l]),
    {
        V {
            lanes: [
                self.lanes[0].wrapping_add(rhs.lanes[0]),
                self.lanes[1].wrapping_add(rhs.lanes[1]),
                self.lanes[2].wrapping_add(rhs.lanes[2]),
                self.lanes[3].wrapping_add(rhs.lanes[3]),
            ],
        }
    }

    /// Lane-wise exclusive or.
    pub fn xor(self, rhs: V) -> (r: V)
        ensures
            forall|l: int| 0 <= l < 4 ==> #[trigger] r.lanes@[l] == self.lanes@[l] ^ rhs.lanes@[l],
    {
        V {
            lanes: [
                self.lanes[0] ^ rhs.lanes[0],
                self.lanes[1] ^ rhs.lanes[1],
                self.lanes[2] ^ rhs.lanes[2],
                self.lanes[3] ^ rhs.lanes[3],
            ],
        }
    }

    /// Lane-wise rotation right by 16 bits.
    pub fn rotate_right_16(self) -> (r: V)
        ensures
            forall|l: int| 0 <= l < 4 ==> #[trigger] r.lanes@[l] == rotr16(self.lanes@[l]),
    {
        let a = self.lanes;
        V {
            lanes: [
                (a[0] >> 16u32) | (a[0] << 16u32),
                (a[1] >> 16u32) | (a[1] << 16u32),
                (a[2] >> 16u32) | (a[2] << 16u32),
                (a[3] >> 16u32) | (a[3] << 16u32),
            ],
        }
    }

    /// Lane-wise rotation right by 12 bits.
    pub fn rotate_right_12(self) -> (r: V)
        ensures
            forall|l: int| 0 <= l < 4 ==> #[trigger] r.lanes@[l] == rotr12(self.lanes@[l]),
    {
        let a = self.lanes;
        V {
            lanes: [
                (a[0] >> 12u32) | (a[0] << 20u32),
                (a[1] >> 12u32) | (a[1] << 20u32),
                (a[2] >> 12u32) | (a[2] << 20u32),
                (a[3] >> 12u32) | (a[3] << 20u32),
            ],
        }
    }

    /// Lane-wise rotation right by 8 bits.
    pub fn rotate_right_8(self) -> (r: V)
        ensures
            forall|l: int| 0 <= l < 4 ==> #[trigger] r.lanes@[l] == rotr8(self.lanes@[l]),
    {
        let a = self.lanes;
        V {
            lanes: [
                (a[0] >> 8u32) | (a[0] << 24u32),
                (a[1] >> 8u32) | (a[1] << 24u32),
                (a[2] >> 8u32) | (a[2] << 24u32),
                (a[3] >> 8u32) | (a[3] << 24u32),
            ],
        }
    }

    /// Lane-wise rotation right by 7 bits.
    pub fn rotate_right_7(self) -> (r: V)
        ensures
            forall|l: int| 0 <= l < 4 ==> #[trigger] r.lanes@[l] == rotr7(self.lanes@[l]),
    {
        let a = self.lanes;
        V {
            lanes: [
                (a[0] >> 7u32) | (a[0] << 25u32),
                (a[1] >> 7u32) | (a[1] << 25u32),
                (a[2] >> 7u32) | (a[2] << 25u32),
                (a[3] >> 7u32) | (a[3] << 25u32),
            ],
        }
    }
}

// ---------------------------------------------------------------------------
// The compression function on four lanes
// ---------------------------------------------------------------------------

/// The quarter-round `G` in each lane.
pub fn g(state: &mut [V; 16], a: usize, b: usize, c: usize, d: usize, x: V, y: V)
    requires
        a < 16,
        b < 16,
        c < 16,
        d < 16,
        a != b && a != c && a != d && b != c && b != d && c != d,
    ensures
        forall|l: int|
            0 <= l < 4 ==> #[trigger] lane(final(state)@, l) == g_spec(
                lane(old(state)@, l),
                a as int,
                b as int,
                c as int,
                d as int,
                x.lanes@[l],
                y.lanes@[l],
            ),
{
    let mut va = state[a];
    let mut vb = state[b];
    let mut vc = state[c];
    let mut vd = state[d];
    let ghost (a0, b0, c0, d0) = (va, vb, vc, vd);

    va = va.wrapping_add(vb).wrapping_add(x);
    let ghost va1 = va;
    vd = vd.xor(va).rotate_right_16();
    let ghost vd1 = vd;
    vc = vc.wrapping_add(vd);
    let ghost vc1 = vc;
    vb = vb.xor(vc).rotate_right_12();
    let ghost vb1 = vb;
    va = va.wrapping_add(vb).wrapping_add(y);
    vd = vd.xor(va).rotate_right_8();
    vc = vc.wrapping_add(vd);
    vb = vb.xor(vc).rotate_right_7();

    state[a] = va;
    state[b] = vb;
    state[c] = vc;
    state[d] = vd;
    proof {
        assert forall|l: int| 0 <= l < 4 implies #[trigger] lane(state@, l) == g_spec(
            lane(old(state)@, l),
            a as int,
            b as int,
            c as int,
            d as int,
            x.lanes@[l],
            y.lanes@[l],
        ) by {
            let s = lane(old(state)@, l);
            assert(s[a as int] == a0.lanes@[l]);
            assert(s[b as int] == b0.lanes@[l]);
            assert(s[c as int] == c0.lanes@[l]);
            assert(s[d as int] == d0.lanes@[l]);
            assert(va1.lanes@[l] == s[a as int].wrapping_add(s[b as int]).wrapping_add(x.lanes@[l]));
            assert(vd1.lanes@[l] == rotr16(s[d as int] ^ va1.lanes@[l]));
            assert(vc1.lanes@[l] == s[c as int].wrapping_add(vd1.lanes@[l]));
            assert(vb1.lanes@[l] == rotr12(s[b as int] ^ vc1.lanes@[l]));
            assert(lane(state@, l) =~= g_spec(s, a as int, b as int, c as int, d as int, x.lanes@[l], y.lanes@[l]));
        }
    }
}

/// One round in each lane: `G` on the columns, then on the diagonals.
pub fn round(state: &mut [V; 16], message: &[V; 16], schedule: &[usize; 16])
    requires
        forall|k: int| 0 <= k < 16 ==> #[trigger] schedule@[k] < 16,
    ensures
        forall|l: int|
            0 <= l < 4 ==> #[trigger] lane(final(state)@, l) == round_spec(
                lane(old(state)@, l),
                lane(message@, l),
                schedule@,
            ),
{
    let ghost m = message@;
    proof {
        assert forall|k: int, l: int| 0 <= k < 16 && 0 <= l < 4 implies #[trigger] lane(m, l)[schedule@[k] as int]
            == message@[schedule@[k] as int].lanes@[l] by {}
    }
    g(state, 0, 4, 8, 12, message[schedule[0]], message[schedule[1]]);
    g(state, 1, 5, 9, 13, message[schedule[2]], message[schedule[3]]);
    g(state, 2, 6, 10, 14, message[schedule[4]], message[schedule[5]]);
    g(state, 3, 7, 11, 15, message[schedule[6]], message[schedule[7]]);
    g(state, 0, 5, 10, 15, message[schedule[8]], message[schedule[9]]);
    g(state, 1, 6, 11, 12, message[schedule[10]], message[schedule[11]]);
    g(state, 2, 7, 8, 13, message[schedule[12]], message[schedule[13]]);
    g(state, 3, 4, 9, 14, message[schedule[14]], message[schedule[15]]);
}

/// The message permutation of round `r`.
fn schedule(r: usize) -> (s: [usize; 16])
    requires
        r < 7,
    ensures
        s@ == schedule_spec(r as int),
        forall|k: int| 0 <= k < 16 ==> #[trigger] s@[k] < 16,
{
    let s = if r == 0 {
        [0usize, 1, 2, 3, 4, 5, 6, 7, 8, 9, 10, 11, 12, 13, 14, 15]
    } else if r == 1 {
        [2usize, 6, 3, 10, 7, 0, 4, 13, 1, 11, 12, 5, 9, 14, 15, 8]
    } else if r == 2 {
        [3usize, 4, 10, 12, 13, 2, 7, 14, 6, 5, 9, 0, 11, 15, 8, 1]
    } else if r == 3 {
        [10usize, 7, 12, 9, 14, 3, 13, 15, 4, 0, 11, 2, 5, 8, 1, 6]
    } else if r == 4 {
        [12usize, 13, 9, 11, 15, 10, 14, 8, 7, 2, 5, 3, 0, 1, 6, 4]
    } else if r == 5 {
        [9usize, 14, 11, 5, 8, 12, 15, 1, 13, 3, 0, 10, 2, 6, 4, 7]
    } else {
        [11usize, 15, 5, 0, 1, 9, 8, 6, 14, 10, 2, 12, 3, 4, 7, 13]
    };
    assert(s@ =~= schedule_spec(r as int));
    s
}

/// The sixteen little-endian message words of four 64-byte blocks, lane by
/// lane.
pub fn words4(blocks: &[[u8; 64]; SIMD_LANES]) -> (r: [V; 16])
    ensures
        forall|l: int| 0 <= l < 4 ==> #[trigger] lane(r@, l) == le_words(blocks@[l]@, 16),
{
    let mut out = [V::splat(0); 16];
    for w in 0..16
        invariant
            forall|k: int, l: int| 0 <= k < w && 0 <= l < 4 ==> #[trigger] out@[k].lanes@[l] == u32_at(blocks@[l]@, 4 * k),
    {
        let offset = 4 * w;
        let lanes = [
            read_u32(blocks[0].as_slice(), offset),
            read_u32(blocks[1].as_slice(), offset),
            read_u32(blocks[2].as_slice(), offset),
            read_u32(blocks[3].as_slice(), offset),
        ];
        out[w] = V::from_lanes(lanes);
    }
    proof {
        assert forall|l: int| 0 <= l < 4 implies #[trigger] lane(out@, l) == le_words(blocks@[l]@, 16) by {
            assert(lane(out@, l) =~= le_words(blocks@[l]@, 16));
        }
    }
    out
}

/// Compresses one block in each lane into the lane's chaining value, with
/// counter zero.
pub fn compress4(chaining_values: &mut [V; 8], blocks: &[[u8; 64]; SIMD_LANES], block_len: u32, flags: u8)
    ensures
        forall|l: int|
            0 <= l < 4 ==> #[trigger] lane(final(chaining_values)@, l) == compress_spec(
                lane(old(chaining_values)@, l),
                le_words(blocks@[l]@, 16),
                block_len,
                flags as u32,
            ),
{
    let message = words4(blocks);
    let cv = *chaining_values;
    let mut state = [
        cv[0],
        cv[1],
        cv[2],
        cv[3],
        cv[4],
        cv[5],
        cv[6],
        cv[7],
        V::splat(0x6A09_E667),
        V::splat(0xBB67_AE85),
        V::splat(0x3C6E_F372),
        V::splat(0xA54F_F53A),
        V::splat(0),
        V::splat(0),
        V::splat(block_len),
        V::splat(flags as u32),
    ];
    proof {
        assert forall|l: int| 0 <= l < 4 implies #[trigger] lane(state@, l) == initial_state(
            lane(cv@, l),
            block_len,
            flags as u32,
        ) by {
            assert(lane(state@, l) =~= initial_state(lane(cv@, l), block_len, flags as u32));
        }
    }
    let ghost init = state@;
    for r in 0..7
        invariant
            forall|l: int|
                0 <= l < 4 ==> #[trigger] lane(state@, l) == rounds_spec(
                    lane(init, l),
                    lane(message@, l),
                    r as nat,
                ),
    {
        let sch = schedule(r);
        round(&mut state, &message, &sch);
    }
    let ghost fin = state@;
    for i in 0..8
        invariant
            state@ == fin,
            forall|k: int, l: int|
                0 <= k < i && 0 <= l < 4 ==> #[trigger] chaining_values@[k].lanes@[l] == fin[k].lanes@[l]
                    ^ fin[k + 8].lanes@[l],
    {
        let v = state[i].xor(state[i + 8]);
        chaining_values[i] = v;
    }
    proof {
        assert forall|l: int| 0 <= l < 4 implies #[trigger] lane(chaining_values@, l) == compress_spec(
            lane(cv@, l),
            le_words(blocks@[l]@, 16),
            block_len,
            flags as u32,
        ) by {
            let s = rounds_spec(lane(init, l), lane(message@, l), 7);
            assert(lane(fin, l) == s);
            assert(lane(chaining_values@, l) =~= Seq::new(8, |i: int| s[i] ^ s[i + 8]));
        }
    }
}

/// `src[lo..hi]` followed by zeros, as one 64-byte block.
fn pad_block(src: &[u8], lo: usize, hi: usize) -> (r: [u8; 64])
    requires
        lo <= hi <= src@.len(),
        hi - lo <= 64,
    ensures
        r@ == padded_block(src@.subrange(lo as int, hi as int)),
{
    let mut block = [0u8; 64];
    let n = hi - lo;
    for j in 0..n
        invariant
            n == hi - lo,
            lo <= hi <= src@.len(),
            n <= 64,
            block@.len() == 64,
            forall|k: int| 0 <= k < j ==> block@[k] == src@[lo + k],
            forall|k: int| n <= k < 64 ==> block@[k] == 0,
    {
        block[j] = src[lo + j];
    }
    assert(block@ =~= padded_block(src@.subrange(lo as int, hi as int)));
    block
}

/// The eight little-endian words of a 32-byte key, the same in every lane.
fn key_words4(key: &[u8; HASH_LENGTH]) -> (r: [V; 8])
    ensures
        forall|l: int| 0 <= l < 4 ==> #[trigger] lane(r@, l) == le_words(key@, 8),
{
    let mut out = [V::splat(0); 8];
    for w in 0..8
        invariant
            forall|k: int, l: int| 0 <= k < w && 0 <= l < 4 ==> #[trigger] out@[k].lanes@[l] == u32_at(key@, 4 * k),
    {
        let word = read_u32(key.as_slice(), 4 * w);
        out[w] = V::splat(word);
    }
    proof {
        assert forall|l: int| 0 <= l < 4 implies #[trigger] lane(out@, l) == le_words(key@, 8) by {
            assert(lane(out@, l) =~= le_words(key@, 8));
        }
    }
    out
}

/// The 32 output bytes of each lane's chaining value.
fn output4(cv: &[V; 8]) -> (r: [[u8; HASH_LENGTH]; SIMD_LANES])
    ensures
        forall|l: int| 0 <= l < 4 ==> (#[trigger] r@[l])@ == words_le_bytes(lane(cv@, l)),
{
    let mut outputs = [[0u8; HASH_LENGTH]; SIMD_LANES];
    for l in 0..4
        invariant
            forall|k: int| 0 <= k < l ==> (#[trigger] outputs@[k])@ == words_le_bytes(lane(cv@, k)),
    {
        let mut output = [0u8; HASH_LENGTH];
        for word in 0..8
            invariant
                l < 4,
                output@.len() == 32,
                forall|i: int| 0 <= i < 4 * word ==> output@[i] == words_le_bytes(lane(cv@, l as int))[i],
        {
            let bytes = vstd::bytes::u32_to_le_bytes(cv[word].lanes[l]);
            output[4 * word] = bytes[0];
            output[4 * word + 1] = bytes[1];
            output[4 * word + 2] = bytes[2];
            output[4 * word + 3] = bytes[3];
            proof {
                let w = lane(cv@, l as int);
                assert forall|i: int| 0 <= i < 4 * (word + 1) implies output@[i] == words_le_bytes(w)[i] by {
                    if i >= 4 * word {
                        assert(i / 4 == word);
                        assert(w[word as int] == cv@[word as int].lanes@[l as int]);
                    }
                }
            }
        }
        assert(output@ =~= words_le_bytes(lane(cv@, l as int)));
        outputs[l] = output;
    }
    outputs
}

/// Hashes four 70-byte inputs in derive-key-material mode from a context
/// key, lane by lane: two blocks of one chunk each.
pub fn hash_derive_key_material_70(
    context_key: &[u8; HASH_LENGTH],
    inputs: &[[u8; 70]; SIMD_LANES],
) -> (r: [[u8; HASH_LENGTH]; SIMD_LANES])
    ensures
        forall|l: int|
            0 <= l < 4 ==> (#[trigger] r@[l])@ == derive_key_material_70_spec(context_key@, inputs@[l]@),
{
    let mut chaining_values = key_words4(context_key);
    let ghost cv0 = chaining_values@;
    let first_blocks = [
        pad_block(inputs[0].as_slice(), 0, 64),
        pad_block(inputs[1].as_slice(), 0, 64),
        pad_block(inputs[2].as_slice(), 0, 64),
        pad_block(inputs[3].as_slice(), 0, 64),
    ];
    proof {
        assert forall|l: int| 0 <= l < 4 implies #[trigger] first_blocks@[l]@ == inputs@[l]@.subrange(0, 64) by {
            assert(padded_block(inputs@[l]@.subrange(0, 64)) =~= inputs@[l]@.subrange(0, 64));
        }
    }
    compress4(&mut chaining_values, &first_blocks, 64, 65);
    let ghost cv1 = chaining_values@;
    let last_blocks = [
        pad_block(inputs[0].as_slice(), 64, 70),
        pad_block(inputs[1].as_slice(), 64, 70),
        pad_block(inputs[2].as_slice(), 64, 70),
        pad_block(inputs[3].as_slice(), 64, 70),
    ];
    proof {
        assert(forall|l: int| 0 <= l < 4 ==> #[trigger] last_blocks@[l]@ == padded_block(inputs@[l]@.subrange(64, 70)));
    }
    compress4(&mut chaining_values, &last_blocks, 6, 74);
    output4(&chaining_values)
}

/// Keyed hashes of four inputs of at most one block, lane by lane: each
/// input is the single, root block of its chunk.
pub fn keyed_hash<const INPUT_LEN: usize>(
    key: &[u8; HASH_LENGTH],
    inputs: &[[u8; INPUT_LEN]; SIMD_LANES],
) -> (r: [[u8; HASH_LENGTH]; SIMD_LANES])
    requires
        INPUT_LEN <= 64,
    ensures
        forall|l: int| 0 <= l < 4 ==> (#[trigger] r@[l])@ == keyed_hash_block_spec(key@, inputs@[l]@),
{
    let mut chaining_values = key_words4(key);
    let blocks = [
        pad_block(inputs[0].as_slice(), 0, INPUT_LEN),
        pad_block(inputs[1].as_slice(), 0, INPUT_LEN),
        pad_block(inputs[2].as_slice(), 0, INPUT_LEN),
        pad_block(inputs[3].as_slice(), 0, INPUT_LEN),
    ];
    proof {
        assert forall|l: int| 0 <= l < 4 implies #[trigger] blocks@[l]@ == padded_block(inputs@[l]@) by {
            assert(inputs@[l]@.subrange(0, INPUT_LEN as int) =~= inputs@[l]@);
        }
    }
    compress4(&mut chaining_values, &blocks, INPUT_LEN as u32, 27);
    output4(&chaining_values)
}

} // verus!
