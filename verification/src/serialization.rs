//! The canonical SSZ byte format of the library's values, and the building
//! blocks that the codecs of the key, signature and tree types share.

use vstd::prelude::*;
use vstd::bytes::*;
use crate::HASH_LENGTH;
use crate::symmetric::tweak_hash::domain_views;

verus! {

/// Why a byte string does not decode.
#[derive(Debug, Clone, PartialEq, Eq)]
pub enum DecodeError {
    /// A length or a fixed offset differs from what the format fixes.
    InvalidByteLength { len: usize, expected: usize },
    /// Too few bytes for the first offset of a variable-size list.
    InvalidLengthPrefix { len: usize, expected: usize },
    /// The first offset of a variable-size list is no whole, non-zero
    /// number of offsets.
    InvalidListFixedBytesLen(usize),
    /// An offset points into the offset table.
    OffsetIntoFixedPortion(usize),
    /// An offset points past the end of the bytes.
    OffsetOutOfBounds(usize),
    /// An offset is smaller than the one before it.
    OffsetsAreDecreasing(usize),
    /// The bytes break a rule of the decoded value.
    BytesInvalid(String),
}

/// Values with a canonical SSZ encoding.
pub trait Serializable: Sized {
    /// The canonical SSZ bytes of the value.
    spec fn spec_ssz(&self) -> Seq<u8>;

    /// The value can be written: its offsets fit in 32 bits and its length
    /// in `usize`.
    spec fn spec_encodable(&self) -> bool;

    /// The rules that the decoder checks beyond the byte layout.
    spec fn spec_valid(&self) -> bool;

    /// Whether every value of the type has an encoding of the same length.
    fn is_ssz_fixed_len() -> (r: bool)
        ensures
            r ==> forall|a: Self, b: Self| #[trigger] a.spec_ssz().len() == #[trigger] b.spec_ssz().len(),
    ;

    /// The number of bytes of the encoding.
    fn ssz_bytes_len(&self) -> (r: usize)
        requires
            self.spec_encodable(),
        ensures
            r == self.spec_ssz().len(),
    ;

    /// Appends the encoding to `buf`.
    fn ssz_append(&self, buf: &mut Vec<u8>)
        requires
            self.spec_encodable(),
        ensures
            final(buf)@ == old(buf)@ + self.spec_ssz(),
    ;

    /// The encoding.
    fn as_ssz_bytes(&self) -> (r: Vec<u8>)
        requires
            self.spec_encodable(),
        ensures
            r@ == self.spec_ssz(),
    {
        let mut buf: Vec<u8> = Vec::new();
        self.ssz_append(&mut buf);
        proof {
            assert(buf@ =~= self.spec_ssz());
        }
        buf
    }

    /// Decodes `bytes`: a value exactly when the bytes are the encoding of an
    /// acceptable value, and then that value.
    fn from_ssz_bytes(bytes: &[u8]) -> (r: Result<Self, DecodeError>)
        ensures
            r matches Ok(x) ==> x.spec_ssz() == bytes@ && x.spec_encodable() && x.spec_valid(),
            r is Ok <==> exists|x: Self| x.spec_ssz() == bytes@ && x.spec_encodable() && x.spec_valid(),
    ;

    /// Encodes this value as SSZ.
    fn to_bytes(&self) -> (r: Vec<u8>)
        requires
            self.spec_encodable(),
        ensures
            r@ == self.spec_ssz(),
    {
        self.as_ssz_bytes()
    }

    /// Decodes an SSZ value.
    fn from_bytes(bytes: &[u8]) -> (r: Result<Self, DecodeError>)
        ensures
            r matches Ok(x) ==> x.spec_ssz() == bytes@ && x.spec_encodable() && x.spec_valid(),
            r is Ok <==> exists|x: Self| x.spec_ssz() == bytes@ && x.spec_encodable() && x.spec_valid(),
    {
        Self::from_ssz_bytes(bytes)
    }
}

impl Serializable for [u8; HASH_LENGTH] {
    open spec fn spec_ssz(&self) -> Seq<u8> {
        self@
    }

    open spec fn spec_encodable(&self) -> bool {
        true
    }

    open spec fn spec_valid(&self) -> bool {
        true
    }

    fn is_ssz_fixed_len() -> (r: bool)
        ensures
            r,
            forall|a: Self| #[trigger] a.spec_ssz().len() == HASH_LENGTH,
    {
        true
    }

    fn ssz_bytes_len(&self) -> (r: usize) {
        HASH_LENGTH
    }

    fn ssz_append(&self, buf: &mut Vec<u8>) {
        crate::primitives::push_bytes(buf, self.as_slice());
    }

    fn from_ssz_bytes(bytes: &[u8]) -> (r: Result<Self, DecodeError>)
        ensures
            bytes@.len() != 32 ==> r == Err::<Self, DecodeError>(
                DecodeError::InvalidByteLength { len: bytes@.len() as usize, expected: 32 },
            ),
    {
        if bytes.len() != HASH_LENGTH {
            return Err(DecodeError::InvalidByteLength { len: bytes.len(), expected: HASH_LENGTH });
        }
        let d = read_domain(bytes, 0);
        assert(bytes@.subrange(0, 32) =~= bytes@);
        assert(d.spec_ssz() == bytes@ && d.spec_encodable() && d.spec_valid());
        Ok(d)
    }
}

/// The byte strings of `s`, one after the other.
pub open spec fn concat_all(s: Seq<Seq<u8>>) -> Seq<u8>
    decreases s.len(),
{
    if s.len() == 0 {
        Seq::empty()
    } else {
        concat_all(s.drop_last()) + s.last()
    }
}

/// Items of at most `m` bytes concatenate to at most `m` bytes each.
pub proof fn lemma_concat_len_bound(s: Seq<Seq<u8>>, m: nat)
    requires
        forall|i: int| 0 <= i < s.len() ==> (#[trigger] s[i]).len() <= m,
    ensures
        concat_all(s).len() <= s.len() * m,
    decreases s.len(),
{
    if s.len() > 0 {
        let t = s.drop_last();
        assert forall|i: int| 0 <= i < t.len() implies (#[trigger] t[i]).len() <= m by {
            assert(t[i] == s[i]);
        }
        lemma_concat_len_bound(t, m);
        assert(s.last().len() <= m);
        assert(t.len() * m + m == s.len() * m) by (nonlinear_arith)
            requires
                t.len() + 1 == s.len(),
        ;
    }
}

/// Where item `i` of `s` begins in `concat_all(s)`.
pub open spec fn prefix_len(s: Seq<Seq<u8>>, i: int) -> int {
    concat_all(s.take(i)).len() as int
}

/// The bytes of a list of 32-byte values.
pub open spec fn domains_bytes(s: Seq<[u8; HASH_LENGTH]>) -> Seq<u8> {
    concat_all(domain_views(s))
}

/// The bytes of a list of `u32` values, each little-endian.
pub open spec fn u32s_bytes(s: Seq<u32>) -> Seq<u8> {
    concat_all(s.map_values(|x: u32| spec_u32_to_le_bytes(x)))
}

/// Appending an item appends its bytes.
pub proof fn lemma_concat_push(s: Seq<Seq<u8>>, x: Seq<u8>)
    ensures
        concat_all(s.push(x)) == concat_all(s) + x,
{
    assert(s.push(x).drop_last() =~= s);
}

/// The bytes of items that all have `k` bytes: `k` per item, item `i` at
/// `k * i`.
pub proof fn lemma_concat_fixed(s: Seq<Seq<u8>>, k: int)
    requires
        k >= 0,
        forall|i: int| 0 <= i < s.len() ==> (#[trigger] s[i]).len() == k,
    ensures
        concat_all(s).len() == k * s.len(),
        forall|i: int|
            0 <= i < s.len() ==> #[trigger] concat_all(s).subrange(k * i, k * i + k) == s[i],
    decreases s.len(),
{
    if s.len() > 0 {
        let t = s.drop_last();
        lemma_concat_fixed(t, k);
        let n = s.len() - 1;
        assert(k * n + k == k * s.len()) by (nonlinear_arith)
            requires
                n == s.len() - 1,
        ;
        assert forall|i: int| 0 <= i < s.len() implies #[trigger] concat_all(s).subrange(k * i, k * i + k) == s[i] by {
            if i < n {
                assert(k * i + k <= k * n) by (nonlinear_arith)
                    requires
                        i < n,
                        k >= 0,
                ;
                assert(0 <= k * i) by (nonlinear_arith)
                    requires
                        i >= 0,
                        k >= 0,
                ;
                assert(concat_all(s).subrange(k * i, k * i + k) =~= concat_all(t).subrange(k * i, k * i + k));
                assert(t[i] == s[i]);
            } else {
                assert(concat_all(s).subrange(k * i, k * i + k) =~= s.last());
            }
        }
    }
}

/// The bytes of a list of 32-byte values: 32 per value.
pub proof fn lemma_domains_bytes(s: Seq<[u8; HASH_LENGTH]>)
    ensures
        domains_bytes(s).len() == 32 * s.len(),
        forall|i: int| 0 <= i < s.len() ==> #[trigger] domains_bytes(s).subrange(32 * i, 32 * i + 32) == s[i]@,
{
    let d = domain_views(s);
    assert forall|i: int| 0 <= i < d.len() implies (#[trigger] d[i]).len() == 32 by {}
    lemma_concat_fixed(d, 32);
    assert forall|i: int| 0 <= i < s.len() implies #[trigger] domains_bytes(s).subrange(32 * i, 32 * i + 32) == s[i]@ by {
        assert(d[i] == s[i]@);
    }
}

/// The bytes of a list of `u32` values: 4 per value.
pub proof fn lemma_u32s_bytes(s: Seq<u32>)
    ensures
        u32s_bytes(s).len() == 4 * s.len(),
        forall|i: int|
            0 <= i < s.len() ==> #[trigger] u32s_bytes(s).subrange(4 * i, 4 * i + 4) == spec_u32_to_le_bytes(s[i]),
{
    let d = s.map_values(|x: u32| spec_u32_to_le_bytes(x));
    lemma_auto_spec_u32_to_from_le_bytes();
    assert forall|i: int| 0 <= i < d.len() implies (#[trigger] d[i]).len() == 4 by {
        assert(d[i] == spec_u32_to_le_bytes(s[i]));
    }
    lemma_concat_fixed(d, 4);
    assert forall|i: int|
        0 <= i < s.len() implies #[trigger] u32s_bytes(s).subrange(4 * i, 4 * i + 4) == spec_u32_to_le_bytes(s[i]) by {
        assert(d[i] == spec_u32_to_le_bytes(s[i]));
    }
}

/// The `u32` stored little-endian at `pos`.
pub open spec fn u32_at(b: Seq<u8>, pos: int) -> u32 {
    spec_u32_from_le_bytes(b.subrange(pos, pos + 4))
}

/// The `u64` stored little-endian at `pos`.
pub open spec fn u64_at(b: Seq<u8>, pos: int) -> u64 {
    spec_u64_from_le_bytes(b.subrange(pos, pos + 8))
}

/// Reads the little-endian `u32` at `pos`.
pub fn read_u32(bytes: &[u8], pos: usize) -> (r: u32)
    requires
        pos + 4 <= bytes@.len(),
    ensures
        r == u32_at(bytes@, pos as int),
{
    let _n = bytes.len();
    u32_from_le_bytes(vstd::slice::slice_subrange(bytes, pos, pos + 4))
}

/// Reads the little-endian `u64` at `pos`.
pub fn read_u64(bytes: &[u8], pos: usize) -> (r: u64)
    requires
        pos + 8 <= bytes@.len(),
    ensures
        r == u64_at(bytes@, pos as int),
{
    let _n = bytes.len();
    u64_from_le_bytes(vstd::slice::slice_subrange(bytes, pos, pos + 8))
}

/// Reads the 32 bytes at `pos`.
pub fn read_domain(bytes: &[u8], pos: usize) -> (r: [u8; HASH_LENGTH])
    requires
        pos + 32 <= bytes@.len(),
    ensures
        r@ == bytes@.subrange(pos as int, pos + 32),
{
    let n = bytes.len();
    let mut out = [0u8; HASH_LENGTH];
    for j in 0..32
        invariant
            n == bytes@.len(),
            pos + 32 <= bytes@.len(),
            out@.len() == 32,
            forall|k: int| 0 <= k < j ==> out@[k] == bytes@[pos + k],
    {
        out[j] = bytes[pos + j];
    }
    assert(out@ =~= bytes@.subrange(pos as int, pos + 32));
    out
}

/// Appends the bytes of a list of 32-byte values.
pub fn append_domains(out: &mut Vec<u8>, v: &[[u8; HASH_LENGTH]])
    ensures
        final(out)@ == old(out)@ + domains_bytes(v@),
{
    let n = v.len();
    for i in 0..n
        invariant
            n == v@.len(),
            out@ == old(out)@ + domains_bytes(v@.take(i as int)),
    {
        proof {
            assert(v@.take(i + 1) =~= v@.take(i as int).push(v@[i as int]));
            assert(domain_views(v@.take(i + 1)) =~= domain_views(v@.take(i as int)).push(v@[i as int]@));
            lemma_concat_push(domain_views(v@.take(i as int)), v@[i as int]@);
        }
        crate::primitives::push_bytes(out, v[i].as_slice());
    }
    assert(v@.take(n as int) =~= v@);
}

/// Appends the little-endian bytes of a list of `u32` values.
pub fn append_u32s(out: &mut Vec<u8>, v: &[u32])
    ensures
        final(out)@ == old(out)@ + u32s_bytes(v@),
{
    let n = v.len();
    for i in 0..n
        invariant
            n == v@.len(),
            out@ == old(out)@ + u32s_bytes(v@.take(i as int)),
    {
        proof {
            let f = |x: u32| spec_u32_to_le_bytes(x);
            assert(v@.take(i + 1) =~= v@.take(i as int).push(v@[i as int]));
            assert(v@.take(i + 1).map_values(f) =~= v@.take(i as int).map_values(f).push(f(v@[i as int])));
            lemma_concat_push(v@.take(i as int).map_values(f), f(v@[i as int]));
        }
        crate::primitives::push_u32_le(out, v[i]);
    }
    assert(v@.take(n as int) =~= v@);
}

/// Decodes `bytes[lo..hi]` as a list of 32-byte values.
pub fn decode_domains(bytes: &[u8], lo: usize, hi: usize) -> (r: Result<Vec<[u8; HASH_LENGTH]>, DecodeError>)
    requires
        lo <= hi <= bytes@.len(),
    ensures
        r is Ok <==> (hi - lo) % 32 == 0,
        r matches Ok(v) ==> domains_bytes(v@) == bytes@.subrange(lo as int, hi as int),
        r is Err ==> r == Err::<Vec<[u8; HASH_LENGTH]>, DecodeError>(
            DecodeError::InvalidByteLength { len: ((hi - lo) % 32) as usize, expected: 32 },
        ),
{
    let len = hi - lo;
    if len % 32 != 0 {
        return Err(DecodeError::InvalidByteLength { len: len % 32, expected: 32 });
    }
    let n = len / 32;
    let mut v: Vec<[u8; HASH_LENGTH]> = Vec::with_capacity(n);
    let ghost sub = bytes@.subrange(lo as int, hi as int);
    for i in 0..n
        invariant
            n == (hi - lo) / 32,
            (hi - lo) % 32 == 0,
            lo <= hi <= bytes@.len(),
            sub == bytes@.subrange(lo as int, hi as int),
            v@.len() == i,
            forall|k: int| 0 <= k < i ==> (#[trigger] v@[k])@ == sub.subrange(32 * k, 32 * k + 32),
    {
        let d = read_domain(bytes, lo + 32 * i);
        proof {
            assert(d@ =~= sub.subrange(32 * i, 32 * i + 32));
        }
        v.push(d);
    }
    proof {
        lemma_domains_bytes(v@);
        assert(domains_bytes(v@) =~= sub) by {
            assert forall|j: int| 0 <= j < sub.len() implies domains_bytes(v@)[j] == sub[j] by {
                let k = j / 32;
                assert(0 <= k < n);
                assert(32 * k <= j < 32 * k + 32);
                assert(domains_bytes(v@).subrange(32 * k, 32 * k + 32)[j - 32 * k] == domains_bytes(v@)[j]);
                assert(v@[k]@ == sub.subrange(32 * k, 32 * k + 32));
            }
        }
    }
    Ok(v)
}

/// Decodes `bytes[lo..hi]` as a list of little-endian `u32` values.
pub fn decode_u32s(bytes: &[u8], lo: usize, hi: usize) -> (r: Result<Vec<u32>, DecodeError>)
    requires
        lo <= hi <= bytes@.len(),
    ensures
        r is Ok <==> (hi - lo) % 4 == 0,
        r matches Ok(v) ==> u32s_bytes(v@) == bytes@.subrange(lo as int, hi as int),
        r is Err ==> r == Err::<Vec<u32>, DecodeError>(
            DecodeError::InvalidByteLength { len: ((hi - lo) % 4) as usize, expected: 4 },
        ),
{
    let len = hi - lo;
    if len % 4 != 0 {
        return Err(DecodeError::InvalidByteLength { len: len % 4, expected: 4 });
    }
    let n = len / 4;
    let mut v: Vec<u32> = Vec::with_capacity(n);
    let ghost sub = bytes@.subrange(lo as int, hi as int);
    proof {
        lemma_auto_spec_u32_to_from_le_bytes();
    }
    for i in 0..n
        invariant
            n == (hi - lo) / 4,
            (hi - lo) % 4 == 0,
            lo <= hi <= bytes@.len(),
            sub == bytes@.subrange(lo as int, hi as int),
            v@.len() == i,
            forall|k: int| 0 <= k < i ==> spec_u32_to_le_bytes(#[trigger] v@[k]) == sub.subrange(4 * k, 4 * k + 4),
            forall|s: Seq<u8>| s.len() == 4 ==> #[trigger] spec_u32_to_le_bytes(spec_u32_from_le_bytes(s)) == s,
    {
        let x = read_u32(bytes, lo + 4 * i);
        proof {
            assert(bytes@.subrange(lo + 4 * i, lo + 4 * i + 4) =~= sub.subrange(4 * i, 4 * i + 4));
        }
        v.push(x);
    }
    proof {
        lemma_u32s_bytes(v@);
        assert(u32s_bytes(v@) =~= sub) by {
            assert forall|j: int| 0 <= j < sub.len() implies u32s_bytes(v@)[j] == sub[j] by {
                let k = j / 4;
                assert(0 <= k < n);
                assert(4 * k <= j < 4 * k + 4);
                assert(u32s_bytes(v@).subrange(4 * k, 4 * k + 4)[j - 4 * k] == u32s_bytes(v@)[j]);
                assert(spec_u32_to_le_bytes(v@[k]) == sub.subrange(4 * k, 4 * k + 4));
            }
        }
    }
    Ok(v)
}

/// The offset table of a list of variable-size items whose first item
/// begins at `first`: the little-endian `u32` offset of each item.
pub open spec fn offset_table(items: Seq<Seq<u8>>, first: int) -> Seq<u8>
    decreases items.len(),
{
    if items.len() == 0 {
        Seq::empty()
    } else {
        offset_table(items.drop_last(), first) + spec_u32_to_le_bytes(
            (first + concat_all(items.drop_last()).len()) as u32,
        )
    }
}

/// The bytes of a list of variable-size items: the offset table, then the
/// items.
pub open spec fn var_list_bytes(items: Seq<Seq<u8>>) -> Seq<u8> {
    offset_table(items, 4 * items.len() as int) + concat_all(items)
}

/// Every offset of the list fits in 32 bits.
pub open spec fn var_list_fits(items: Seq<Seq<u8>>) -> bool {
    items.len() == 0 || 4 * items.len() + concat_all(items.drop_last()).len() <= u32::MAX
}

/// Item `i` of a concatenation lies between the prefix lengths `i` and `i + 1`,
/// which grow with `i` up to the whole length.
pub proof fn lemma_concat_items(s: Seq<Seq<u8>>)
    ensures
        prefix_len(s, s.len() as int) == concat_all(s).len(),
        forall|i: int, j: int| 0 <= i <= j <= s.len() ==> #[trigger] prefix_len(s, i) <= #[trigger] prefix_len(s, j),
        forall|i: int|
            0 <= i < s.len() ==> #[trigger] concat_all(s).subrange(prefix_len(s, i), prefix_len(s, i + 1)) == s[i],
        forall|i: int| 0 <= i < s.len() ==> #[trigger] prefix_len(s, i + 1) == prefix_len(s, i) + s[i].len(),
    decreases s.len(),
{
    assert(s.take(s.len() as int) =~= s);
    if s.len() > 0 {
        let t = s.drop_last();
        lemma_concat_items(t);
        assert forall|i: int| 0 <= i <= t.len() implies #[trigger] prefix_len(s, i) == prefix_len(t, i) by {
            assert(s.take(i) =~= t.take(i));
        }
        assert forall|i: int| 0 <= i < s.len() implies #[trigger] prefix_len(s, i + 1) == prefix_len(s, i) + s[i].len() by {
            assert(s.take(i + 1).drop_last() =~= s.take(i));
            assert(s.take(i + 1).last() == s[i]);
        }
        assert forall|i: int, j: int| 0 <= i <= j <= s.len() implies #[trigger] prefix_len(s, i) <= #[trigger] prefix_len(s, j) by {
            if j == s.len() {
                assert(prefix_len(s, j) == prefix_len(s, j - 1) + s[j - 1].len());
                if i < j {
                    assert(prefix_len(t, i) <= prefix_len(t, j - 1));
                }
            } else {
                assert(prefix_len(t, i) <= prefix_len(t, j));
            }
        }
        assert forall|i: int|
            0 <= i < s.len() implies #[trigger] concat_all(s).subrange(prefix_len(s, i), prefix_len(s, i + 1)) == s[i] by {
            if i < t.len() {
                assert(prefix_len(t, i + 1) <= prefix_len(t, t.len() as int));
                assert(prefix_len(t, i) <= prefix_len(t, i + 1));
                assert(concat_all(s).subrange(prefix_len(s, i), prefix_len(s, i + 1)) =~= concat_all(t).subrange(
                    prefix_len(t, i),
                    prefix_len(t, i + 1),
                ));
            } else {
                assert(concat_all(s).subrange(prefix_len(s, i), prefix_len(s, i + 1)) =~= s.last());
            }
        }
    }
}

/// The offset table holds, at `4 * i`, the offset of item `i`.
pub proof fn lemma_offset_table(items: Seq<Seq<u8>>, first: int)
    ensures
        offset_table(items, first).len() == 4 * items.len(),
        forall|i: int|
            0 <= i < items.len() ==> #[trigger] offset_table(items, first).subrange(4 * i, 4 * i + 4)
                == spec_u32_to_le_bytes((first + prefix_len(items, i)) as u32),
    decreases items.len(),
{
    lemma_auto_spec_u32_to_from_le_bytes();
    if items.len() > 0 {
        let t = items.drop_last();
        lemma_offset_table(t, first);
        let n = t.len() as int;
        assert(t.take(n) =~= t);
        assert(items.take(n) =~= t);
        assert forall|i: int|
            0 <= i < items.len() implies #[trigger] offset_table(items, first).subrange(4 * i, 4 * i + 4)
                == spec_u32_to_le_bytes((first + prefix_len(items, i)) as u32) by {
            if i < n {
                assert(items.take(i) =~= t.take(i));
                assert(offset_table(items, first).subrange(4 * i, 4 * i + 4) =~= offset_table(t, first).subrange(
                    4 * i,
                    4 * i + 4,
                ));
            } else {
                assert(offset_table(items, first).subrange(4 * i, 4 * i + 4) =~= spec_u32_to_le_bytes(
                    (first + concat_all(t).len()) as u32,
                ));
            }
        }
    }
}

/// The layout of a list of variable-size items whose offsets fit: the offset
/// of item `i` at `4 * i`, and item `i` between its offset and the next one
/// (the end of the bytes for the last item).
pub proof fn lemma_var_list_layout(items: Seq<Seq<u8>>)
    requires
        var_list_fits(items),
    ensures
        var_list_bytes(items).len() == 4 * items.len() + concat_all(items).len(),
        forall|i: int|
            0 <= i < items.len() ==> #[trigger] u32_at(var_list_bytes(items), 4 * i) == 4 * items.len()
                + prefix_len(items, i),
        forall|i: int|
            0 <= i < items.len() ==> #[trigger] var_list_bytes(items).subrange(
                4 * items.len() + prefix_len(items, i),
                4 * items.len() + prefix_len(items, i + 1),
            ) == items[i],
        forall|i: int| 0 <= i <= items.len() ==> 0 <= #[trigger] prefix_len(items, i) <= concat_all(items).len(),
        forall|i: int, j: int|
            0 <= i <= j <= items.len() ==> #[trigger] prefix_len(items, i) <= #[trigger] prefix_len(items, j),
        forall|i: int| 0 <= i < items.len() ==> 4 * items.len() + #[trigger] prefix_len(items, i) <= u32::MAX,
        prefix_len(items, items.len() as int) == concat_all(items).len(),
{
    let n = items.len() as int;
    let b = var_list_bytes(items);
    lemma_offset_table(items, 4 * n);
    lemma_concat_items(items);
    lemma_auto_spec_u32_to_from_le_bytes();
    assert forall|i: int| 0 <= i <= items.len() implies 0 <= #[trigger] prefix_len(items, i) <= concat_all(items).len() by {
        assert(prefix_len(items, i) <= prefix_len(items, n));
    }
    assert forall|i: int| 0 <= i < items.len() implies 4 * items.len() + #[trigger] prefix_len(items, i) <= u32::MAX by {
        assert(items.take(n - 1) =~= items.drop_last());
        assert(prefix_len(items, i) <= prefix_len(items, n - 1));
    }
    assert forall|i: int| 0 <= i < items.len() implies #[trigger] u32_at(b, 4 * i) == 4 * items.len() + prefix_len(items, i) by {
        assert(b.subrange(4 * i, 4 * i + 4) =~= offset_table(items, 4 * n).subrange(4 * i, 4 * i + 4));
    }
    assert forall|i: int|
        0 <= i < items.len() implies #[trigger] b.subrange(
            4 * items.len() + prefix_len(items, i),
            4 * items.len() + prefix_len(items, i + 1),
        ) == items[i] by {
        assert(prefix_len(items, i + 1) <= prefix_len(items, n));
        assert(b.subrange(4 * n + prefix_len(items, i), 4 * n + prefix_len(items, i + 1)) =~= concat_all(items).subrange(
            prefix_len(items, i),
            prefix_len(items, i + 1),
        ));
    }
}

/// Bytes whose offset table holds `n` growing offsets, the first `4 * n`,
/// are the list of the slices that the offsets cut out, the last running to
/// the end of the bytes.
pub proof fn lemma_var_list_from_offsets(b: Seq<u8>, offs: Seq<int>, items: Seq<Seq<u8>>)
    requires
        offs.len() >= 1,
        items.len() == offs.len(),
        offs[0] == 4 * offs.len(),
        forall|i: int| 0 <= i < offs.len() ==> #[trigger] offs[i] <= u32::MAX,
        forall|i: int| 0 <= i < offs.len() - 1 ==> #[trigger] offs[i] <= offs[i + 1],
        offs.last() <= b.len(),
        forall|i: int| 0 <= i < offs.len() ==> #[trigger] u32_at(b, 4 * i) == offs[i],
        forall|i: int| 0 <= i < offs.len() - 1 ==> #[trigger] items[i] == b.subrange(offs[i], offs[i + 1]),
        items.last() == b.subrange(offs.last(), b.len() as int),
    ensures
        var_list_bytes(items) == b,
        var_list_fits(items),
{
    let n = offs.len() as int;
    lemma_offsets_grow(offs, 0, n - 1);
    lemma_items_from_offsets(b, offs, items);
    lemma_table_from_offsets(b, offs, items);
    assert(items.len() == n);
    assert(b =~= b.subrange(0, 4 * n) + b.subrange(4 * n, b.len() as int));
    assert(var_list_bytes(items) == offset_table(items, 4 * n) + concat_all(items));
    assert(items.take(n - 1) =~= items.drop_last());
    assert(prefix_len(items, n - 1) == offs[n - 1] - 4 * n);
    assert(offs[n - 1] <= u32::MAX);
}

/// The slices cut out by growing offsets join up to the bytes after the
/// offset table, and item `i` begins `offs[i]` bytes in.
proof fn lemma_items_from_offsets(b: Seq<u8>, offs: Seq<int>, items: Seq<Seq<u8>>)
    requires
        offs.len() >= 1,
        items.len() == offs.len(),
        offs[0] == 4 * offs.len(),
        forall|i: int| 0 <= i < offs.len() - 1 ==> #[trigger] offs[i] <= offs[i + 1],
        offs.last() <= b.len(),
        forall|i: int| 0 <= i < offs.len() - 1 ==> #[trigger] items[i] == b.subrange(offs[i], offs[i + 1]),
        items.last() == b.subrange(offs.last(), b.len() as int),
    ensures
        concat_all(items) == b.subrange(4 * offs.len() as int, b.len() as int),
        forall|i: int| 0 <= i < offs.len() ==> #[trigger] prefix_len(items, i) == offs[i] - 4 * offs.len(),
{
    let n = offs.len() as int;
    assert forall|k: int| 0 <= k < n implies 4 * n <= #[trigger] offs[k] <= b.len() by {
        lemma_offsets_grow(offs, 0, k);
        lemma_offsets_grow(offs, k, n - 1);
    }
    assert forall|k: int| 0 <= k < n implies #[trigger] concat_all(items.take(k)) == b.subrange(4 * n, offs[k]) by {
        lemma_concat_take(b, offs, items, k);
    }
    assert(concat_all(items.take(n - 1)) == b.subrange(4 * n, offs[n - 1]));
    assert(items.take(n) =~= items.take(n - 1).push(items[n - 1]));
    lemma_concat_push(items.take(n - 1), items[n - 1]);
    assert(items.take(n) =~= items);
    assert(concat_all(items) =~= b.subrange(4 * n, b.len() as int));
    assert forall|i: int| 0 <= i < n implies #[trigger] prefix_len(items, i) == offs[i] - 4 * n by {
        assert(concat_all(items.take(i)) == b.subrange(4 * n, offs[i]));
    }
}

/// The offset table of the slices cut out by the offsets is the first
/// `4 * n` bytes.
proof fn lemma_table_from_offsets(b: Seq<u8>, offs: Seq<int>, items: Seq<Seq<u8>>)
    requires
        offs.len() >= 1,
        items.len() == offs.len(),
        4 * offs.len() <= b.len(),
        forall|i: int| 0 <= i < offs.len() ==> #[trigger] u32_at(b, 4 * i) == offs[i],
        forall|i: int| 0 <= i < offs.len() ==> #[trigger] prefix_len(items, i) == offs[i] - 4 * offs.len(),
    ensures
        offset_table(items, 4 * offs.len() as int) == b.subrange(0, 4 * offs.len() as int),
{
    let n = offs.len() as int;
    let t = offset_table(items, 4 * n);
    lemma_offset_table(items, 4 * n);
    lemma_auto_spec_u32_to_from_le_bytes();
    assert forall|j: int| 0 <= j < 4 * n implies t[j] == b[j] by {
        let i = j / 4;
        assert(0 <= i < n);
        assert(t.subrange(4 * i, 4 * i + 4) == spec_u32_to_le_bytes((4 * n + prefix_len(items, i)) as u32));
        assert(u32_at(b, 4 * i) == offs[i]);
        assert(b.subrange(4 * i, 4 * i + 4).len() == 4);
        assert(spec_u32_to_le_bytes(spec_u32_from_le_bytes(b.subrange(4 * i, 4 * i + 4))) == b.subrange(4 * i, 4 * i + 4));
        assert(t.subrange(4 * i, 4 * i + 4)[j - 4 * i] == t[j]);
        assert(b.subrange(4 * i, 4 * i + 4)[j - 4 * i] == b[j]);
    }
    assert(t =~= b.subrange(0, 4 * n));
}

/// Offsets that grow step by step grow over any distance.
proof fn lemma_offsets_grow(offs: Seq<int>, i: int, j: int)
    requires
        0 <= i <= j < offs.len(),
        forall|k: int| 0 <= k < offs.len() - 1 ==> #[trigger] offs[k] <= offs[k + 1],
    ensures
        offs[i] <= offs[j],
    decreases j - i,
{
    if i < j {
        lemma_offsets_grow(offs, i, j - 1);
        assert(offs[j - 1] <= offs[j]);
    }
}

/// The first `k` slices cut out by growing offsets join up to the bytes from
/// the first offset to offset `k`.
proof fn lemma_concat_take(b: Seq<u8>, offs: Seq<int>, items: Seq<Seq<u8>>, k: int)
    requires
        0 <= k < offs.len(),
        items.len() == offs.len(),
        forall|k: int| 0 <= k < offs.len() ==> 0 <= #[trigger] offs[k] <= b.len(),
        forall|i: int| 0 <= i < offs.len() - 1 ==> #[trigger] offs[i] <= offs[i + 1],
        forall|i: int| 0 <= i < offs.len() - 1 ==> #[trigger] items[i] == b.subrange(offs[i], offs[i + 1]),
    ensures
        concat_all(items.take(k)) == b.subrange(offs[0], offs[k]),
    decreases k,
{
    if k == 0 {
        assert(items.take(0) =~= Seq::<Seq<u8>>::empty());
        assert(b.subrange(offs[0], offs[0]) =~= Seq::<u8>::empty());
    } else {
        lemma_concat_take(b, offs, items, k - 1);
        assert(items.take(k) =~= items.take(k - 1).push(items[k - 1]));
        lemma_concat_push(items.take(k - 1), items[k - 1]);
        lemma_offsets_grow(offs, 0, k - 1);
        assert(offs[k - 1] <= offs[k]);
        assert(b.subrange(offs[0], offs[k]) =~= b.subrange(offs[0], offs[k - 1]) + b.subrange(offs[k - 1], offs[k]));
    }
}

/// A list of 32-byte values is determined by its bytes.
pub proof fn lemma_domains_bytes_injective(a: Seq<[u8; HASH_LENGTH]>, b: Seq<[u8; HASH_LENGTH]>)
    requires
        domains_bytes(a) == domains_bytes(b),
    ensures
        a == b,
{
    lemma_domains_bytes(a);
    lemma_domains_bytes(b);
    assert(a.len() == b.len());
    assert forall|i: int| 0 <= i < a.len() implies a[i] == b[i] by {
        assert(a[i]@ == domains_bytes(a).subrange(32 * i, 32 * i + 32));
        assert(b[i]@ == domains_bytes(b).subrange(32 * i, 32 * i + 32));
        assert(a[i]@ == b[i]@);
        assert(a[i] =~= b[i]);
    }
    assert(a =~= b);
}

/// A list of `u32` values is determined by its bytes.
pub proof fn lemma_u32s_bytes_injective(a: Seq<u32>, b: Seq<u32>)
    requires
        u32s_bytes(a) == u32s_bytes(b),
    ensures
        a == b,
{
    lemma_u32s_bytes(a);
    lemma_u32s_bytes(b);
    lemma_auto_spec_u32_to_from_le_bytes();
    assert forall|i: int| 0 <= i < a.len() implies a[i] == b[i] by {
        assert(spec_u32_to_le_bytes(a[i]) == u32s_bytes(a).subrange(4 * i, 4 * i + 4));
        assert(spec_u32_to_le_bytes(b[i]) == u32s_bytes(b).subrange(4 * i, 4 * i + 4));
        assert(spec_u32_from_le_bytes(spec_u32_to_le_bytes(a[i])) == a[i]);
        assert(spec_u32_from_le_bytes(spec_u32_to_le_bytes(b[i])) == b[i]);
    }
    assert(a =~= b);
}

/// A list of variable-size items whose offsets fit is determined by its bytes.
pub proof fn lemma_var_list_injective(a: Seq<Seq<u8>>, b: Seq<Seq<u8>>)
    requires
        var_list_bytes(a) == var_list_bytes(b),
        var_list_fits(a),
        var_list_fits(b),
    ensures
        a == b,
{
    lemma_var_list_layout(a);
    lemma_var_list_layout(b);
    let bytes = var_list_bytes(a);
    if a.len() == 0 || b.len() == 0 {
        if a.len() == 0 {
            assert(a.take(0) =~= a);
        }
        if b.len() == 0 {
            assert(b.take(0) =~= b);
        }
        assert(a.take(0) =~= Seq::<Seq<u8>>::empty());
        assert(b.take(0) =~= Seq::<Seq<u8>>::empty());
        assert(a =~= b);
    } else {
        assert(a.take(0) =~= Seq::<Seq<u8>>::empty());
        assert(b.take(0) =~= Seq::<Seq<u8>>::empty());
        assert(u32_at(bytes, 4 * 0int) == 4 * a.len() + prefix_len(a, 0));
        assert(u32_at(var_list_bytes(b), 4 * 0int) == 4 * b.len() + prefix_len(b, 0));
        assert(a.len() == b.len());
        let n = a.len() as int;
        assert forall|i: int| 0 <= i < n implies #[trigger] prefix_len(a, i) == prefix_len(b, i) by {
            assert(u32_at(bytes, 4 * i) == 4 * a.len() + prefix_len(a, i));
            assert(u32_at(var_list_bytes(b), 4 * i) == 4 * b.len() + prefix_len(b, i));
        }
        assert(prefix_len(a, n) == prefix_len(b, n));
        assert forall|i: int| 0 <= i < n implies a[i] == b[i] by {
            assert(prefix_len(a, i + 1) == prefix_len(b, i + 1));
            assert(bytes.subrange(4 * n + prefix_len(a, i), 4 * n + prefix_len(a, i + 1)) == a[i]);
            assert(var_list_bytes(b).subrange(4 * n + prefix_len(b, i), 4 * n + prefix_len(b, i + 1)) == b[i]);
        }
        assert(a =~= b);
    }
}

} // verus!
