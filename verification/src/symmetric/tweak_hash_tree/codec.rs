//! SSZ bytes of tree layers, subtrees and authentication paths.

use vstd::prelude::*;
use vstd::bytes::*;
use crate::HASH_LENGTH;
use crate::serialization::{
    append_domains, concat_all, lemma_concat_len_bound, lemma_domains_bytes_injective, lemma_var_list_injective, decode_domains, domains_bytes, lemma_concat_items, lemma_concat_push,
    lemma_domains_bytes, lemma_offset_table, lemma_var_list_from_offsets, lemma_var_list_layout, offset_table,
    prefix_len, read_u32, read_u64, u32_at, u64_at, var_list_bytes, var_list_fits, DecodeError, Serializable,
};
use super::{HashTreeLayer, HashTreeOpening, HashSubTree};
use crate::symmetric::tweak_hash::TweakableHash;

verus! {

/// The first bytes of a layer's encoding: the start index and the offset of
/// the nodes, which is always 12.
pub open spec fn layer_header(start_index: u64) -> Seq<u8> {
    spec_u64_to_le_bytes(start_index) + spec_u32_to_le_bytes(12)
}

/// What the layer decoder accepts: the fixed part, the offset 12, and whole
/// 32-byte nodes after it.
pub open spec fn layer_bytes_ok(b: Seq<u8>) -> bool {
    &&& b.len() >= 12
    &&& u32_at(b, 8) == 12
    &&& (b.len() - 12) % 32 == 0
}

/// The encoding of a layer has the shape that the decoder accepts, and
/// holds the start index and the nodes where the decoder reads them.
pub proof fn lemma_layer_bytes(l: HashTreeLayer)
    ensures
        layer_bytes_ok(l.spec_ssz()),
        l.spec_ssz().len() == 12 + 32 * l.nodes@.len(),
        u64_at(l.spec_ssz(), 0) == l.start_index,
        l.spec_ssz().subrange(12, l.spec_ssz().len() as int) == domains_bytes(l.nodes@),
{
    let b = l.spec_ssz();
    lemma_auto_spec_u32_to_from_le_bytes();
    lemma_auto_spec_u64_to_from_le_bytes();
    lemma_domains_bytes(l.nodes@);
    assert(b.subrange(8, 12) =~= spec_u32_to_le_bytes(12));
    assert(b.subrange(0, 8) =~= spec_u64_to_le_bytes(l.start_index));
    assert(b.subrange(12, b.len() as int) =~= domains_bytes(l.nodes@));
    assert((12 + 32 * l.nodes@.len() - 12) % 32 == 0) by (nonlinear_arith);
}

impl Serializable for HashTreeLayer {
    open spec fn spec_ssz(&self) -> Seq<u8> {
        layer_header(self.start_index) + domains_bytes(self.nodes@)
    }

    open spec fn spec_encodable(&self) -> bool {
        self.spec_ssz().len() <= usize::MAX
    }

    open spec fn spec_valid(&self) -> bool {
        true
    }

    fn is_ssz_fixed_len() -> (r: bool) {
        false
    }

    fn ssz_bytes_len(&self) -> (r: usize) {
        proof {
            lemma_layer_bytes(*self);
        }
        8 + 4 + 32 * self.nodes.len()
    }

    fn ssz_append(&self, buf: &mut Vec<u8>) {
        crate::primitives::push_u64_le(buf, self.start_index);
        crate::primitives::push_u32_le(buf, 12);
        append_domains(buf, self.nodes.as_slice());
        proof {
            assert(final(buf)@ =~= old(buf)@ + self.spec_ssz());
        }
    }

    fn from_ssz_bytes(bytes: &[u8]) -> (r: Result<Self, DecodeError>)
        ensures
            bytes@.len() < 12 ==> r == Err::<Self, DecodeError>(
                DecodeError::InvalidByteLength { len: bytes@.len() as usize, expected: 12 },
            ),
            bytes@.len() >= 12 && u32_at(bytes@, 8) != 12 ==> r == Err::<Self, DecodeError>(
                DecodeError::InvalidByteLength { len: u32_at(bytes@, 8) as usize, expected: 12 },
            ),
            bytes@.len() >= 12 && u32_at(bytes@, 8) == 12 && (bytes@.len() - 12) % 32 != 0 ==> r == Err::<
                Self,
                DecodeError,
            >(DecodeError::InvalidByteLength { len: ((bytes@.len() - 12) % 32) as usize, expected: 32 }),
            r is Ok <==> layer_bytes_ok(bytes@),
    {
        let len = bytes.len();
        if len < 12 {
            proof {
                lemma_layer_not_decodable(bytes@);
            }
            return Err(DecodeError::InvalidByteLength { len, expected: 12 });
        }
        let start_index = read_u64(bytes, 0);
        let offset = read_u32(bytes, 8) as usize;
        if offset != 12 {
            proof {
                lemma_layer_not_decodable(bytes@);
            }
            return Err(DecodeError::InvalidByteLength { len: offset, expected: 12 });
        }
        let nodes = match decode_domains(bytes, 12, len) {
            Ok(nodes) => nodes,
            Err(e) => {
                proof {
                    lemma_layer_not_decodable(bytes@);
                }
                return Err(e);
            },
        };
        let layer = HashTreeLayer { start_index, nodes };
        proof {
            lemma_auto_spec_u32_to_from_le_bytes();
            lemma_auto_spec_u64_to_from_le_bytes();
            let b = bytes@;
            assert(spec_u64_to_le_bytes(spec_u64_from_le_bytes(b.subrange(0, 8))) == b.subrange(0, 8));
            assert(spec_u32_to_le_bytes(spec_u32_from_le_bytes(b.subrange(8, 12))) == b.subrange(8, 12));
            assert(layer.spec_ssz() =~= b);
        }
        Ok(layer)
    }
}

/// Bytes that the layer decoder refuses encode no layer.
proof fn lemma_layer_not_decodable(b: Seq<u8>)
    requires
        !layer_bytes_ok(b),
    ensures
        !exists|l: HashTreeLayer| l.spec_ssz() == b && l.spec_encodable() && l.spec_valid(),
{
    if exists|l: HashTreeLayer| l.spec_ssz() == b && l.spec_encodable() && l.spec_valid() {
        let l = choose|l: HashTreeLayer| l.spec_ssz() == b && l.spec_encodable() && l.spec_valid();
        lemma_layer_bytes(l);
    }
}

/// The encodings of a list of layers.
pub open spec fn layer_items(ls: Seq<HashTreeLayer>) -> Seq<Seq<u8>> {
    ls.map_values(|l: HashTreeLayer| l.spec_ssz())
}

/// `b` is the encoding of the list of layers `ls`, with offsets that fit.
pub open spec fn is_layer_list(b: Seq<u8>, ls: Seq<HashTreeLayer>) -> bool {
    &&& var_list_bytes(layer_items(ls)) == b
    &&& var_list_fits(layer_items(ls))
}

/// The number of bytes of the list encoding of `layers`.
fn layer_list_len(layers: &Vec<HashTreeLayer>) -> (r: usize)
    requires
        var_list_bytes(layer_items(layers@)).len() <= usize::MAX,
    ensures
        r == var_list_bytes(layer_items(layers@)).len(),
{
    let ghost items = layer_items(layers@);
    let n = layers.len();
    proof {
        lemma_concat_items(items);
        lemma_offset_table(items, 4 * n);
        assert(var_list_bytes(items).len() == 4 * n + concat_all(items).len());
    }
    let mut total: usize = 4 * n;
    for i in 0..n
        invariant
            n == layers@.len(),
            items == layer_items(layers@),
            var_list_bytes(items).len() == 4 * n + concat_all(items).len(),
            var_list_bytes(items).len() <= usize::MAX,
            forall|k: int| 0 <= k < items.len() ==> #[trigger] prefix_len(items, k + 1) == prefix_len(items, k) + items[k].len(),
            forall|k: int, j: int| 0 <= k <= j <= items.len() ==> #[trigger] prefix_len(items, k) <= #[trigger] prefix_len(items, j),
            prefix_len(items, items.len() as int) == concat_all(items).len(),
            total == 4 * n + prefix_len(items, i as int),
    {
        proof {
            assert(prefix_len(items, i + 1) <= prefix_len(items, n as int));
            assert(items[i as int] == layers@[i as int].spec_ssz());
        }
        let l = layers[i].ssz_bytes_len();
        total = total + l;
    }
    total
}

/// Appends the list encoding of `layers`: the offset table, then the layers.
fn append_layer_list(buf: &mut Vec<u8>, layers: &Vec<HashTreeLayer>)
    requires
        var_list_fits(layer_items(layers@)),
        var_list_bytes(layer_items(layers@)).len() <= usize::MAX,
    ensures
        final(buf)@ == old(buf)@ + var_list_bytes(layer_items(layers@)),
{
    let ghost items = layer_items(layers@);
    let n = layers.len();
    proof {
        lemma_var_list_layout(items);
    }
    let mut offset: usize = 4 * n;
    for i in 0..n
        invariant
            n == layers@.len(),
            items == layer_items(layers@),
            var_list_fits(items),
            var_list_bytes(items).len() == 4 * n + concat_all(items).len(),
            var_list_bytes(items).len() <= usize::MAX,
            forall|k: int| 0 <= k <= items.len() ==> 0 <= #[trigger] prefix_len(items, k) <= concat_all(items).len(),
            forall|k: int| 0 <= k < items.len() ==> 4 * items.len() + #[trigger] prefix_len(items, k) <= u32::MAX,
            offset == 4 * n + prefix_len(items, i as int),
            buf@ == old(buf)@ + offset_table(items.take(i as int), 4 * n),
    {
        proof {
            lemma_concat_items(items);
            assert(items[i as int] == layers@[i as int].spec_ssz());
            assert(items.take(i + 1).drop_last() =~= items.take(i as int));
            assert(items.take(i + 1).len() == i + 1);
            assert(prefix_len(items, i + 1) == prefix_len(items, i as int) + items[i as int].len());
            assert(prefix_len(items, i + 1) <= concat_all(items).len());
        }
        crate::primitives::push_u32_le(buf, offset as u32);
        let l = layers[i].ssz_bytes_len();
        offset = offset + l;
    }
    assert(items.take(n as int) =~= items);
    let ghost table = buf@;
    for i in 0..n
        invariant
            n == layers@.len(),
            items == layer_items(layers@),
            var_list_bytes(items).len() <= usize::MAX,
            concat_all(items).len() <= var_list_bytes(items).len(),
            table == old(buf)@ + offset_table(items, 4 * n),
            buf@ == table + concat_all(items.take(i as int)),
    {
        proof {
            lemma_concat_items(items);
            assert(items[i as int] == layers@[i as int].spec_ssz());
            assert(prefix_len(items, i + 1) <= prefix_len(items, n as int));
            assert(items.take(i + 1) =~= items.take(i as int).push(items[i as int]));
            lemma_concat_push(items.take(i as int), items[i as int]);
        }
        layers[i].ssz_append(buf);
    }
    assert(items.take(n as int) =~= items);
    assert(buf@ =~= old(buf)@ + var_list_bytes(items));
}

/// Decodes a list of layers.
fn decode_layer_list(bytes: &[u8]) -> (r: Result<Vec<HashTreeLayer>, DecodeError>)
    ensures
        r matches Ok(v) ==> is_layer_list(bytes@, v@),
        r is Ok <==> exists|ls: Seq<HashTreeLayer>| is_layer_list(bytes@, ls),
{
    let len = bytes.len();
    let ghost b = bytes@;
    if len == 0 {
        let v: Vec<HashTreeLayer> = Vec::new();
        proof {
            assert(layer_items(v@) =~= Seq::<Seq<u8>>::empty());
            assert(var_list_bytes(layer_items(v@)) =~= b);
            assert(is_layer_list(b, v@));
        }
        return Ok(v);
    }
    // Any list that these bytes encode has a layout the checks accept.
    proof {
        assert forall|ls: Seq<HashTreeLayer>| #[trigger] is_layer_list(b, ls) implies ls.len() >= 1 && 4
            * ls.len() <= len && u32_at(b, 0) == 4 * ls.len() by {
            let items = layer_items(ls);
            lemma_var_list_layout(items);
            if ls.len() == 0 {
                assert(items =~= Seq::<Seq<u8>>::empty());
                assert(var_list_bytes(items) =~= Seq::<u8>::empty());
            }
            assert(items.take(0) =~= Seq::<Seq<u8>>::empty());
            assert(prefix_len(items, 0) == 0);
            assert(u32_at(var_list_bytes(items), 4 * 0int) == 4 * items.len() + prefix_len(items, 0));
        }
    }
    if len < 4 {
        return Err(DecodeError::InvalidLengthPrefix { len, expected: 4 });
    }
    let first = read_u32(bytes, 0) as usize;
    if first > len {
        return Err(DecodeError::OffsetOutOfBounds(first));
    }
    if first % 4 != 0 || first < 4 {
        return Err(DecodeError::InvalidListFixedBytesLen(first));
    }
    let n = first / 4;
    let mut out: Vec<HashTreeLayer> = Vec::with_capacity(n);
    let mut offset = first;
    let ghost mut offs: Seq<int> = seq![first as int];
    let mut i: usize = 1;
    while i <= n
        invariant
            b == bytes@,
            len == b.len(),
            first == 4 * n,
            4 <= first <= len,
            1 <= i <= n + 1,
            offs.len() == if i <= n { i as int } else { n as int },
            offs[0] == first,
            offset == offs.last(),
            out@.len() == i - 1,
            forall|k: int| 0 <= k < offs.len() ==> #[trigger] u32_at(b, 4 * k) == offs[k],
            forall|k: int| 0 <= k < offs.len() ==> first <= #[trigger] offs[k] <= len,
            forall|k: int| 0 <= k < offs.len() ==> #[trigger] offs[k] <= u32::MAX,
            forall|k: int| 0 <= k < offs.len() - 1 ==> #[trigger] offs[k] <= offs[k + 1],
            forall|k: int| 0 <= k < out@.len() && k < offs.len() - 1 ==> (#[trigger] out@[k]).spec_ssz() == b.subrange(offs[k], offs[k + 1]),
            i > n ==> out@[n - 1].spec_ssz() == b.subrange(offs.last(), len as int),
            forall|ls: Seq<HashTreeLayer>| #[trigger] is_layer_list(b, ls) ==> {
                &&& ls.len() == n
                &&& forall|k: int| 0 <= k < offs.len() ==> #[trigger] offs[k] == 4 * n + prefix_len(layer_items(ls), k)
            },
        decreases n + 1 - i,
    {
        let start = offset;
        let end = if i == n {
            len
        } else {
            let next = read_u32(bytes, 4 * i) as usize;
            proof {
                assert forall|ls: Seq<HashTreeLayer>| #[trigger] is_layer_list(b, ls) implies first <= next <= len
                    && offset <= next && next == 4 * n + prefix_len(layer_items(ls), i as int) by {
                    lemma_var_list_layout(layer_items(ls));
                    assert(offs[i - 1] == 4 * n + prefix_len(layer_items(ls), i - 1));
                }
            }
            if next < first {
                return Err(DecodeError::OffsetIntoFixedPortion(next));
            }
            if next > len {
                return Err(DecodeError::OffsetOutOfBounds(next));
            }
            if next < offset {
                return Err(DecodeError::OffsetsAreDecreasing(next));
            }
            proof {
                offs = offs.push(next as int);
            }
            offset = next;
            next
        };
        let piece = vstd::slice::slice_subrange(bytes, start, end);
        proof {
            assert forall|ls: Seq<HashTreeLayer>| #[trigger] is_layer_list(b, ls) implies ls[i - 1].spec_ssz()
                == piece@ by {
                let items = layer_items(ls);
                lemma_var_list_layout(items);
                assert(items[i - 1] == ls[i - 1].spec_ssz());
                assert(offs[i - 1] == 4 * n + prefix_len(items, i - 1));
                if i < n {
                    assert(offs[i as int] == 4 * n + prefix_len(items, i as int));
                    assert(end == offs[i as int]);
                } else {
                    assert(prefix_len(items, n as int) == concat_all(items).len());
                    assert(end == len);
                    assert(len == 4 * n + concat_all(items).len());
                }
                assert(end == 4 * n + prefix_len(items, i as int));
                assert(start == 4 * n + prefix_len(items, i - 1));
                assert(var_list_bytes(items).subrange(
                    4 * items.len() + prefix_len(items, i - 1),
                    4 * items.len() + prefix_len(items, i - 1 + 1),
                ) == items[i - 1]);
            }
        }
        let layer = match HashTreeLayer::from_ssz_bytes(piece) {
            Ok(layer) => layer,
            Err(e) => {
                proof {
                    if exists|ls: Seq<HashTreeLayer>| is_layer_list(b, ls) {
                        let ls = choose|ls: Seq<HashTreeLayer>| is_layer_list(b, ls);
                        assert(ls[i - 1].spec_ssz() == piece@ && ls[i - 1].spec_encodable() && ls[i - 1].spec_valid());
                    }
                }
                return Err(e);
            },
        };
        out.push(layer);
        i = i + 1;
    }
    proof {
        let items = layer_items(out@);
        assert forall|k: int| 0 <= k < offs.len() - 1 implies #[trigger] items[k] == b.subrange(offs[k], offs[k + 1]) by {
            assert(items[k] == out@[k].spec_ssz());
        }
        assert(items.last() == out@[n - 1].spec_ssz());
        lemma_var_list_from_offsets(b, offs, items);
        assert(is_layer_list(b, out@));
    }
    Ok(out)
}

/// The most bytes that a subtree of at most 17 layers of at most `2^16`
/// nodes each takes.
pub open spec fn small_subtree_bytes() -> nat {
    20 + 4 * 17 + 17 * (12 + 32 * 0x10000)
}

/// A subtree of at most 17 layers, each of at most `2^16` nodes, can be
/// encoded, in at most `small_subtree_bytes()` bytes.
pub proof fn lemma_small_subtree_encodable<TH: TweakableHash>(t: HashSubTree<TH>)
    requires
        t.layers@.len() <= 17,
        forall|k: int| 0 <= k < t.layers@.len() ==> (#[trigger] t.layers@[k]).nodes@.len() <= 0x10000,
    ensures
        t.spec_encodable(),
        t.spec_ssz().len() <= small_subtree_bytes(),
{
    let items = layer_items(t.layers@);
    let n = items.len();
    let m: nat = 12 + 32 * 0x10000;
    assert forall|i: int| 0 <= i < n implies (#[trigger] items[i]).len() <= m by {
        lemma_layer_bytes(t.layers@[i]);
        assert(items[i] == t.layers@[i].spec_ssz());
    }
    lemma_concat_len_bound(items, m);
    assert(n * m <= 17 * m) by (nonlinear_arith)
        requires
            n <= 17,
    ;
    if n > 0 {
        let d = items.drop_last();
        assert forall|i: int| 0 <= i < d.len() implies (#[trigger] d[i]).len() <= m by {
            assert(d[i] == items[i]);
        }
        lemma_concat_len_bound(d, m);
        assert(d.len() * m <= 17 * m) by (nonlinear_arith)
            requires
                d.len() <= 17,
        ;
    }
    lemma_offset_table(items, 4 * n as int);
    lemma_auto_spec_u32_to_from_le_bytes();
    lemma_auto_spec_u64_to_from_le_bytes();
    assert(t.spec_ssz().len() == 20 + 4 * n + concat_all(items).len());
}

impl<TH: TweakableHash> HashSubTree<TH> {
    /// The length of the encoding, where the tree can be encoded (its layer
    /// offsets fit in 32 bits and its length in `usize`).
    pub fn encoded_len(&self) -> (r: Option<usize>)
        ensures
            match r {
                Some(n) => self.spec_encodable() && n == self.spec_ssz().len(),
                None => !self.spec_encodable(),
            },
    {
        let ghost items = layer_items(self.layers@);
        let n = self.layers.len();
        proof {
            lemma_concat_items(items);
            lemma_offset_table(items, 4 * n);
            lemma_auto_spec_u32_to_from_le_bytes();
            lemma_auto_spec_u64_to_from_le_bytes();
            assert(self.spec_ssz().len() == 20 + 4 * n + concat_all(items).len());
            if n > 0 {
                assert(items.take(n - 1) =~= items.drop_last());
            }
        }
        if n == 0 {
            return Some(20);
        }
        if n >= 0x4000_0000 {
            return None;
        }
        let mut total: u128 = 4 * (n as u128);
        let mut i: usize = 0;
        while i < n
            invariant
                0 < n < 0x4000_0000,
                n == self.layers@.len(),
                items == layer_items(self.layers@),
                i <= n,
                total == 4 * n + prefix_len(items, i as int),
                i < n ==> total <= u32::MAX,
                i == n ==> prefix_len(items, n - 1) + 4 * n <= u32::MAX,
                i == n ==> total <= u32::MAX + 12 + 32 * usize::MAX,
                forall|k: int| 0 <= k < items.len() ==> #[trigger] prefix_len(items, k + 1) == prefix_len(items, k) + items[k].len(),
                forall|k: int, j: int| 0 <= k <= j <= items.len() ==> #[trigger] prefix_len(items, k) <= #[trigger] prefix_len(items, j),
            decreases n - i,
        {
            proof {
                lemma_layer_bytes(self.layers@[i as int]);
                assert(items[i as int] == self.layers@[i as int].spec_ssz());
            }
            total = total + 12 + 32 * (self.layers[i].nodes.len() as u128);
            i = i + 1;
            if i < n && total > 0xffff_ffff {
                proof {
                    assert(prefix_len(items, i as int) <= prefix_len(items, n - 1));
                }
                return None;
            }
        }
        let whole: u128 = 20 + total;
        if whole > usize::MAX as u128 {
            None
        } else {
            proof {
                assert(prefix_len(items, n as int) == concat_all(items).len());
            }
            Some(whole as usize)
        }
    }
}

impl<TH: TweakableHash> Serializable for HashSubTree<TH> {
    open spec fn spec_ssz(&self) -> Seq<u8> {
        spec_u64_to_le_bytes(self.depth) + spec_u64_to_le_bytes(self.lowest_layer) + spec_u32_to_le_bytes(20)
            + var_list_bytes(layer_items(self.layers@))
    }

    open spec fn spec_encodable(&self) -> bool {
        &&& var_list_fits(layer_items(self.layers@))
        &&& self.spec_ssz().len() <= usize::MAX
    }

    open spec fn spec_valid(&self) -> bool {
        true
    }

    fn is_ssz_fixed_len() -> (r: bool) {
        false
    }

    fn ssz_bytes_len(&self) -> (r: usize) {
        proof {
            lemma_auto_spec_u32_to_from_le_bytes();
            lemma_auto_spec_u64_to_from_le_bytes();
        }
        8 + 8 + 4 + layer_list_len(&self.layers)
    }

    fn ssz_append(&self, buf: &mut Vec<u8>) {
        proof {
            lemma_auto_spec_u32_to_from_le_bytes();
            lemma_auto_spec_u64_to_from_le_bytes();
        }
        crate::primitives::push_u64_le(buf, self.depth);
        crate::primitives::push_u64_le(buf, self.lowest_layer);
        crate::primitives::push_u32_le(buf, 20);
        append_layer_list(buf, &self.layers);
        proof {
            assert(final(buf)@ =~= old(buf)@ + self.spec_ssz());
        }
    }

    fn from_ssz_bytes(bytes: &[u8]) -> (r: Result<Self, DecodeError>)
        ensures
            bytes@.len() < 20 ==> r == Err::<Self, DecodeError>(
                DecodeError::InvalidByteLength { len: bytes@.len() as usize, expected: 20 },
            ),
            bytes@.len() >= 20 && u32_at(bytes@, 16) != 20 ==> r == Err::<Self, DecodeError>(
                DecodeError::InvalidByteLength { len: u32_at(bytes@, 16) as usize, expected: 20 },
            ),
    {
        let len = bytes.len();
        let ghost b = bytes@;
        proof {
            lemma_auto_spec_u32_to_from_le_bytes();
            lemma_auto_spec_u64_to_from_le_bytes();
            // Any subtree that these bytes encode has the fixed part the checks accept.
            assert forall|t: Self| #[trigger] t.spec_ssz() == b implies len >= 20 && u32_at(b, 16) == 20
                && is_layer_list(b.subrange(20, len as int), t.layers@) || !t.spec_encodable() by {
                assert(b.subrange(16, 20) =~= spec_u32_to_le_bytes(20));
                assert(b.subrange(20, len as int) =~= var_list_bytes(layer_items(t.layers@)));
            }
        }
        if len < 20 {
            return Err(DecodeError::InvalidByteLength { len, expected: 20 });
        }
        let depth = read_u64(bytes, 0);
        let lowest_layer = read_u64(bytes, 8);
        let offset = read_u32(bytes, 16) as usize;
        if offset != 20 {
            return Err(DecodeError::InvalidByteLength { len: offset, expected: 20 });
        }
        let rest = vstd::slice::slice_subrange(bytes, 20, len);
        let layers = match decode_layer_list(rest) {
            Ok(layers) => layers,
            Err(e) => {
                proof {
                    if exists|t: Self| t.spec_ssz() == b && t.spec_encodable() && t.spec_valid() {
                        let t = choose|t: Self| t.spec_ssz() == b && t.spec_encodable() && t.spec_valid();
                        assert(is_layer_list(rest@, t.layers@));
                    }
                }
                return Err(e);
            },
        };
        let t = HashSubTree { depth, lowest_layer, layers, _hash: std::marker::PhantomData };
        proof {
            assert(spec_u64_to_le_bytes(spec_u64_from_le_bytes(b.subrange(0, 8))) == b.subrange(0, 8));
            assert(spec_u64_to_le_bytes(spec_u64_from_le_bytes(b.subrange(8, 16))) == b.subrange(8, 16));
            assert(spec_u32_to_le_bytes(spec_u32_from_le_bytes(b.subrange(16, 20))) == b.subrange(16, 20));
            assert(t.spec_ssz() =~= b);
            assert(t.spec_ssz() == b && t.spec_encodable() && t.spec_valid());
        }
        Ok(t)
    }
}

impl<TH: TweakableHash> Serializable for HashTreeOpening<TH> {
    open spec fn spec_ssz(&self) -> Seq<u8> {
        spec_u32_to_le_bytes(4) + domains_bytes(self.co_path@)
    }

    open spec fn spec_encodable(&self) -> bool {
        self.spec_ssz().len() <= usize::MAX
    }

    open spec fn spec_valid(&self) -> bool {
        true
    }

    fn is_ssz_fixed_len() -> (r: bool) {
        false
    }

    fn ssz_bytes_len(&self) -> (r: usize) {
        proof {
            lemma_auto_spec_u32_to_from_le_bytes();
            lemma_domains_bytes(self.co_path@);
        }
        4 + 32 * self.co_path.len()
    }

    fn ssz_append(&self, buf: &mut Vec<u8>) {
        crate::primitives::push_u32_le(buf, 4);
        append_domains(buf, self.co_path.as_slice());
        proof {
            assert(final(buf)@ =~= old(buf)@ + self.spec_ssz());
        }
    }

    fn from_ssz_bytes(bytes: &[u8]) -> (r: Result<Self, DecodeError>)
        ensures
            bytes@.len() < 4 ==> r == Err::<Self, DecodeError>(
                DecodeError::InvalidByteLength { len: bytes@.len() as usize, expected: 4 },
            ),
            bytes@.len() >= 4 && u32_at(bytes@, 0) != 4 ==> r == Err::<Self, DecodeError>(
                DecodeError::InvalidByteLength { len: u32_at(bytes@, 0) as usize, expected: 4 },
            ),
            bytes@.len() >= 4 && u32_at(bytes@, 0) == 4 && (bytes@.len() - 4) % 32 != 0 ==> r == Err::<
                Self,
                DecodeError,
            >(DecodeError::InvalidByteLength { len: ((bytes@.len() - 4) % 32) as usize, expected: 32 }),
            r is Ok <==> (bytes@.len() >= 4 && u32_at(bytes@, 0) == 4 && (bytes@.len() - 4) % 32 == 0),
    {
        let len = bytes.len();
        let ghost b = bytes@;
        proof {
            lemma_auto_spec_u32_to_from_le_bytes();
            assert forall|o: Self| #[trigger] o.spec_ssz() == b implies len >= 4 && u32_at(b, 0) == 4 && (len - 4)
                % 32 == 0 by {
                lemma_domains_bytes(o.co_path@);
                assert(b.subrange(0, 4) =~= spec_u32_to_le_bytes(4));
                assert((4 + 32 * o.co_path@.len() - 4) % 32 == 0) by (nonlinear_arith);
            }
        }
        if len < 4 {
            return Err(DecodeError::InvalidByteLength { len, expected: 4 });
        }
        let offset = read_u32(bytes, 0) as usize;
        if offset != 4 {
            return Err(DecodeError::InvalidByteLength { len: offset, expected: 4 });
        }
        let co_path = match decode_domains(bytes, 4, len) {
            Ok(co_path) => co_path,
            Err(e) => {
                return Err(e);
            },
        };
        let o = HashTreeOpening { co_path, _hash: std::marker::PhantomData };
        proof {
            assert(spec_u32_to_le_bytes(spec_u32_from_le_bytes(b.subrange(0, 4))) == b.subrange(0, 4));
            assert(o.spec_ssz() =~= b);
            assert(o.spec_ssz() == b && o.spec_encodable() && o.spec_valid());
        }
        Ok(o)
    }
}

/// A layer is determined by its encoding: decoding what `ssz_append` wrote
/// gives the same start index and nodes.
pub proof fn lemma_layer_ssz_injective(a: HashTreeLayer, b: HashTreeLayer)
    requires
        a.spec_ssz() == b.spec_ssz(),
    ensures
        a.start_index == b.start_index,
        a.nodes@ == b.nodes@,
{
    lemma_layer_bytes(a);
    lemma_layer_bytes(b);
    lemma_domains_bytes_injective(a.nodes@, b.nodes@);
}

/// A subtree whose offsets fit is determined by its encoding.
pub proof fn lemma_subtree_ssz_injective<TH: TweakableHash>(a: HashSubTree<TH>, b: HashSubTree<TH>)
    requires
        a.spec_ssz() == b.spec_ssz(),
        a.spec_encodable(),
        b.spec_encodable(),
    ensures
        a.depth == b.depth,
        a.lowest_layer == b.lowest_layer,
        a.layers@.len() == b.layers@.len(),
        forall|i: int|
            0 <= i < a.layers@.len() ==> (#[trigger] a.layers@[i]).start_index == b.layers@[i].start_index
                && a.layers@[i].nodes@ == b.layers@[i].nodes@,
{
    let x = a.spec_ssz();
    lemma_auto_spec_u64_to_from_le_bytes();
    lemma_auto_spec_u32_to_from_le_bytes();
    assert(x.subrange(0, 8) =~= spec_u64_to_le_bytes(a.depth));
    assert(b.spec_ssz().subrange(0, 8) =~= spec_u64_to_le_bytes(b.depth));
    assert(x.subrange(8, 16) =~= spec_u64_to_le_bytes(a.lowest_layer));
    assert(b.spec_ssz().subrange(8, 16) =~= spec_u64_to_le_bytes(b.lowest_layer));
    assert(x.subrange(20, x.len() as int) =~= var_list_bytes(layer_items(a.layers@)));
    assert(b.spec_ssz().subrange(20, x.len() as int) =~= var_list_bytes(layer_items(b.layers@)));
    lemma_var_list_injective(layer_items(a.layers@), layer_items(b.layers@));
    assert forall|i: int| 0 <= i < a.layers@.len() implies (#[trigger] a.layers@[i]).start_index
        == b.layers@[i].start_index && a.layers@[i].nodes@ == b.layers@[i].nodes@ by {
        assert(layer_items(a.layers@)[i] == layer_items(b.layers@)[i]);
        lemma_layer_ssz_injective(a.layers@[i], b.layers@[i]);
    }
}

/// An authentication path is determined by its encoding.
pub proof fn lemma_opening_ssz_injective<TH: TweakableHash>(a: HashTreeOpening<TH>, b: HashTreeOpening<TH>)
    requires
        a.spec_ssz() == b.spec_ssz(),
    ensures
        a.co_path@ == b.co_path@,
{
    let x = a.spec_ssz();
    lemma_auto_spec_u32_to_from_le_bytes();
    assert(x.subrange(4, x.len() as int) =~= domains_bytes(a.co_path@));
    assert(b.spec_ssz().subrange(4, x.len() as int) =~= domains_bytes(b.co_path@));
    lemma_domains_bytes_injective(a.co_path@, b.co_path@);
}

} // verus!
