//! Sparse Merkle trees over a tweakable hash: construction, authentication
//! paths and path verification.

use vstd::prelude::*;
use vstd::arithmetic::power2::*;
use vstd::bits::*;
use crate::HASH_LENGTH;
use crate::primitives::{bytes32_eq, seeded_rng};
use crate::symmetric::tweak_hash::{domain_views, TweakableHash};

pub mod codec;

verus! {

/// One layer of a sparse Merkle tree: the nodes at positions
/// `start_index .. start_index + nodes.len()` of one level.
pub struct HashTreeLayer {
    pub start_index: u64,
    pub nodes: Vec<[u8; HASH_LENGTH]>,
}

impl HashTreeLayer {
    /// One past the last position held.
    pub open spec fn end(&self) -> int {
        self.start_index + self.nodes@.len()
    }

    /// Whether position `p` is held.
    pub open spec fn contains(&self, p: int) -> bool {
        self.start_index <= p < self.end()
    }

    /// The node at position `p`.
    pub open spec fn node(&self, p: int) -> Seq<u8> {
        self.nodes@[p - self.start_index]@
    }

    /// Begins with a left child and ends with a right child.
    pub open spec fn is_padded(&self) -> bool {
        &&& self.start_index % 2 == 0
        &&& self.nodes@.len() % 2 == 0
        &&& self.nodes@.len() >= 2
    }
}

/// `upper` holds every parent of the pairs in `lower`.
pub open spec fn covers(upper: HashTreeLayer, lower: HashTreeLayer) -> bool {
    &&& upper.start_index <= lower.start_index / 2
    &&& lower.start_index / 2 + lower.nodes@.len() / 2 <= upper.end()
}

/// In `layers` (the lowest at tree level `lowest`), the parent at offset `j`
/// of the pairs of layer `k` is the hash of that pair.
pub open spec fn layers_parent_ok<TH: TweakableHash>(
    layers: Seq<HashTreeLayer>,
    lowest: int,
    parameter: Seq<u8>,
    k: int,
    j: int,
) -> bool {
    let lower = layers[k];
    let q = lower.start_index / 2 + j;
    layers[k + 1].node(q) == TH::spec_apply(
        parameter,
        TH::spec_tree_tweak((lowest + k + 1) as u8, q as u32),
        seq![lower.nodes@[2 * j]@, lower.nodes@[2 * j + 1]@],
    )
}

/// In `layers`, layer `k` is padded and layer `k + 1` holds its parents.
pub open spec fn layers_link_ok(layers: Seq<HashTreeLayer>, k: int) -> bool {
    &&& layers[k].is_padded()
    &&& covers(layers[k + 1], layers[k])
}

/// A position rounded down to a left child.
pub open spec fn round_down_even(x: int) -> int {
    x - x % 2
}

/// An exclusive end rounded up past a right child.
pub open spec fn round_up_even(x: int) -> int {
    x + x % 2
}

/// First position of layer `k` of a subtree built over positions starting at `a`.
pub open spec fn layer_start(a: int, k: nat) -> int
    decreases k,
{
    if k == 0 {
        round_down_even(a)
    } else {
        round_down_even(layer_start(a, (k - 1) as nat) / 2)
    }
}

/// One past the last position of layer `k` of a subtree built over positions
/// ending (exclusively) at `e`.
pub open spec fn layer_end(e: int, k: nat) -> int
    decreases k,
{
    if k == 0 {
        round_up_even(e)
    } else {
        round_up_even(layer_end(e, (k - 1) as nat) / 2)
    }
}

/// A bound on the end of layer `k` of a tree with `d` levels above it.
pub open spec fn layer_end_bound(d: nat, k: nat) -> int {
    if k < d {
        pow2((d - k) as nat) as int
    } else {
        2
    }
}

pub proof fn lemma_layer_end_bound(e: int, d: nat, k: nat)
    requires
        1 <= d,
        0 <= e <= pow2(d),
        k <= d,
    ensures
        0 <= layer_end(e, k) <= layer_end_bound(d, k),
    decreases k,
{
    lemma_pow2_unfold(d);
    if k > 0 {
        lemma_layer_end_bound(e, d, (k - 1) as nat);
        let prev = layer_end(e, (k - 1) as nat);
        let m = (d - k) as nat;
        lemma_pow2_unfold((m + 1) as nat);
        assert(prev <= 2 * pow2(m));
        if m >= 1 {
            lemma_pow2_unfold(m);
        } else {
            assert(pow2(0) == 1) by {
                lemma2_to64();
            }
        }
    }
}

pub proof fn lemma_layer_start_le_shift(a: int, k: nat)
    requires
        0 <= a,
    ensures
        0 <= layer_start(a, k) <= shift(a as nat, k),
    decreases k,
{
    if k > 0 {
        lemma_layer_start_le_shift(a, (k - 1) as nat);
        lemma_shift_succ(a as nat, (k - 1) as nat);
    }
}

proof fn lemma_double(c: nat, m: nat)
    requires
        m >= 1,
    ensures
        (c * pow2(m)) % 2 == 0,
        (c * pow2(m)) / 2 == c * pow2((m - 1) as nat),
{
    lemma_pow2_unfold(m);
    let x = pow2((m - 1) as nat);
    let y = c * x;
    assert(c * (2 * x) == 2 * y) by (nonlinear_arith)
        requires
            y == c * x;
}

/// The layers of a subtree over the aligned block `[c * 2^h, (c + 1) * 2^h)`
/// carry no padding below level `h`.
proof fn lemma_aligned_layers(c: nat, h: nat, k: nat)
    requires
        1 <= h,
        k < h,
    ensures
        layer_start((c * pow2(h)) as int, k) == c * pow2((h - k) as nat),
        layer_end(((c + 1) * pow2(h)) as int, k) == (c + 1) * pow2((h - k) as nat),
    decreases k,
{
    if k == 0 {
        lemma_double(c, h);
        lemma_double(c + 1, h);
    } else {
        lemma_aligned_layers(c, h, (k - 1) as nat);
        lemma_double(c, (h - k + 1) as nat);
        lemma_double(c + 1, (h - k + 1) as nat);
        lemma_double(c, (h - k) as nat);
        lemma_double(c + 1, (h - k) as nat);
    }
}

impl HashTreeLayer {
    /// Pads a contiguous layer to begin with a left child and end with a right child.
    pub fn padded<TH: TweakableHash>(
        rng: &mut rand::rngs::StdRng,
        nodes: Vec<[u8; HASH_LENGTH]>,
        start_index: usize,
    ) -> (r: HashTreeLayer)
        requires
            nodes@.len() >= 1,
            start_index + nodes@.len() < usize::MAX,
        ensures
            r.start_index == round_down_even(start_index as int),
            r.end() == round_up_even(start_index + nodes@.len()),
            r.is_padded(),
            forall|p: int|
                start_index <= p < start_index + nodes@.len() ==> #[trigger] r.node(p) == nodes@[p - start_index]@,
    {
        let end_index = start_index + nodes.len() - 1;
        let needs_front = start_index % 2 == 1;
        let needs_back = end_index % 2 == 0;
        let actual_start_index = if needs_front { start_index - 1 } else { start_index };
        let mut out: Vec<[u8; HASH_LENGTH]> = Vec::with_capacity(nodes.len());
        if needs_front {
            out.push(TH::rand_domain(rng));
        }
        let ghost offset = out@.len();
        let n = nodes.len();
        for i in 0..n
            invariant
                n == nodes@.len(),
                out@.len() == offset + i,
                forall|j: int| 0 <= j < i ==> #[trigger] out@[offset + j] == nodes@[j],
        {
            out.push(nodes[i]);
        }
        if needs_back {
            out.push(TH::rand_domain(rng));
        }
        let r = HashTreeLayer { start_index: actual_start_index as u64, nodes: out };
        assert forall|p: int|
            start_index <= p < start_index + nodes@.len() implies #[trigger] r.node(p) == nodes@[p - start_index]@ by {
            assert(r.nodes@[p - r.start_index] == out@[offset + (p - start_index)]);
        }
        r
    }
}

/// A contiguous subtree of a sparse Merkle tree.
pub struct HashSubTree<TH: TweakableHash> {
    /// Depth of the full tree.
    pub depth: u64,
    /// Lowest layer retained by this subtree.
    pub lowest_layer: u64,
    /// Layers in bottom-to-root order. Layer zero contains hashed leaves.
    pub layers: Vec<HashTreeLayer>,
    pub _hash: std::marker::PhantomData<TH>,
}

/// A Merkle authentication path, excluding the leaf.
pub struct HashTreeOpening<TH: TweakableHash> {
    pub co_path: Vec<[u8; HASH_LENGTH]>,
    pub _hash: std::marker::PhantomData<TH>,
}

/// `p` halved `l` times.
pub open spec fn shift(p: nat, l: nat) -> nat
    decreases l,
{
    if l == 0 {
        p
    } else {
        shift(p / 2, (l - 1) as nat)
    }
}

/// The other child of the pair that holds `p`.
pub open spec fn sibling(p: nat) -> nat {
    if p % 2 == 0 {
        p + 1
    } else {
        (p - 1) as nat
    }
}

/// Halving once more after `l` halvings.
pub proof fn lemma_shift_succ(p: nat, l: nat)
    ensures
        shift(p, l + 1) == shift(p, l) / 2,
    decreases l,
{
    if l > 0 {
        lemma_shift_succ(p / 2, (l - 1) as nat);
        assert(shift(p, l + 1) == shift(p / 2, l));
    } else {
        assert(shift(p / 2, 0) == p / 2);
        assert(shift(p, 1) == shift(p / 2, 0));
    }
}

/// Positions below `2^l` reach 0 after `l` halvings.
pub proof fn lemma_shift_small(p: nat, l: nat)
    requires
        p < pow2(l),
    ensures
        shift(p, l) == 0,
    decreases l,
{
    if l > 0 {
        lemma_pow2_unfold(l);
        lemma_shift_small(p / 2, (l - 1) as nat);
    } else {
        lemma_pow2_pos(0);
        assert(pow2(0) == 1) by {
            lemma2_to64();
        }
    }
}

/// Halving is monotone.
pub proof fn lemma_shift_monotone(p: nat, q: nat, l: nat)
    requires
        p <= q,
    ensures
        shift(p, l) <= shift(q, l),
    decreases l,
{
    if l > 0 {
        lemma_shift_monotone(p / 2, q / 2, (l - 1) as nat);
    }
}

/// The node that a verifier reaches from `node` at position `pos` of `level`,
/// hashing it with each co-path node in turn on the way up.
pub open spec fn fold_opening<TH: TweakableHash>(
    parameter: Seq<u8>,
    level: nat,
    pos: nat,
    node: Seq<u8>,
    co_path: Seq<Seq<u8>>,
) -> Seq<u8>
    decreases co_path.len(),
{
    if co_path.len() == 0 {
        node
    } else {
        let parent = pos / 2;
        let children = if pos % 2 == 0 {
            seq![node, co_path[0]]
        } else {
            seq![co_path[0], node]
        };
        fold_opening::<TH>(
            parameter,
            level + 1,
            parent,
            TH::spec_apply(parameter, TH::spec_tree_tweak((level + 1) as u8, parent as u32), children),
            co_path.drop_first(),
        )
    }
}

/// Folding a concatenated co-path folds the first part, then the second.
pub proof fn lemma_fold_opening_concat<TH: TweakableHash>(
    parameter: Seq<u8>,
    level: nat,
    pos: nat,
    node: Seq<u8>,
    a: Seq<Seq<u8>>,
    c: Seq<Seq<u8>>,
)
    ensures
        fold_opening::<TH>(parameter, level, pos, node, a + c) == fold_opening::<TH>(
            parameter,
            level + a.len(),
            shift(pos, a.len()),
            fold_opening::<TH>(parameter, level, pos, node, a),
            c,
        ),
    decreases a.len(),
{
    if a.len() == 0 {
        assert(a + c =~= c);
    } else {
        let parent = pos / 2;
        let children = if pos % 2 == 0 {
            seq![node, a[0]]
        } else {
            seq![a[0], node]
        };
        let next = TH::spec_apply(parameter, TH::spec_tree_tweak((level + 1) as u8, parent as u32), children);
        assert((a + c)[0] == a[0]);
        assert((a + c).drop_first() =~= a.drop_first() + c);
        lemma_fold_opening_concat::<TH>(parameter, level + 1, parent, next, a.drop_first(), c);
        assert(level + 1 + a.drop_first().len() == level + a.len());
        assert(shift(pos, a.len()) == shift(parent, a.drop_first().len()));
    }
}

/// What `hash_tree_verify` accepts: a co-path of at most 32 nodes, a position
/// below `2^len`, and a fold from the hashed leaf that reaches `root`.
pub open spec fn spec_hash_tree_verify<TH: TweakableHash>(
    parameter: Seq<u8>,
    root: Seq<u8>,
    position: u32,
    leaf: Seq<Seq<u8>>,
    co_path: Seq<Seq<u8>>,
) -> bool {
    &&& co_path.len() <= 32
    &&& (position as nat) < pow2(co_path.len())
    &&& fold_opening::<TH>(
        parameter,
        0,
        position as nat,
        TH::spec_apply(parameter, TH::spec_tree_tweak(0, position), leaf),
        co_path,
    ) == root
}

impl<TH: TweakableHash> HashTreeOpening<TH> {
    /// The co-path nodes.
    pub open spec fn view_path(&self) -> Seq<Seq<u8>> {
        domain_views(self.co_path@)
    }
}

impl<TH: TweakableHash> HashSubTree<TH> {
    /// Number of layers above layer zero.
    pub open spec fn num_hashed(&self) -> nat {
        (self.layers@.len() - 1) as nat
    }

    /// The parent at offset `j` of the pairs of layer `k` is the hash of that pair.
    pub open spec fn parent_ok(&self, parameter: Seq<u8>, k: int, j: int) -> bool {
        layers_parent_ok::<TH>(self.layers@, self.lowest_layer as int, parameter, k, j)
    }

    /// Layer `k` is padded and layer `k + 1` holds its parents.
    pub open spec fn link_ok(&self, k: int) -> bool {
        layers_link_ok(self.layers@, k)
    }

    /// The layer structure that authentication paths rely on.
    pub open spec fn wf(&self) -> bool {
        &&& self.layers@.len() >= 1
        &&& self.lowest_layer <= self.depth <= 255
        &&& self.num_hashed() <= self.depth - self.lowest_layer
        &&& (self.num_hashed() < self.depth - self.lowest_layer ==> self.layers@.last().nodes@.len() <= 1)
        &&& self.layers@.last().nodes@.len() >= 1
        &&& forall|k: int| 0 <= k < self.num_hashed() ==> #[trigger] self.link_ok(k)
    }

    /// Every parent in the subtree is the hash of its two children under `parameter`.
    pub open spec fn consistent(&self, parameter: Seq<u8>) -> bool {
        forall|k: int, j: int|
            0 <= k < self.num_hashed() && 0 <= j < self.layers@[k].nodes@.len() / 2 ==> #[trigger] self.parent_ok(
                parameter,
                k,
                j,
            )
    }

    /// The authentication path of `position` in the lowest layer: the sibling of
    /// the position's ancestor in each hashed layer.
    pub open spec fn path_spec(&self, position: nat) -> Seq<Seq<u8>> {
        Seq::new(self.num_hashed(), |l: int| self.layers@[l].node(sibling(shift(position, l as nat)) as int))
    }

    /// The root held by the subtree.
    pub open spec fn spec_root(&self) -> Seq<u8> {
        self.layers@.last().nodes@[0]@
    }

    /// Ancestors of held positions are held, and their siblings too.
    pub proof fn lemma_ancestor_held(&self, p: nat, l: nat)
        requires
            self.wf(),
            self.layers@[0].contains(p as int),
            l <= self.num_hashed(),
        ensures
            self.layers@[l as int].contains(shift(p, l) as int),
            l < self.num_hashed() ==> self.layers@[l as int].contains(sibling(shift(p, l)) as int),
        decreases l,
    {
        if l > 0 {
            self.lemma_ancestor_held(p, (l - 1) as nat);
            lemma_shift_succ(p, (l - 1) as nat);
            assert(self.link_ok(l - 1));
        }
        if l < self.num_hashed() {
            assert(self.link_ok(l as int));
        }
    }

    /// Folding the siblings of the ancestors of `p`, from layer `k` up, reaches
    /// the ancestor of `p` in the top layer.
    pub proof fn lemma_fold_up(&self, parameter: Seq<u8>, k: nat, p: nat, co: Seq<Seq<u8>>)
        requires
            self.wf(),
            self.consistent(parameter),
            k <= self.num_hashed(),
            self.layers@[k as int].contains(p as int),
            co.len() == self.num_hashed() - k,
            forall|i: int|
                0 <= i < co.len() ==> #[trigger] co[i] == self.layers@[k + i].node(
                    sibling(shift(p, i as nat)) as int,
                ),
        ensures
            fold_opening::<TH>(parameter, (self.lowest_layer + k) as nat, p, self.layers@[k as int].node(p as int), co)
                == self.layers@.last().node(shift(p, (self.num_hashed() - k) as nat) as int),
            self.layers@.last().contains(shift(p, (self.num_hashed() - k) as nat) as int),
        decreases self.num_hashed() - k,
    {
        let kk = k as int;
        if k < self.num_hashed() {
            assert(self.link_ok(kk));
            let lower = self.layers@[kk];
            let s = lower.start_index as int;
            let q = p / 2;
            let j = (q - s / 2) as int;
            assert(0 <= j < lower.nodes@.len() / 2);
            assert(self.parent_ok(parameter, kk, j));
            assert(co[0] == self.layers@[kk].node(sibling(p) as int));
            assert(lower.node((2 * q) as int) == lower.nodes@[2 * j]@);
            assert(lower.node((2 * q + 1) as int) == lower.nodes@[2 * j + 1]@);
            let rest = co.drop_first();
            assert forall|i: int| 0 <= i < rest.len() implies #[trigger] rest[i] == self.layers@[(k + 1) + i].node(
                sibling(shift(q, i as nat)) as int,
            ) by {
                assert(rest[i] == co[i + 1]);
                assert(shift(p, (i + 1) as nat) == shift(q, i as nat));
            }
            self.lemma_fold_up(parameter, k + 1, q, rest);
            assert(shift(p, (self.num_hashed() - k) as nat) == shift(q, (self.num_hashed() - (k + 1)) as nat));
        } else {
            assert(self.layers@.last() == self.layers@[kk]);
        }
    }

    /// The path of a held position folds, from that position's node, to the
    /// top-layer ancestor of the position.
    pub proof fn lemma_path_folds_to_top(&self, parameter: Seq<u8>, position: nat)
        requires
            self.wf(),
            self.consistent(parameter),
            self.layers@[0].contains(position as int),
        ensures
            fold_opening::<TH>(
                parameter,
                self.lowest_layer as nat,
                position,
                self.layers@[0].node(position as int),
                self.path_spec(position),
            ) == self.layers@.last().node(shift(position, self.num_hashed()) as int),
            self.layers@.last().contains(shift(position, self.num_hashed()) as int),
    {
        let co = self.path_spec(position);
        assert forall|i: int| 0 <= i < co.len() implies #[trigger] co[i] == self.layers@[0 + i].node(
            sibling(shift(position, i as nat)) as int,
        ) by {}
        self.lemma_fold_up(parameter, 0, position, co);
    }

    /// Builds from a contiguous run of nodes at `lowest_layer` up to the root.
    ///
    /// The input nodes must fit at `start_index`. The RNG supplies sparse padding.
    pub fn new_subtree(
        rng: &mut rand::rngs::StdRng,
        lowest_layer: usize,
        depth: usize,
        start_index: usize,
        parameter: &[u8; HASH_LENGTH],
        lowest_layer_nodes: Vec<[u8; HASH_LENGTH]>,
    ) -> (t: Self)
        requires
            lowest_layer < depth <= 255,
            depth - lowest_layer < usize::BITS,
            lowest_layer_nodes@.len() >= 1,
            start_index + lowest_layer_nodes@.len() <= pow2((depth - lowest_layer) as nat),
        ensures
            t.depth == depth,
            t.lowest_layer == lowest_layer,
            t.wf(),
            t.consistent(parameter@),
            t.num_hashed() == depth - lowest_layer,
            forall|k: int|
                0 <= k <= t.num_hashed() ==> {
                    &&& (#[trigger] t.layers@[k]).start_index == layer_start(start_index as int, k as nat)
                    &&& t.layers@[k].end() == layer_end(start_index + lowest_layer_nodes@.len(), k as nat)
                },
            forall|p: int|
                start_index <= p < start_index + lowest_layer_nodes@.len() ==> #[trigger] t.layers@[0].node(p)
                    == lowest_layer_nodes@[p - start_index]@,
            t.layers@.last().start_index == 0,
            t.layers@[0].end() <= pow2((depth - lowest_layer) as nat),
    {
        let ghost d = (depth - lowest_layer) as nat;
        let ghost a = start_index as int;
        let ghost e = start_index + lowest_layer_nodes@.len();
        let ghost input = lowest_layer_nodes@;
        proof {
            lemma_usize_pow2_no_overflow(d);
            lemma_layer_end_bound(e, d, 0);
            lemma_layer_start_le_shift(a, 0);
            lemma_pow2_unfold(d);
        }
        let mut layers: Vec<HashTreeLayer> = Vec::with_capacity(depth + 1 - lowest_layer);
        let first = HashTreeLayer::padded::<TH>(rng, lowest_layer_nodes, start_index);
        layers.push(first);
        let mut level = lowest_layer;
        while level < depth
            invariant
                lowest_layer <= level <= depth <= 255,
                d == depth - lowest_layer,
                d < usize::BITS,
                pow2(d) < usize::MAX,
                0 <= a,
                e == a + input.len(),
                e <= pow2(d),
                layers@.len() == level - lowest_layer + 1,
                forall|k: int|
                    0 <= k <= level - lowest_layer ==> {
                        &&& (#[trigger] layers@[k]).start_index == layer_start(a, k as nat)
                        &&& layers@[k].end() == layer_end(e, k as nat)
                        &&& layers@[k].is_padded()
                    },
                forall|k: int| 0 <= k < level - lowest_layer ==> #[trigger] layers_link_ok(layers@, k),
                forall|k: int, j: int|
                    0 <= k < level - lowest_layer && 0 <= j < layers@[k].nodes@.len() / 2 ==> #[trigger] layers_parent_ok::<TH>(
                        layers@,
                        lowest_layer as int,
                        parameter@,
                        k,
                        j,
                    ),
                forall|p: int| a <= p < e ==> #[trigger] layers@[0].node(p) == input[p - a]@,
            decreases depth - level,
        {
            let idx = level - lowest_layer;
            proof {
                lemma_layer_end_bound(e, d, idx as nat);
                lemma_layer_start_le_shift(a, idx as nat);
                lemma_layer_end_bound(e, d, (idx + 1) as nat);
                if 0 < idx < d {
                    lemma_pow2_strictly_increases((d - idx) as nat, d);
                }
                if d - idx >= 1 {
                    lemma_pow2_unfold((d - idx) as nat);
                }
            }
            let prev_start = layers[idx].start_index;
            let parent_start = (prev_start / 2) as usize;
            let parents = TH::compute_tree_layer(parameter, level as u8 + 1, parent_start, layers[idx].nodes.as_slice());
            let ghost prev = layers@;
            let layer = HashTreeLayer::padded::<TH>(rng, parents, parent_start);
            layers.push(layer);
            proof {
                let k = idx as int;
                assert(layers@[k] == prev[k]);
                assert forall|kk: int| 0 <= kk <= k + 1 implies {
                    &&& (#[trigger] layers@[kk]).start_index == layer_start(a, kk as nat)
                    &&& layers@[kk].end() == layer_end(e, kk as nat)
                    &&& layers@[kk].is_padded()
                } by {
                    if kk <= k {
                        assert(layers@[kk] == prev[kk]);
                    }
                }
                assert forall|kk: int| 0 <= kk < k + 1 implies #[trigger] layers_link_ok(layers@, kk) by {
                    if kk < k {
                        assert(layers_link_ok(prev, kk));
                        assert(layers@[kk] == prev[kk]);
                        assert(layers@[kk + 1] == prev[kk + 1]);
                    }
                }
                assert forall|kk: int, j: int|
                    0 <= kk < k + 1 && 0 <= j < layers@[kk].nodes@.len() / 2 implies #[trigger] layers_parent_ok::<TH>(
                        layers@,
                        lowest_layer as int,
                        parameter@,
                        kk,
                        j,
                    ) by {
                    if kk < k {
                        assert(layers_parent_ok::<TH>(prev, lowest_layer as int, parameter@, kk, j));
                        assert(layers@[kk] == prev[kk]);
                        assert(layers@[kk + 1] == prev[kk + 1]);
                    } else {
                        let q = prev[k].start_index / 2 + j;
                        assert(layers@[k + 1].node(q) == parents@[j]@);
                        assert(((lowest_layer + k + 1) as u8) == level as u8 + 1);
                    }
                }
                assert forall|p: int| a <= p < e implies #[trigger] layers@[0].node(p) == input[p - a]@ by {
                    assert(layers@[0] == prev[0]);
                }
            }
            level = level + 1;
        }
        let t = HashSubTree { depth: depth as u64, lowest_layer: lowest_layer as u64, layers, _hash: std::marker::PhantomData };
        proof {
            lemma_layer_start_le_shift(a, d);
            lemma_shift_small(a as nat, d);
            lemma_layer_end_bound(e, d, d);
            assert(t.layers@.last() == t.layers@[d as int]);
            assert forall|k: int| 0 <= k < t.num_hashed() implies #[trigger] t.link_ok(k) by {
                assert(layers_link_ok(t.layers@, k));
            }
            assert forall|k: int, j: int|
                0 <= k < t.num_hashed() && 0 <= j < t.layers@[k].nodes@.len() / 2 implies #[trigger] t.parent_ok(
                    parameter@,
                    k,
                    j,
                ) by {
                assert(layers_parent_ok::<TH>(t.layers@, lowest_layer as int, parameter@, k, j));
            }
            assert(t.layers@[0].end() == layer_end(e, 0));
        }
        t
    }

    /// The index of the bottom tree whose lowest layer this subtree starts in.
    pub open spec fn spec_bottom_index(&self) -> nat {
        (self.layers@[0].start_index as nat) / pow2((self.depth / 2) as nat)
    }

    /// Whether this is the bottom tree with index `b` of an even-depth tree: the
    /// aligned block of `2^(depth/2)` leaves and the layers above it up to its
    /// root, which is the single node of the top layer.
    pub open spec fn is_bottom_tree(&self, b: nat) -> bool {
        let h = (self.depth / 2) as nat;
        &&& self.lowest_layer == 0
        &&& self.depth % 2 == 0
        &&& self.num_hashed() == h
        &&& forall|k: int|
            0 <= k <= h ==> {
                &&& (#[trigger] self.layers@[k]).start_index == b * pow2((h - k) as nat)
                &&& self.layers@[k].nodes@.len() == pow2((h - k) as nat)
            }
    }

    /// Builds the upper half of an even-depth tree from bottom-tree roots.
    pub fn new_top_tree(
        rng: &mut rand::rngs::StdRng,
        depth: usize,
        start_index: usize,
        parameter: &[u8; HASH_LENGTH],
        roots_of_bottom_trees: Vec<[u8; HASH_LENGTH]>,
    ) -> (t: Self)
        requires
            depth % 2 == 0,
            2 <= depth <= 255,
            depth / 2 < usize::BITS,
            roots_of_bottom_trees@.len() >= 1,
            start_index + roots_of_bottom_trees@.len() <= pow2((depth / 2) as nat),
        ensures
            t.depth == depth,
            t.lowest_layer == depth / 2,
            t.wf(),
            t.consistent(parameter@),
            t.num_hashed() == depth - depth / 2,
            forall|p: int|
                start_index <= p < start_index + roots_of_bottom_trees@.len() ==> #[trigger] t.layers@[0].node(p)
                    == roots_of_bottom_trees@[p - start_index]@,
            t.layers@[0].start_index <= start_index,
            start_index + roots_of_bottom_trees@.len() <= t.layers@[0].end(),
            t.layers@.last().start_index == 0,
            t.layers@[0].end() <= pow2((depth - depth / 2) as nat),
            t.has_layer_shape(start_index as int, start_index + roots_of_bottom_trees@.len()),
    {
        let lowest_layer = depth / 2;
        let t = Self::new_subtree(rng, lowest_layer, depth, start_index, parameter, roots_of_bottom_trees);
        proof {
            assert(depth - depth / 2 == depth / 2);
            assert(t.layers@[0].start_index == layer_start(start_index as int, 0));
            assert(t.layers@[0].end() == layer_end(start_index + roots_of_bottom_trees@.len(), 0));
        }
        t
    }

    /// Builds one full bottom tree in an even-depth tree.
    pub fn new_bottom_tree(
        depth: usize,
        bottom_tree_index: usize,
        parameter: &[u8; HASH_LENGTH],
        leafs: Vec<[u8; HASH_LENGTH]>,
    ) -> (t: Self)
        requires
            depth > 2,
            depth % 2 == 0,
            depth <= 255,
            depth < usize::BITS,
            leafs@.len() == pow2((depth / 2) as nat),
            bottom_tree_index < pow2((depth / 2) as nat),
        ensures
            t.depth == depth,
            t.wf(),
            t.consistent(parameter@),
            t.is_bottom_tree(bottom_tree_index as nat),
            forall|p: int|
                bottom_tree_index * leafs@.len() <= p < (bottom_tree_index + 1) * leafs@.len() ==> #[trigger] t.layers@[0].node(p)
                    == leafs@[p - bottom_tree_index * leafs@.len()]@,
    {
        let h = depth / 2;
        let ghost hn = h as nat;
        let ghost b = bottom_tree_index as nat;
        proof {
            lemma_usize_pow2_no_overflow(hn);
            lemma_usize_pow2_no_overflow(depth as nat);
            lemma_pow2_adds(hn, hn);
            assert(b * pow2(hn) + pow2(hn) <= pow2(hn) * pow2(hn)) by (nonlinear_arith)
                requires b < pow2(hn);
            assert(b * pow2(hn) <= pow2(depth as nat));
        }
        let leafs_per_bottom_tree: usize = 1usize << h;
        proof {
            lemma_usize_shl_is_mul(1, h);
        }
        // A full bottom tree does not retain padding, so a fixed local RNG is sufficient.
        let mut dummy_rng = seeded_rng(0);
        let start_index = bottom_tree_index * leafs_per_bottom_tree;
        let ghost input = leafs@;
        let mut bottom_tree = Self::new_subtree(&mut dummy_rng, 0, depth, start_index, parameter, leafs);
        let ghost full = bottom_tree;
        proof {
            assert(depth - 0 == depth);
            assert((b + 1) * pow2(hn) == start_index + input.len()) by (nonlinear_arith)
                requires start_index == b * pow2(hn), input.len() == pow2(hn);
            assert forall|k: int| 0 <= k < hn implies {
                &&& (#[trigger] full.layers@[k]).start_index == b * pow2((hn - k) as nat)
                &&& full.layers@[k].end() == (b + 1) * pow2((hn - k) as nat)
            } by {
                lemma_aligned_layers(b, hn, k as nat);
                assert(full.layers@[k].start_index == layer_start(start_index as int, k as nat));
                assert(full.layers@[k].end() == layer_end(start_index + input.len(), k as nat));
            }
            // The layer at level h holds the root at position b.
            lemma_aligned_layers(b, hn, (hn - 1) as nat);
            lemma_double(b, 1);
            lemma_double(b + 1, 1);
            assert(pow2(1) == 2 && pow2(0) == 1) by {
                lemma2_to64();
            }
            assert(full.layers@[hn as int].start_index == layer_start(start_index as int, hn));
            assert(full.layers@[hn as int].end() == layer_end(start_index + input.len(), hn));
            assert(layer_start(start_index as int, (hn - 1) as nat) == b * pow2(1));
            assert(b * pow2(1) == 2 * b && (b + 1) * pow2(1) == 2 * (b + 1)) by (nonlinear_arith)
                requires
                    pow2(1) == 2,
            ;
            assert(layer_start(start_index as int, hn) == round_down_even(layer_start(start_index as int, (hn - 1) as nat) / 2));
            assert(layer_start(start_index as int, hn) == round_down_even(b as int));
            assert(layer_end(start_index + input.len(), hn) == round_up_even(layer_end(start_index + input.len(), (hn - 1) as nat) / 2));
            assert(layer_end(start_index + input.len(), hn) == round_up_even((b + 1) as int));
        }
        let bottom_tree_root = bottom_tree.layers[h].nodes[bottom_tree_index % 2];
        bottom_tree.layers.truncate(h);
        bottom_tree.layers.push(HashTreeLayer { start_index: bottom_tree_index as u64, nodes: vec![bottom_tree_root] });
        proof {
            let t = bottom_tree;
            assert(full.layers@[hn as int].node(b as int) == bottom_tree_root@);
            assert(t.layers@.len() == hn + 1);
            assert forall|k: int| 0 <= k < hn implies #[trigger] t.layers@[k] == full.layers@[k] by {}
            assert(t.layers@[hn as int].nodes@ == seq![bottom_tree_root]);
            assert forall|k: int| 0 <= k < t.num_hashed() implies #[trigger] t.link_ok(k) by {
                assert(full.link_ok(k));
                if k + 1 < hn {
                    assert(t.layers@[k + 1] == full.layers@[k + 1]);
                } else {
                    lemma_pow2_unfold(1);
                    assert(full.layers@[k].start_index == b * pow2(1));
                    assert(full.layers@[k].end() == (b + 1) * pow2(1));
                }
            }
            assert forall|k: int, j: int|
                0 <= k < t.num_hashed() && 0 <= j < t.layers@[k].nodes@.len() / 2 implies #[trigger] t.parent_ok(
                    parameter@,
                    k,
                    j,
                ) by {
                assert(full.parent_ok(parameter@, k, j));
                if k + 1 < hn {
                    assert(t.layers@[k + 1] == full.layers@[k + 1]);
                } else {
                    assert(full.layers@[k].start_index == b * pow2(1));
                    assert(full.layers@[k].end() == (b + 1) * pow2(1));
                    assert(j == 0);
                }
            }
            assert forall|k: int| 0 <= k <= hn implies {
                &&& (#[trigger] t.layers@[k]).start_index == b * pow2((hn - k) as nat)
                &&& t.layers@[k].nodes@.len() == pow2((hn - k) as nat)
            } by {
                if k < hn {
                    assert(full.layers@[k].start_index == b * pow2((hn - k) as nat));
                    assert(full.layers@[k].end() == (b + 1) * pow2((hn - k) as nat));
                    assert((b + 1) * pow2((hn - k) as nat) == b * pow2((hn - k) as nat) + pow2((hn - k) as nat)) by (nonlinear_arith);
                } else {
                    assert(pow2(0) == 1) by {
                        lemma2_to64();
                    }
                }
            }
            assert forall|p: int|
                bottom_tree_index * input.len() <= p < (bottom_tree_index + 1) * input.len() implies #[trigger] t.layers@[0].node(p)
                    == input[p - bottom_tree_index * input.len()]@ by {
                assert(t.layers@[0] == full.layers@[0]);
                assert((bottom_tree_index + 1) * input.len() == start_index + input.len()) by (nonlinear_arith)
                    requires start_index == bottom_tree_index * input.len();
            }
        }
        bottom_tree
    }

    /// Each layer `k` spans the positions that building over `[first, end)`
    /// gives it: from `layer_start(first, k)` to `layer_end(end, k)`.
    pub open spec fn has_layer_shape(&self, first: int, end: int) -> bool {
        forall|k: int|
            0 <= k <= self.num_hashed() ==> (#[trigger] self.layers@[k]).start_index == layer_start(first, k as nat)
                && self.layers@[k].end() == layer_end(end, k as nat)
    }

    /// The two subtrees have the same depth, lowest layer, layer positions
    /// and nodes.
    pub open spec fn same_nodes(&self, other: &Self) -> bool {
        &&& self.depth == other.depth
        &&& self.lowest_layer == other.lowest_layer
        &&& self.layers@.len() == other.layers@.len()
        &&& forall|k: int|
            0 <= k < self.layers@.len() ==> (#[trigger] self.layers@[k]).start_index == other.layers@[k].start_index
                && self.layers@[k].nodes@.len() == other.layers@[k].nodes@.len()
        &&& forall|k: int, i: int|
            0 <= k < self.layers@.len() && 0 <= i < self.layers@[k].nodes@.len() ==> (
            #[trigger] self.layers@[k].nodes@[i])@ == other.layers@[k].nodes@[i]@
    }

    /// Whether the two subtrees have the same depth, lowest layer, layer
    /// positions and nodes.
    pub fn same_nodes_as(&self, other: &Self) -> (r: bool)
        ensures
            r == self.same_nodes(other),
    {
        if self.depth != other.depth || self.lowest_layer != other.lowest_layer || self.layers.len()
            != other.layers.len() {
            return false;
        }
        let n = self.layers.len();
        let mut k: usize = 0;
        while k < n
            invariant
                n == self.layers@.len(),
                n == other.layers@.len(),
                k <= n,
                forall|kk: int|
                    0 <= kk < k ==> (#[trigger] self.layers@[kk]).start_index == other.layers@[kk].start_index
                        && self.layers@[kk].nodes@.len() == other.layers@[kk].nodes@.len(),
                forall|kk: int, i: int|
                    0 <= kk < k && 0 <= i < self.layers@[kk].nodes@.len() ==> (#[trigger] self.layers@[kk].nodes@[i])@
                        == other.layers@[kk].nodes@[i]@,
            decreases n - k,
        {
            let a = &self.layers[k];
            let b = &other.layers[k];
            if a.start_index != b.start_index || a.nodes.len() != b.nodes.len() {
                proof {
                    assert(!(self.layers@[k as int].start_index == other.layers@[k as int].start_index
                        && self.layers@[k as int].nodes@.len() == other.layers@[k as int].nodes@.len()));
                }
                return false;
            }
            let m = a.nodes.len();
            let mut i: usize = 0;
            while i < m
                invariant
                    n == self.layers@.len(),
                    n == other.layers@.len(),
                    k < n,
                    *a == self.layers@[k as int],
                    *b == other.layers@[k as int],
                    m == a.nodes@.len(),
                    m == b.nodes@.len(),
                    i <= m,
                    forall|ii: int| 0 <= ii < i ==> (#[trigger] a.nodes@[ii])@ == b.nodes@[ii]@,
                decreases m - i,
            {
                if !bytes32_eq(&a.nodes[i], &b.nodes[i]) {
                    proof {
                        let kk = k as int;
                        let ii = i as int;
                        assert(0 <= ii < self.layers@[kk].nodes@.len());
                        assert(self.layers@[kk].nodes@[ii]@ != other.layers@[kk].nodes@[ii]@);
                        if self.same_nodes(other) {
                            assert(self.layers@[kk].nodes@[ii]@ == other.layers@[kk].nodes@[ii]@);
                        }
                    }
                    return false;
                }
                i = i + 1;
            }
            proof {
                assert forall|kk: int, ii: int|
                    0 <= kk < k + 1 && 0 <= ii < self.layers@[kk].nodes@.len() implies (
                    #[trigger] self.layers@[kk].nodes@[ii])@ == other.layers@[kk].nodes@[ii]@ by {
                    if kk == k {
                        assert(a.nodes@[ii]@ == b.nodes@[ii]@);
                    }
                }
            }
            k = k + 1;
        }
        true
    }

    /// Whether the subtree has the layer structure of `wf`.
    pub fn check_wf(&self) -> (r: bool)
        ensures
            r == self.wf(),
    {
        let n = self.layers.len();
        if n == 0 {
            return false;
        }
        if !(self.lowest_layer <= self.depth && self.depth <= 255) {
            return false;
        }
        let hashed = n - 1;
        let span = self.depth - self.lowest_layer;
        if hashed as u64 > span {
            return false;
        }
        let last_len = self.layers[hashed].nodes.len();
        if (hashed as u64) < span && last_len > 1 {
            return false;
        }
        if last_len < 1 {
            return false;
        }
        let mut k: usize = 0;
        while k < hashed
            invariant
                n == self.layers@.len(),
                hashed == n - 1,
                k <= hashed,
                forall|i: int| 0 <= i < k ==> #[trigger] self.link_ok(i),
            decreases hashed - k,
        {
            let lower = &self.layers[k];
            let upper = &self.layers[k + 1];
            let lower_len = lower.nodes.len();
            let upper_len = upper.nodes.len();
            let padded = lower.start_index % 2 == 0 && lower_len % 2 == 0 && lower_len >= 2;
            let covered = upper.start_index <= lower.start_index / 2 && (lower.start_index / 2) as u128
                + (lower_len / 2) as u128 <= upper.start_index as u128 + upper_len as u128;
            if !(padded && covered) {
                proof {
                    assert(!self.link_ok(k as int));
                }
                return false;
            }
            k = k + 1;
        }
        true
    }

    /// Whether every parent in a well-formed subtree is the hash of its two
    /// children under `parameter`.
    pub fn check_consistent(&self, parameter: &[u8; HASH_LENGTH]) -> (r: bool)
        requires
            self.wf(),
        ensures
            r == self.consistent(parameter@),
    {
        let hashed = self.layers.len() - 1;
        let mut k: usize = 0;
        while k < hashed
            invariant
                self.wf(),
                hashed == self.num_hashed(),
                k <= hashed,
                forall|i: int, j: int|
                    0 <= i < k && 0 <= j < self.layers@[i].nodes@.len() / 2 ==> #[trigger] self.parent_ok(
                        parameter@,
                        i,
                        j,
                    ),
            decreases hashed - k,
        {
            let lower = &self.layers[k];
            let upper = &self.layers[k + 1];
            let lower_len = lower.nodes.len();
            let upper_len = upper.nodes.len();
            let half = lower_len / 2;
            let level = (self.lowest_layer as usize + k + 1) as u8;
            proof {
                assert(self.link_ok(k as int));
            }
            let mut j: usize = 0;
            while j < half
                invariant
                    self.wf(),
                    hashed == self.num_hashed(),
                    k < hashed,
                    *lower == self.layers@[k as int],
                    *upper == self.layers@[k + 1],
                    lower_len == lower.nodes@.len(),
                    upper_len == upper.nodes@.len(),
                    half == lower_len / 2,
                    self.link_ok(k as int),
                    level == (self.lowest_layer + k + 1) as u8,
                    level >= 1,
                    j <= half,
                    forall|i: int, jj: int|
                        0 <= i < k && 0 <= jj < self.layers@[i].nodes@.len() / 2 ==> #[trigger] self.parent_ok(
                            parameter@,
                            i,
                            jj,
                        ),
                    forall|jj: int| 0 <= jj < j ==> #[trigger] self.parent_ok(parameter@, k as int, jj),
                decreases half - j,
            {
                let q: u128 = (lower.start_index / 2) as u128 + j as u128;
                let tweak = TH::tree_tweak(level, q as u32);
                proof {
                    TH::lemma_node_accepts(level, q as u32);
                    assert(2 * j + 1 < lower.nodes@.len());
                    assert(upper.start_index <= q < upper.start_index + upper.nodes@.len());
                }
                let pair = [lower.nodes[2 * j], lower.nodes[2 * j + 1]];
                let parent = TH::apply(parameter, &tweak, &pair);
                let at_exec: usize = (q - upper.start_index as u128) as usize;
                let stored = upper.nodes[at_exec];
                proof {
                    assert(domain_views(pair@) =~= seq![lower.nodes@[2 * j]@, lower.nodes@[2 * j + 1]@]);
                }
                proof {
                    let qq = self.layers@[k as int].start_index / 2 + j;
                    let at = (qq - upper.start_index) as int;
                    assert(qq == q);
                    assert(at_exec == at);
                    assert(stored == upper.nodes@[at]);
                    assert(self.layers@[k + 1].node(qq) == upper.nodes@[at]@);
                    assert(parent@ == TH::spec_apply(
                        parameter@,
                        TH::spec_tree_tweak((self.lowest_layer + k + 1) as u8, qq as u32),
                        seq![lower.nodes@[2 * j]@, lower.nodes@[2 * j + 1]@],
                    ));
                }
                if !bytes32_eq(&parent, &stored) {
                    proof {
                        assert(!self.parent_ok(parameter@, k as int, j as int));
                    }
                    return false;
                }
                proof {
                    assert(self.parent_ok(parameter@, k as int, j as int));
                }
                j = j + 1;
            }
            k = k + 1;
        }
        true
    }

    /// Returns this subtree's root.
    pub fn root(&self) -> (r: [u8; HASH_LENGTH])
        requires
            self.layers@.len() >= 1,
            self.layers@.last().nodes@.len() >= 1,
        ensures
            r == self.layers@.last().nodes@[0],
            r@ == self.spec_root(),
    {
        let last = self.layers.len() - 1;
        self.layers[last].nodes[0]
    }

    /// Computes the path for a node in the lowest retained layer.
    pub fn path(&self, position: u32) -> (r: HashTreeOpening<TH>)
        requires
            self.wf(),
            self.layers@[0].contains(position as int),
        ensures
            r.view_path() == self.path_spec(position as nat),
    {
        let bound = (self.depth - self.lowest_layer) as usize;
        let ghost k = self.num_hashed();
        let mut co_path: Vec<[u8; HASH_LENGTH]> = Vec::with_capacity(bound);
        let mut current_position = position;
        let mut l: usize = 0;
        proof {
            self.lemma_ancestor_held(position as nat, 0);
        }
        while l < bound && self.layers[l].nodes.len() > 1
            invariant
                self.wf(),
                self.layers@[0].contains(position as int),
                bound == self.depth - self.lowest_layer,
                k == self.num_hashed(),
                l <= k,
                current_position == shift(position as nat, l as nat),
                domain_views(co_path@) == self.path_spec(position as nat).take(l as int),
            decreases k - l,
        {
            proof {
                if l == k && k < bound {
                    assert(self.layers@[l as int] == self.layers@.last());
                }
                assert(l < k);
                self.lemma_ancestor_held(position as nat, l as nat);
                lemma_shift_succ(position as nat, l as nat);
            }
            let sibling_position: u32 = if current_position % 2 == 0 {
                current_position + 1
            } else {
                current_position - 1
            };
            let sibling_position_in_vec = (sibling_position as u64 - self.layers[l].start_index) as usize;
            let node = self.layers[l].nodes[sibling_position_in_vec];
            proof {
                assert(sibling_position as nat == sibling(shift(position as nat, l as nat)));
                assert(node@ == self.layers@[l as int].node(sibling_position as int));
                assert(node@ == self.path_spec(position as nat)[l as int]);
            }
            let ghost before = co_path@;
            co_path.push(node);
            proof {
                assert(domain_views(co_path@) =~= domain_views(before).push(node@));
            }
            current_position = current_position / 2;
            proof {
                assert(domain_views(co_path@) =~= self.path_spec(position as nat).take(l + 1));
            }
            l = l + 1;
        }
        proof {
            if l < k {
                assert(self.link_ok(l as int));
            }
            assert(self.path_spec(position as nat).take(l as int) =~= self.path_spec(position as nat));
        }
        HashTreeOpening { co_path, _hash: std::marker::PhantomData }
    }
}

/// Joins authentication paths from matching top and bottom trees.
pub fn combined_path<TH: TweakableHash>(
    top_tree: &HashSubTree<TH>,
    bottom_tree: &HashSubTree<TH>,
    position: u32,
) -> (r: HashTreeOpening<TH>)
    requires
        bottom_tree.depth == top_tree.depth,
        bottom_tree.depth % 2 == 0,
        bottom_tree.depth / 2 < 64,
        bottom_tree.wf(),
        top_tree.wf(),
        (bottom_tree.layers@[0].start_index as nat) % pow2((bottom_tree.depth / 2) as nat) == 0,
        bottom_tree.layers@[0].contains(position as int),
        bottom_tree.spec_bottom_index() <= u32::MAX,
        top_tree.layers@[0].contains(bottom_tree.spec_bottom_index() as int),
    ensures
        r.view_path() == bottom_tree.path_spec(position as nat) + top_tree.path_spec(bottom_tree.spec_bottom_index()),
{
    let depth = bottom_tree.depth;
    let half = depth / 2;
    proof {
        lemma_u64_pow2_no_overflow(half as nat);
        lemma_u64_shl_is_mul(1, half);
    }
    let leafs_per_bottom_tree: u64 = 1u64 << half;
    let bottom_tree_index = bottom_tree.layers[0].start_index / leafs_per_bottom_tree;
    let bottom_opening = bottom_tree.path(position);
    let top_opening = top_tree.path(bottom_tree_index as u32);
    let mut co_path = bottom_opening.co_path;
    let ghost bottom_part = co_path@;
    let n = top_opening.co_path.len();
    for i in 0..n
        invariant
            n == top_opening.co_path@.len(),
            co_path@ == bottom_part + top_opening.co_path@.subrange(0, i as int),
    {
        co_path.push(top_opening.co_path[i]);
        assert(top_opening.co_path@.subrange(0, i + 1) =~= top_opening.co_path@.subrange(0, i as int).push(
            top_opening.co_path@[i as int],
        ));
    }
    assert(top_opening.co_path@.subrange(0, n as int) =~= top_opening.co_path@);
    assert(domain_views(co_path@) =~= domain_views(bottom_part) + domain_views(top_opening.co_path@));
    HashTreeOpening { co_path, _hash: std::marker::PhantomData }
}

/// Every node of the lowest layer of a subtree built by `new_subtree` from
/// level 0 (of depth at most 32) opens against the subtree's root: its path
/// verifies for the leaf that hashes to the node.
pub proof fn lemma_commit_open_verify<TH: TweakableHash>(
    t: &HashSubTree<TH>,
    parameter: Seq<u8>,
    position: u32,
    leaf: Seq<Seq<u8>>,
)
    requires
        t.wf(),
        t.consistent(parameter),
        t.lowest_layer == 0,
        t.depth <= 32,
        t.num_hashed() == t.depth,
        t.layers@.last().start_index == 0,
        t.layers@[0].end() <= pow2(t.depth as nat),
        t.layers@[0].contains(position as int),
        t.layers@[0].node(position as int) == TH::spec_apply(parameter, TH::spec_tree_tweak(0, position), leaf),
    ensures
        spec_hash_tree_verify::<TH>(parameter, t.spec_root(), position, leaf, t.path_spec(position as nat)),
{
    t.lemma_path_folds_to_top(parameter, position as nat);
    lemma_shift_small(position as nat, t.num_hashed());
}

/// A leaf of a bottom tree opens against the root of a top tree that holds
/// the bottom tree's root at the bottom tree's index: the bottom path followed
/// by the top path verifies.
pub proof fn lemma_combined_open_verify<TH: TweakableHash>(
    top: &HashSubTree<TH>,
    bottom: &HashSubTree<TH>,
    parameter: Seq<u8>,
    b: nat,
    position: u32,
    leaf: Seq<Seq<u8>>,
)
    requires
        bottom.wf(),
        bottom.consistent(parameter),
        bottom.is_bottom_tree(b),
        top.wf(),
        top.consistent(parameter),
        top.depth == bottom.depth <= 32,
        top.lowest_layer == top.depth / 2,
        top.num_hashed() == top.depth - top.depth / 2,
        top.layers@.last().start_index == 0,
        top.layers@[0].end() <= pow2(top.num_hashed()),
        top.layers@[0].contains(b as int),
        top.layers@[0].node(b as int) == bottom.spec_root(),
        bottom.layers@[0].contains(position as int),
        bottom.layers@[0].node(position as int) == TH::spec_apply(parameter, TH::spec_tree_tweak(0, position), leaf),
    ensures
        spec_hash_tree_verify::<TH>(
            parameter,
            top.spec_root(),
            position,
            leaf,
            bottom.path_spec(position as nat) + top.path_spec(b),
        ),
{
    let h = (bottom.depth / 2) as nat;
    let bp = bottom.path_spec(position as nat);
    let tp = top.path_spec(b);
    let leaf_node = TH::spec_apply(parameter, TH::spec_tree_tweak(0, position), leaf);
    bottom.lemma_path_folds_to_top(parameter, position as nat);
    assert(pow2(0) == 1) by {
        lemma2_to64();
    }
    assert(bottom.layers@[h as int].start_index == b * pow2(0));
    assert(bottom.layers@.last() == bottom.layers@[h as int]);
    assert(shift(position as nat, h) == b);
    lemma_fold_opening_concat::<TH>(parameter, 0, position as nat, leaf_node, bp, tp);
    top.lemma_path_folds_to_top(parameter, b);
    lemma_shift_small(b, top.num_hashed());
    // The position lies below 2^depth.
    lemma_pow2_adds(h, h);
    assert(bottom.layers@[0].start_index == b * pow2(h));
    assert(bottom.layers@[0].nodes@.len() == pow2(h));
    assert((position as nat) < pow2(h) * pow2(h)) by (nonlinear_arith)
        requires
            position < b * pow2(h) + pow2(h),
            b < pow2(h),
    ;
    assert(h + h == bottom.depth);
}

/// Verifies a Merkle authentication path.
///
/// `leaf` contains the chain ends; verification hashes them into the leaf node.
pub fn hash_tree_verify<TH: TweakableHash>(
    parameter: &[u8; HASH_LENGTH],
    root: &[u8; HASH_LENGTH],
    position: u32,
    leaf: &[[u8; HASH_LENGTH]],
    opening: &HashTreeOpening<TH>,
) -> (r: bool)
    ensures
        r == spec_hash_tree_verify::<TH>(parameter@, root@, position, domain_views(leaf@), opening.view_path()),
{
    let depth = opening.co_path.len();
    if depth > 32 {
        return false;
    }
    let num_leafs: u64 = 1u64 << (depth as u64);
    proof {
        lemma2_to64();
        if depth < 32 {
            lemma_pow2_strictly_increases(depth as nat, 32);
        }
        lemma_u64_shl_is_mul(1, depth as u64);
    }
    if (position as u64) >= num_leafs {
        return false;
    }
    let ghost path = opening.view_path();
    let tweak = TH::tree_tweak(0, position);
    proof {
        TH::lemma_leaf_accepts(position, leaf@.len());
    }
    let mut current_node = TH::apply(parameter, &tweak, leaf);
    let ghost leaf_node = current_node@;
    let mut current_position = position;
    let mut l: usize = 0;
    assert(path.skip(0) =~= path);
    while l < depth
        invariant
            depth == opening.co_path@.len() <= 32,
            path == opening.view_path(),
            l <= depth,
            fold_opening::<TH>(parameter@, 0, position as nat, leaf_node, path) == fold_opening::<TH>(
                parameter@,
                l as nat,
                current_position as nat,
                current_node@,
                path.skip(l as int),
            ),
        decreases depth - l,
    {
        let ghost rest = path.skip(l as int);
        let sibling = opening.co_path[l];
        let children = if current_position % 2 == 0 {
            [current_node, sibling]
        } else {
            [sibling, current_node]
        };
        current_position = current_position / 2;
        let tweak = TH::tree_tweak((l + 1) as u8, current_position);
        proof {
            TH::lemma_node_accepts((l + 1) as u8, current_position);
            assert(rest[0] == sibling@);
            assert(rest.drop_first() =~= path.skip(l + 1));
        }
        let ghost before = current_node@;
        current_node = TH::apply(parameter, &tweak, &children);
        proof {
            if children@[0] == sibling {
                assert(domain_views(children@) =~= seq![rest[0], before]);
            } else {
                assert(domain_views(children@) =~= seq![before, rest[0]]);
            }
        }
        l = l + 1;
    }
    proof {
        assert(path.skip(depth as int) =~= Seq::<Seq<u8>>::empty());
    }
    bytes32_eq(&current_node, root)
}

} // verus!
