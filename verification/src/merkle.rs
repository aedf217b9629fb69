//! Keccak-256 Merkle commitments over the node states of a trace.
use vstd::prelude::*;
use tiny_keccak::{Hasher, Keccak};
use crate::field::STATE_WIDTH;

verus! {

/// The Keccak-256 digest of `data`.
pub uninterp spec fn keccak256(data: Seq<u8>) -> Seq<u8>;

/// Computes the Keccak-256 digest of `data` with `tiny_keccak::Keccak::v256`:
/// one `update` with all of `data`, then `finalize` into 32 bytes. The
/// contract names the digest `keccak256(data)`; nothing else about it is
/// claimed.
#[verifier::external_body]
pub(crate) fn keccak256_digest(data: &[u8]) -> (h: [u8; 32])
    ensures
        h@ == keccak256(data@),
{
    let mut h = [0u8; 32];
    let mut k = Keccak::v256();
    k.update(data);
    k.finalize(&mut h);
    h
}

/// The little-endian bytes of `x`.
pub open spec fn u32_le_bytes(x: u32) -> Seq<u8> {
    seq![
        (x % 256) as u8,
        ((x / 256) % 256) as u8,
        ((x / 65536) % 256) as u8,
        (x / 16777216) as u8,
    ]
}

/// The little-endian bytes of the first `k` entries of a node state.
pub open spec fn state_bytes_prefix(s: [u32; STATE_WIDTH], k: nat) -> Seq<u8>
    decreases k,
{
    if k == 0 {
        Seq::empty()
    } else {
        state_bytes_prefix(s, (k - 1) as nat) + u32_le_bytes(s[k - 1])
    }
}

/// The bytes hashed for a node: the little-endian bytes of its entries.
pub open spec fn state_bytes(s: [u32; STATE_WIDTH]) -> Seq<u8> {
    state_bytes_prefix(s, STATE_WIDTH as nat)
}

/// The Merkle leaf of a node state.
pub open spec fn leaf_hash(s: [u32; STATE_WIDTH]) -> Seq<u8> {
    keccak256(state_bytes(s))
}

/// The leaves of a sequence of node states.
pub open spec fn leaf_layer(nodes: Seq<[u32; STATE_WIDTH]>) -> Seq<Seq<u8>> {
    Seq::new(nodes.len(), |i: int| leaf_hash(nodes[i]))
}

/// The hash of the pair starting at position `2j` of a layer; an odd last
/// entry is paired with itself.
pub open spec fn pair_hash(layer: Seq<Seq<u8>>, j: int) -> Seq<u8> {
    if 2 * j + 1 < layer.len() {
        keccak256(layer[2 * j] + layer[2 * j + 1])
    } else {
        keccak256(layer[2 * j] + layer[2 * j])
    }
}

/// The layer above `layer`.
pub open spec fn parent_layer(layer: Seq<Seq<u8>>) -> Seq<Seq<u8>> {
    Seq::new(((layer.len() + 1) / 2) as nat, |j: int| pair_hash(layer, j))
}

/// All layers of the Merkle tree over `layer`, leaves first, up to the first
/// layer with at most one entry.
pub open spec fn merkle_layers(layer: Seq<Seq<u8>>) -> Seq<Seq<Seq<u8>>>
    decreases layer.len(),
{
    if layer.len() <= 1 {
        seq![layer]
    } else {
        seq![layer] + merkle_layers(parent_layer(layer))
    }
}

/// The Merkle root over `leaves`.
pub open spec fn merkle_root(leaves: Seq<Seq<u8>>) -> Seq<u8> {
    merkle_layers(leaves).last()[0]
}

/// `tree` is a Merkle tree: every layer but the last has more than one
/// entry and the next layer is its parent layer; the last has at most one.
pub open spec fn tree_shape(tree: Seq<Seq<Seq<u8>>>) -> bool {
    &&& tree.len() >= 1
    &&& forall|l: int| 0 <= l < tree.len() - 1 ==> #[trigger] tree[l].len() > 1
    &&& forall|l: int| 0 <= l < tree.len() - 1 ==> tree[l + 1] == parent_layer(#[trigger] tree[l])
    &&& tree.last().len() <= 1
}

/// The position of the partner of entry `idx` in a layer of length `len`.
pub open spec fn sibling(idx: nat, len: nat) -> nat {
    if idx % 2 == 0 {
        if idx + 1 < len {
            idx + 1
        } else {
            idx
        }
    } else {
        (idx - 1) as nat
    }
}

/// The authentication path of entry `idx` of layer `l` of `tree`: the
/// partner of the entry in each layer below the last.
pub open spec fn tree_path(tree: Seq<Seq<Seq<u8>>>, l: int, idx: nat) -> Seq<Seq<u8>>
    decreases tree.len() - l,
{
    if l >= tree.len() - 1 || l < 0 {
        Seq::empty()
    } else {
        seq![tree[l][sibling(idx, tree[l].len()) as int]] + tree_path(tree, l + 1, idx / 2)
    }
}

/// The authentication path of leaf `idx` in the Merkle tree over `leaves`.
pub open spec fn merkle_path(leaves: Seq<Seq<u8>>, idx: nat) -> Seq<Seq<u8>> {
    tree_path(merkle_layers(leaves), 0, idx)
}

/// The root recomputed from a leaf hash `h` at position `idx` and a path:
/// at each level the current hash goes left when the position is even.
pub open spec fn fold_path(h: Seq<u8>, idx: nat, path: Seq<Seq<u8>>) -> Seq<u8>
    decreases path.len(),
{
    if path.len() == 0 {
        h
    } else {
        let next = if idx % 2 == 0 {
            keccak256(h + path[0])
        } else {
            keccak256(path[0] + h)
        };
        fold_path(next, idx / 2, path.drop_first())
    }
}

/// The layers of the Merkle tree over a layer form a tree that starts with
/// that layer.
pub proof fn lemma_merkle_layers_shape(layer: Seq<Seq<u8>>)
    ensures
        tree_shape(merkle_layers(layer)),
        merkle_layers(layer)[0] == layer,
        layer.len() >= 1 ==> merkle_layers(layer).last().len() == 1,
    decreases layer.len(),
{
    if layer.len() > 1 {
        let p = parent_layer(layer);
        lemma_merkle_layers_shape(p);
        let t = merkle_layers(layer);
        let tp = merkle_layers(p);
        assert(t =~= seq![layer] + tp);
        assert forall|l: int| 0 <= l < t.len() - 1 implies #[trigger] t[l].len() > 1 && t[l + 1]
            == parent_layer(t[l]) by {
            if l > 0 {
                assert(t[l] == tp[l - 1]);
                assert(t[l + 1] == tp[l]);
            }
        }
    }
}

/// A Merkle tree is determined by its leaves.
pub proof fn lemma_tree_shape_unique(tree: Seq<Seq<Seq<u8>>>)
    requires
        tree_shape(tree),
    ensures
        tree == merkle_layers(tree[0]),
    decreases tree.len(),
{
    if tree.len() > 1 {
        let rest = tree.drop_first();
        assert forall|l: int| 0 <= l < rest.len() - 1 implies #[trigger] rest[l].len() > 1 && rest[l
            + 1] == parent_layer(rest[l]) by {
            assert(rest[l] == tree[l + 1]);
            assert(tree[l + 1].len() > 1);
            assert(tree[l + 2] == parent_layer(tree[l + 1]));
        }
        lemma_tree_shape_unique(rest);
        assert(tree[0].len() > 1);
        assert(tree[1] == parent_layer(tree[0]));
        assert(tree =~= seq![tree[0]] + rest);
    }
}

/// The entries of a parent layer are the hashes of the pairs below them.
pub proof fn lemma_fold_step(layer: Seq<Seq<u8>>, idx: nat)
    requires
        idx < layer.len(),
        layer.len() > 1,
    ensures
        idx / 2 < parent_layer(layer).len(),
        parent_layer(layer)[(idx / 2) as int] == (if idx % 2 == 0 {
            keccak256(layer[idx as int] + layer[sibling(idx, layer.len()) as int])
        } else {
            keccak256(layer[sibling(idx, layer.len()) as int] + layer[idx as int])
        }),
{
}

/// Folding the path of an entry of layer `l` up a Merkle tree gives the root.
pub proof fn lemma_tree_path_folds(tree: Seq<Seq<Seq<u8>>>, l: int, idx: nat)
    requires
        tree_shape(tree),
        0 <= l < tree.len(),
        idx < tree[l].len(),
    ensures
        fold_path(tree[l][idx as int], idx, tree_path(tree, l, idx)) == tree.last()[0],
        tree_path(tree, l, idx).len() == tree.len() - 1 - l,
    decreases tree.len() - l,
{
    if l < tree.len() - 1 {
        assert(tree[l].len() > 1);
        assert(tree[l + 1] == parent_layer(tree[l]));
        lemma_fold_step(tree[l], idx);
        lemma_tree_path_folds(tree, l + 1, idx / 2);
        let path = tree_path(tree, l, idx);
        assert(path.drop_first() =~= tree_path(tree, l + 1, idx / 2));
    } else {
        assert(idx == 0);
    }
}

/// A Merkle path opens the root. For every leaf of a non-empty layer,
/// folding its authentication path from its hash gives the Merkle root.
pub proof fn lemma_merkle_path_opens_root(leaves: Seq<Seq<u8>>, idx: nat)
    requires
        idx < leaves.len(),
    ensures
        fold_path(leaves[idx as int], idx, merkle_path(leaves, idx)) == merkle_root(leaves),
{
    lemma_merkle_layers_shape(leaves);
    lemma_tree_path_folds(merkle_layers(leaves), 0, idx);
}

/// The four bytes of `x`, least significant first, recompose `x`.
pub proof fn lemma_u32_le_bytes(x: u32)
    ensures
        u32_le_bytes(x).len() == 4,
        x == u32_le_bytes(x)[0] + 256 * u32_le_bytes(x)[1] + 65536 * u32_le_bytes(x)[2]
            + 16777216 * u32_le_bytes(x)[3],
{
    let b = u32_le_bytes(x);
    assert(x / 16777216 < 256) by (bit_vector);
    assert(b[0] == x % 256 && b[1] == (x / 256) % 256 && b[2] == (x / 65536) % 256 && b[3] == x
        / 16777216);
    assert(x == x % 256 + 256 * ((x / 256) % 256) + 65536 * ((x / 65536) % 256) + 16777216 * (x
        / 16777216)) by (bit_vector);
}

/// The bytes hashed for a node are the little-endian bytes of its entries
/// in index order, four bytes each, and the leaf is their Keccak-256 digest.
pub proof fn lemma_state_bytes(s: [u32; STATE_WIDTH])
    ensures
        state_bytes(s) == u32_le_bytes(s[0]) + u32_le_bytes(s[1]) + u32_le_bytes(s[2])
            + u32_le_bytes(s[3]) + u32_le_bytes(s[4]),
        state_bytes(s).len() == 20,
        forall|k: int, j: int|
            0 <= k < STATE_WIDTH && 0 <= j < 4 ==> #[trigger] state_bytes(s)[4 * k + j]
                == u32_le_bytes(s[k])[j],
        leaf_hash(s) == keccak256(
            u32_le_bytes(s[0]) + u32_le_bytes(s[1]) + u32_le_bytes(s[2]) + u32_le_bytes(s[3])
                + u32_le_bytes(s[4]),
        ),
{
    reveal_with_fuel(state_bytes_prefix, 6);
    let b = state_bytes(s);
    assert(b =~= u32_le_bytes(s[0]) + u32_le_bytes(s[1]) + u32_le_bytes(s[2]) + u32_le_bytes(s[3])
        + u32_le_bytes(s[4]));
    assert forall|k: int, j: int| 0 <= k < STATE_WIDTH && 0 <= j < 4 implies #[trigger] b[4 * k + j]
        == u32_le_bytes(s[k])[j] by {
        if k == 0 {
        } else if k == 1 {
        } else if k == 2 {
        } else if k == 3 {
        } else {
        }
    }
}

/// Every entry of a parent layer hashes one pair of the layer below: entry
/// `j` hashes entries `2j` and `2j + 1`, and where the layer has odd length
/// its last entry is hashed with itself, whatever the length. The parent
/// layer has one entry per pair, rounding up.
pub proof fn lemma_parent_layer(layer: Seq<Seq<u8>>)
    ensures
        parent_layer(layer).len() == (layer.len() + 1) / 2,
        forall|j: int|
            0 <= j && 2 * j + 1 < layer.len() ==> #[trigger] parent_layer(layer)[j] == keccak256(
                layer[2 * j] + layer[2 * j + 1],
            ),
        layer.len() % 2 == 1 ==> parent_layer(layer)[(layer.len() - 1) / 2] == keccak256(
            layer[layer.len() - 1] + layer[layer.len() - 1],
        ),
{
}

/// The partner of an entry in a layer: an even entry pairs with the next one,
/// an odd entry with the previous one, and the odd last entry of a layer of
/// odd length with itself, whatever the length.
pub proof fn lemma_sibling(idx: nat, len: nat)
    requires
        idx < len,
    ensures
        sibling(idx, len) < len,
        sibling(idx, len) / 2 == idx / 2,
        idx % 2 == 0 && idx + 1 < len ==> sibling(idx, len) == idx + 1,
        idx % 2 == 1 ==> sibling(idx, len) == idx - 1,
        len % 2 == 1 && idx == len - 1 ==> sibling(idx, len) == idx,
{
}

/// Folding an authentication path takes one level per path entry: the
/// current hash goes left of its partner at an even position and right of it
/// at an odd one, and the position halves at each level.
pub proof fn lemma_fold_path_step(h: Seq<u8>, idx: nat, p: Seq<u8>, rest: Seq<Seq<u8>>)
    ensures
        fold_path(h, idx, seq![p] + rest) == fold_path(
            if idx % 2 == 0 { keccak256(h + p) } else { keccak256(p + h) },
            idx / 2,
            rest,
        ),
        fold_path(h, idx, Seq::empty()) == h,
{
    assert((seq![p] + rest).drop_first() =~= rest);
}

/// The leaves are the leaf hashes of the nodes, one per node, in node
/// order.
pub proof fn lemma_leaf_layer(nodes: Seq<[u32; STATE_WIDTH]>)
    ensures
        leaf_layer(nodes).len() == nodes.len(),
        forall|i: int| 0 <= i < nodes.len() ==> #[trigger] leaf_layer(nodes)[i] == leaf_hash(nodes[i]),
{
}

/// The root of a single leaf is that leaf; the root of more leaves is the
/// root of their parent layer.
pub proof fn lemma_merkle_root_step(leaves: Seq<Seq<u8>>)
    ensures
        leaves.len() == 1 ==> merkle_root(leaves) == leaves[0],
        leaves.len() > 1 ==> merkle_root(leaves) == merkle_root(parent_layer(leaves)),
{
    if leaves.len() > 1 {
        lemma_merkle_layers_shape(parent_layer(leaves));
        assert(merkle_layers(leaves).last() == merkle_layers(parent_layer(leaves)).last());
    }
}

/// The authentication path of a leaf starts with its partner in the leaf
/// layer and continues with the path of its parent one layer up; a single
/// leaf has an empty path.
pub proof fn lemma_merkle_path_step(leaves: Seq<Seq<u8>>, idx: nat)
    requires
        idx < leaves.len(),
    ensures
        leaves.len() == 1 ==> merkle_path(leaves, idx) == Seq::<Seq<u8>>::empty(),
        leaves.len() > 1 ==> merkle_path(leaves, idx) == seq![leaves[sibling(idx, leaves.len()) as int]]
            + merkle_path(parent_layer(leaves), idx / 2),
{
    lemma_merkle_layers_shape(leaves);
    if leaves.len() > 1 {
        let t = merkle_layers(leaves);
        let tp = merkle_layers(parent_layer(leaves));
        assert(t =~= seq![leaves] + tp);
        assert(t.skip(1) =~= tp);
        lemma_tree_path_shift(t, tp, 1);
        assert(t[0] == leaves);
    }
}

/// The path from layer `l + d` of a tree equals the path from layer `l` of
/// the tree with its first `d` layers dropped.
proof fn lemma_tree_path_shift(t: Seq<Seq<Seq<u8>>>, tp: Seq<Seq<Seq<u8>>>, d: int)
    requires
        0 <= d <= t.len(),
        tp == t.skip(d),
    ensures
        forall|l: int, i: nat| 0 <= l ==> #[trigger] tree_path(tp, l, i) == tree_path(t, l + d, i),
{
    assert forall|l: int, i: nat| 0 <= l implies #[trigger] tree_path(tp, l, i) == tree_path(t, l + d, i) by {
        lemma_tree_path_shift_at(t, tp, d, l, i);
    }
}

proof fn lemma_tree_path_shift_at(t: Seq<Seq<Seq<u8>>>, tp: Seq<Seq<Seq<u8>>>, d: int, l: int, i: nat)
    requires
        0 <= d <= t.len(),
        l >= 0,
        tp == t.skip(d),
    ensures
        tree_path(tp, l, i) == tree_path(t, l + d, i),
    decreases tp.len() - l,
{
    if l < tp.len() - 1 {
        lemma_tree_path_shift_at(t, tp, d, l + 1, i / 2);
        assert(tp[l] == t[l + d]);
    }
}

} // verus!
