//! The optimized guest: it checks the flattened edges of the event graph and
//! commits to the state hash the host expects.
use vstd::prelude::*;

verus! {

/// What the guest commits to: the resolved state hash.
pub struct DAGMergeOutput {
    pub resolved_state_hash: [u8; 32],
}

/// The number of positions `k < len` at which `a` and `b` differ.
pub open spec fn differing_bytes(a: Seq<u8>, b: Seq<u8>, len: nat) -> nat
    decreases len,
{
    if len == 0 {
        0
    } else {
        differing_bytes(a, b, (len - 1) as nat) + if a[len - 1] != b[len - 1] {
            1nat
        } else {
            0nat
        }
    }
}

/// The number of differing byte positions over the first `k` edges.
pub open spec fn edge_differences(edges: Seq<([u8; 32], [u8; 32])>, k: nat) -> nat
    decreases k,
{
    if k == 0 {
        0
    } else {
        edge_differences(edges, (k - 1) as nat) + differing_bytes(
            edges[k - 1].0@,
            edges[k - 1].1@,
            32,
        )
    }
}

proof fn lemma_differing_bytes_bound(a: Seq<u8>, b: Seq<u8>, len: nat)
    ensures
        differing_bytes(a, b, len) <= len,
    decreases len,
{
    if len > 0 {
        lemma_differing_bytes_bound(a, b, (len - 1) as nat);
    }
}

proof fn lemma_edge_differences_bound(edges: Seq<([u8; 32], [u8; 32])>, k: nat)
    ensures
        edge_differences(edges, k) <= 32 * k,
    decreases k,
{
    if k > 0 {
        lemma_edge_differences_bound(edges, (k - 1) as nat);
        lemma_differing_bytes_bound(edges[k - 1].0@, edges[k - 1].1@, 32);
    }
}

/// Where two byte strings agree on the first `len` positions, no position
/// differs.
pub proof fn lemma_differing_bytes_equal(a: Seq<u8>, b: Seq<u8>, len: nat)
    requires
        forall|k: int| 0 <= k < len ==> a[k] == b[k],
    ensures
        differing_bytes(a, b, len) == 0,
    decreases len,
{
    if len > 0 {
        lemma_differing_bytes_equal(a, b, (len - 1) as nat);
    }
}

/// Where two byte strings differ at each of the first `len` positions, all
/// `len` positions count.
pub proof fn lemma_differing_bytes_all(a: Seq<u8>, b: Seq<u8>, len: nat)
    requires
        forall|k: int| 0 <= k < len ==> a[k] != b[k],
    ensures
        differing_bytes(a, b, len) == len,
    decreases len,
{
    if len > 0 {
        lemma_differing_bytes_all(a, b, (len - 1) as nat);
    }
}

/// Each position counts once where the bytes differ and not at all where
/// they agree: making position `k` agree lowers the count by one exactly
/// when the bytes there differed.
pub proof fn lemma_differing_bytes_position(a: Seq<u8>, b: Seq<u8>, len: nat, k: int)
    requires
        0 <= k < len,
        len <= a.len(),
    ensures
        differing_bytes(a, b, len) == differing_bytes(a.update(k, b[k]), b, len) + (if a[k] != b[k] {
            1int
        } else {
            0int
        }),
    decreases len,
{
    let a2 = a.update(k, b[k]);
    if k < len - 1 {
        lemma_differing_bytes_position(a, b, (len - 1) as nat, k);
        assert(a2[len - 1] == a[len - 1]);
    } else {
        lemma_differing_bytes_prefix_same(a, a2, b, (len - 1) as nat);
    }
}

/// The count over the first `len` positions depends only on those positions.
proof fn lemma_differing_bytes_prefix_same(a: Seq<u8>, a2: Seq<u8>, b: Seq<u8>, len: nat)
    requires
        forall|k: int| 0 <= k < len ==> a[k] == a2[k],
    ensures
        differing_bytes(a, b, len) == differing_bytes(a2, b, len),
    decreases len,
{
    if len > 0 {
        lemma_differing_bytes_prefix_same(a, a2, b, (len - 1) as nat);
    }
}

/// The count over a list of edges is the sum of the counts of its parts: a
/// single edge counts the differing positions of its two 32-byte ends, and
/// the count over two lists joined is the sum of their counts.
pub proof fn lemma_edge_differences_concat(e1: Seq<([u8; 32], [u8; 32])>, e2: Seq<([u8; 32], [u8; 32])>)
    ensures
        edge_differences(e1 + e2, (e1.len() + e2.len()) as nat) == edge_differences(e1, e1.len())
            + edge_differences(e2, e2.len()),
        e1.len() == 1 ==> edge_differences(e1, 1) == differing_bytes(e1[0].0@, e1[0].1@, 32),
        edge_differences(e1, 0) == 0,
    decreases e2.len(),
{
    lemma_edge_differences_prefix(e1 + e2, e1, e1.len());
    if e1.len() == 1 {
        reveal_with_fuel(edge_differences, 2);
    }
    if e2.len() > 0 {
        let e3 = e2.drop_last();
        lemma_edge_differences_concat(e1, e3);
        lemma_edge_differences_prefix(e1 + e2, e1 + e3, (e1.len() + e3.len()) as nat);
        lemma_edge_differences_prefix(e2, e3, e3.len());
        assert((e1 + e2)[e1.len() + e2.len() - 1] == e2[e2.len() - 1]);
    }
}

/// The count over the first `k` edges depends only on those edges.
proof fn lemma_edge_differences_prefix(e: Seq<([u8; 32], [u8; 32])>, f: Seq<([u8; 32], [u8; 32])>, k: nat)
    requires
        k <= e.len(),
        k <= f.len(),
        forall|i: int| 0 <= i < k ==> e[i] == f[i],
    ensures
        edge_differences(e, k) == edge_differences(f, k),
    decreases k,
{
    if k > 0 {
        lemma_edge_differences_prefix(e, f, (k - 1) as nat);
    }
}

/// Counts, over all edges, the byte positions at which the two ends differ.
pub fn count_edge_differences(edges: &Vec<([u8; 32], [u8; 32])>) -> (total: usize)
    requires
        32 * edges@.len() <= usize::MAX,
    ensures
        total == edge_differences(edges@, edges@.len()),
{
    let mut total: usize = 0;
    let mut i: usize = 0;
    while i < edges.len()
        invariant
            i <= edges@.len(),
            32 * edges@.len() <= usize::MAX,
            total == edge_differences(edges@, i as nat),
        decreases edges@.len() - i,
    {
        let edge = &edges[i];
        let mut diff: usize = 0;
        let mut k: usize = 0;
        while k < 32
            invariant
                k <= 32,
                diff == differing_bytes(edge.0@, edge.1@, k as nat),
                diff <= k,
            decreases 32 - k,
        {
            proof {
                lemma_differing_bytes_bound(edge.0@, edge.1@, k as nat);
            }
            if edge.0[k] != edge.1[k] {
                diff = diff + 1;
            }
            k = k + 1;
            proof {
                lemma_differing_bytes_bound(edge.0@, edge.1@, k as nat);
            }
        }
        proof {
            lemma_edge_differences_bound(edges@, (i + 1) as nat);
        }
        total = total + diff;
        i = i + 1;
    }
    total
}

} // verus!
