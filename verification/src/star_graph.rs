//! The star graph `S_n` whose nodes carry the execution trace.
use vstd::prelude::*;
use crate::field::{STATE_WIDTH, state_is_canonical, reduce, field_element, lemma_reduce_canonical};
use crate::decimal::{decimal, push_decimal};
use crate::merkle::{
    keccak256, keccak256_digest, u32_le_bytes, state_bytes_prefix, leaf_hash, leaf_layer,
    pair_hash, parent_layer, merkle_layers, merkle_root, tree_shape, sibling, tree_path,
    merkle_path, fold_path, lemma_merkle_layers_shape, lemma_tree_shape_unique, lemma_fold_step,
    lemma_merkle_path_opens_root,
};
use rand::Rng;
use crate::permutation::{
    MAX_N, fact, initial_symbols, shift, dec, perm_of, decode_defined, lemma_fact_bounded,
    lemma_fact_positive, lemma_digit_bound, enc, enc_ok, first_pos, lemma_first_pos,
    lemma_first_pos_at, lemma_enc_bound, lemma_fact_sum_bound, swapped_perm, neighbor,
    neighbor_defined, lemma_neighbor_basic,
};

verus! {

/// A Matrix event as the prover sees it.
pub struct MatrixEvent {
    pub event_id: String,
    pub event_type: String,
    pub state_key: String,
    pub prev_events: Vec<String>,
    pub power_level: u64,
}

impl Clone for MatrixEvent {
    fn clone(&self) -> (r: Self)
        ensures
            r.event_id@ == self.event_id@,
            r.event_type@ == self.event_type@,
            r.state_key@ == self.state_key@,
            r.prev_events@.len() == self.prev_events@.len(),
            forall|i: int| 0 <= i < self.prev_events@.len() ==> #[trigger] r.prev_events@[i]@ == self.prev_events@[i]@,
            r.power_level == self.power_level,
    {
        MatrixEvent {
            event_id: self.event_id.clone(),
            event_type: self.event_type.clone(),
            state_key: self.state_key.clone(),
            prev_events: clone_strings(&self.prev_events),
            power_level: self.power_level,
        }
    }
}

/// Copies a list of strings.
pub fn clone_strings(v: &Vec<String>) -> (r: Vec<String>)
    ensures
        r@.len() == v@.len(),
        forall|i: int| 0 <= i < v@.len() ==> #[trigger] r@[i]@ == v@[i]@,
{
    let mut r: Vec<String> = Vec::new();
    let mut i: usize = 0;
    while i < v.len()
        invariant
            i <= v@.len(),
            r@.len() == i,
            forall|j: int| 0 <= j < i ==> #[trigger] r@[j]@ == v@[j]@,
        decreases v@.len() - i,
    {
        r.push(v[i].clone());
        i = i + 1;
    }
    r
}

/// The states of the neighbors of vertex `index` along edges `1..n`, in edge
/// order.
pub open spec fn neighbor_states_of(n: nat, nodes: Seq<[u32; STATE_WIDTH]>, index: nat) -> Seq<[u32; STATE_WIDTH]> {
    Seq::new((n - 1) as nat, |i: int| nodes[neighbor(n, index, (i + 1) as nat) as int])
}

/// The state written at the start vertex of a trace walk.
pub open spec fn root_state() -> [u32; STATE_WIDTH] {
    [1u32, 0u32, 0u32, 100u32, 0u32]
}

/// The state written at a vertex entered along edge `edge` for an event with
/// the given power level (cut to `u32`, then reduced into the field).
pub open spec fn step_state(edge: nat, power_level: u64) -> [u32; STATE_WIDTH] {
    [1u32, edge as u32, 0u32, reduce((power_level as u32) as int), 1u32]
}

/// Where a trace walk stands: the node states, the vertices visited so far,
/// the current vertex, the number of steps taken, and whether the walk got
/// stuck.
pub ghost struct WalkState {
    pub nodes: Seq<[u32; STATE_WIDTH]>,
    pub visited: Set<int>,
    pub walker: int,
    pub steps: int,
    pub stuck: bool,
}

/// The first edge `e' >= e` (below `n`) from vertex `w` to an unvisited
/// vertex, or `n` if there is none.
pub open spec fn free_edge(n: nat, w: nat, visited: Set<int>, e: nat) -> nat
    decreases n - e,
{
    if e >= n {
        n
    } else if !visited.contains(neighbor(n, w, e) as int) {
        e
    } else {
        free_edge(n, w, visited, e + 1)
    }
}

/// One step of the walk for an event with power level `pl`: move along the
/// first edge to an unvisited vertex and write the step state there.
pub open spec fn walk_step(n: nat, st: WalkState, pl: u64) -> WalkState {
    if st.stuck {
        st
    } else {
        let e = free_edge(n, st.walker as nat, st.visited, 1);
        if e >= n {
            WalkState { stuck: true, ..st }
        } else {
            let next = neighbor(n, st.walker as nat, e) as int;
            WalkState {
                nodes: st.nodes.update(next, step_state(e, pl)),
                visited: st.visited.insert(next),
                walker: next,
                steps: st.steps + 1,
                stuck: false,
            }
        }
    }
}

/// The walk after one step per power level in `pls`.
pub open spec fn walk(n: nat, st: WalkState, pls: Seq<u64>) -> WalkState
    decreases pls.len(),
{
    if pls.len() == 0 {
        st
    } else {
        walk_step(n, walk(n, st, pls.drop_last()), pls.last())
    }
}

/// The walk before any event: the root state at vertex 0.
pub open spec fn walk_start(nodes: Seq<[u32; STATE_WIDTH]>) -> WalkState {
    WalkState {
        nodes: nodes.update(0, root_state()),
        visited: Set::empty().insert(0),
        walker: 0,
        steps: 1,
        stuck: false,
    }
}

/// The power levels of a list of events.
pub open spec fn event_levels(events: Seq<MatrixEvent>) -> Seq<u64> {
    Seq::new(events.len(), |i: int| events[i].power_level)
}

/// All power levels but the first (the first event is the root of the walk).
pub open spec fn walk_levels(levels: Seq<u64>) -> Seq<u64> {
    if levels.len() == 0 {
        Seq::empty()
    } else {
        Seq::new((levels.len() - 1) as nat, |i: int| levels[i + 1])
    }
}

/// The power levels that move the walk of `events`.
pub open spec fn walk_power_levels(events: Seq<MatrixEvent>) -> Seq<u64> {
    walk_levels(event_levels(events))
}

/// The trace walk over the node states `nodes` of `S_n` for events with the
/// given power levels.
pub open spec fn trace_levels(n: nat, nodes: Seq<[u32; STATE_WIDTH]>, levels: Seq<u64>) -> WalkState {
    walk(n, walk_start(nodes), walk_levels(levels))
}

/// The whole trace walk of `events` over the node states `nodes` of `S_n`.
pub open spec fn trace_walk(n: nat, nodes: Seq<[u32; STATE_WIDTH]>, events: Seq<MatrixEvent>) -> WalkState {
    trace_levels(n, nodes, event_levels(events))
}

/// Once the walk is stuck, further events change nothing.
pub proof fn lemma_walk_stuck_stays(n: nat, st0: WalkState, pls: Seq<u64>, k: int, m: int)
    requires
        0 <= k <= m <= pls.len(),
        walk(n, st0, pls.take(k)).stuck,
    ensures
        walk(n, st0, pls.take(m)) == walk(n, st0, pls.take(k)),
    decreases m - k,
{
    if m > k {
        lemma_walk_stuck_stays(n, st0, pls, k, m - 1);
        assert(pls.take(m).drop_last() =~= pls.take(m - 1));
    }
}

/// The free-edge search finds the first edge at or after `e` whose far end
/// is unvisited: every edge it skips leads to a visited vertex, and it
/// answers `n` only when all remaining edges do.
pub proof fn lemma_free_edge_first(n: nat, w: nat, visited: Set<int>, e: nat)
    requires
        e <= n,
    ensures
        e <= free_edge(n, w, visited, e) <= n,
        free_edge(n, w, visited, e) < n ==> !visited.contains(
            neighbor(n, w, free_edge(n, w, visited, e)) as int,
        ),
        forall|j: nat| e <= j < free_edge(n, w, visited, e) ==> visited.contains(#[trigger] neighbor(n, w, j) as int),
    decreases n - e,
{
    if e < n && visited.contains(neighbor(n, w, e) as int) {
        lemma_free_edge_first(n, w, visited, e + 1);
    }
}

/// One step of the walk: a stuck walk stays as it is; otherwise the walker
/// crosses the lowest edge `e` of `1..n` that leads to an unvisited vertex,
/// marks it visited, writes `[1, e, 0, power level, 1]` there (the power
/// level cut to `u32` and reduced into the field) and changes no other node;
/// if every edge leads to a visited vertex the walk becomes stuck and
/// nothing else changes.
pub proof fn lemma_walk_step(n: nat, st: WalkState, pl: u64)
    requires
        n >= 1,
    ensures
        st.stuck ==> walk_step(n, st, pl) == st,
        !st.stuck && (forall|j: nat| 1 <= j < n ==> st.visited.contains(#[trigger] neighbor(n, st.walker as nat, j) as int))
            ==> walk_step(n, st, pl) == (WalkState { stuck: true, ..st }),
        !st.stuck && !walk_step(n, st, pl).stuck ==> exists|e: nat| #![trigger neighbor(n, st.walker as nat, e)] {
            &&& 1 <= e < n
            &&& !st.visited.contains(neighbor(n, st.walker as nat, e) as int)
            &&& (forall|j: nat| 1 <= j < e ==> st.visited.contains(#[trigger] neighbor(n, st.walker as nat, j) as int))
            &&& walk_step(n, st, pl).walker == neighbor(n, st.walker as nat, e) as int
            &&& walk_step(n, st, pl).nodes == st.nodes.update(
                neighbor(n, st.walker as nat, e) as int,
                [1u32, e as u32, 0u32, reduce((pl as u32) as int), 1u32],
            )
            &&& walk_step(n, st, pl).visited == st.visited.insert(neighbor(n, st.walker as nat, e) as int)
            &&& walk_step(n, st, pl).steps == st.steps + 1
        },
        !st.stuck && (exists|j: nat| 1 <= j < n && !st.visited.contains(#[trigger] neighbor(n, st.walker as nat, j) as int))
            ==> !walk_step(n, st, pl).stuck,
{
    lemma_free_edge_first(n, st.walker as nat, st.visited, 1);
    let e = free_edge(n, st.walker as nat, st.visited, 1);
    if !st.stuck && e < n {
        assert(step_state(e, pl) =~= [1u32, e as u32, 0u32, reduce((pl as u32) as int), 1u32]);
    }
}

/// The walk starts at vertex 0, which it marks visited and where it writes
/// `[1, 0, 0, 100, 0]`; no other node changes, and it counts one step.
pub proof fn lemma_walk_start(nodes: Seq<[u32; STATE_WIDTH]>)
    requires
        nodes.len() >= 1,
    ensures
        walk_start(nodes).nodes == nodes.update(0, [1u32, 0u32, 0u32, 100u32, 0u32]),
        walk_start(nodes).visited == Set::<int>::empty().insert(0),
        walk_start(nodes).walker == 0,
        walk_start(nodes).steps == 1,
        !walk_start(nodes).stuck,
{
}

/// The message of a walk that found no unvisited neighbor.
pub open spec fn capacity_message(steps: nat) -> Seq<char> {
    "Star Graph walk capacity reached at step "@ + decimal(steps)
}

/// One opened node of a committed trace: its vertex, its state and the
/// authentication path of its leaf.
pub struct Opening {
    pub index: usize,
    pub state: [u32; STATE_WIDTH],
    pub path: Vec<[u8; 32]>,
}

/// A commitment to a trace: the Merkle root and some opened nodes.
pub struct RawProof {
    pub root: [u8; 32],
    pub openings: Vec<Opening>,
}

/// The hashes of a layer of digests.
pub open spec fn layer_view(l: Seq<[u8; 32]>) -> Seq<Seq<u8>> {
    Seq::new(l.len(), |j: int| l[j]@)
}

/// The hashes of all layers of a tree of digests.
pub open spec fn tree_view(t: Seq<Vec<[u8; 32]>>) -> Seq<Seq<Seq<u8>>> {
    Seq::new(t.len(), |i: int| layer_view(t[i]@))
}

/// An opening is accepted against `root`: folding its path from the leaf
/// hash of its state, starting at its index, gives the root.
pub open spec fn opening_accepted(root: Seq<u8>, o: Opening) -> bool {
    fold_path(leaf_hash(o.state), o.index as nat, layer_view(o.path@)) == root
}

/// Draws a uniformly random position below `len` from the thread-local
/// generator (`rand::thread_rng().gen_range(0..len)`). Only the range of the
/// result is claimed.
#[verifier::external_body]
fn random_index(len: usize) -> (r: usize)
    requires
        len > 0,
    ensures
        r < len,
{
    rand::thread_rng().gen_range(0..len)
}

/// Appends the little-endian bytes of `x`.
fn push_u32_le(out: &mut Vec<u8>, x: u32)
    ensures
        final(out)@ == old(out)@ + u32_le_bytes(x),
{
    out.push((x % 256) as u8);
    out.push(((x / 256) % 256) as u8);
    out.push(((x / 65536) % 256) as u8);
    out.push((x / 16777216) as u8);
    assert(out@ =~= old(out)@ + u32_le_bytes(x));
}

/// The Merkle leaf of a node state.
fn node_leaf(state: &[u32; STATE_WIDTH]) -> (h: [u8; 32])
    ensures
        h@ == leaf_hash(*state),
{
    let mut bytes: Vec<u8> = Vec::new();
    let mut k: usize = 0;
    while k < STATE_WIDTH
        invariant
            k <= STATE_WIDTH,
            bytes@ == state_bytes_prefix(*state, k as nat),
        decreases STATE_WIDTH - k,
    {
        push_u32_le(&mut bytes, state[k]);
        k = k + 1;
    }
    keccak256_digest(bytes.as_slice())
}

/// The hash of two digests, left one first.
fn hash_pair(a: &[u8; 32], b: &[u8; 32]) -> (h: [u8; 32])
    ensures
        h@ == keccak256(a@ + b@),
{
    let mut bytes: Vec<u8> = Vec::new();
    let mut k: usize = 0;
    while k < 32
        invariant
            k <= 32,
            bytes@ == a@.take(k as int),
        decreases 32 - k,
    {
        bytes.push(a[k]);
        k = k + 1;
        assert(bytes@ =~= a@.take(k as int));
    }
    let mut k: usize = 0;
    while k < 32
        invariant
            k <= 32,
            bytes@ == a@ + b@.take(k as int),
        decreases 32 - k,
    {
        bytes.push(b[k]);
        k = k + 1;
        assert(bytes@ =~= a@ + b@.take(k as int));
    }
    assert(a@ + b@.take(32) =~= a@ + b@);
    keccak256_digest(bytes.as_slice())
}

/// Two digests are equal.
fn digest_eq(a: &[u8; 32], b: &[u8; 32]) -> (r: bool)
    ensures
        r == (a@ == b@),
{
    let mut k: usize = 0;
    while k < 32
        invariant
            k <= 32,
            forall|j: int| 0 <= j < k ==> a@[j] == b@[j],
        decreases 32 - k,
    {
        if a[k] != b[k] {
            return false;
        }
        k = k + 1;
    }
    assert(a@ =~= b@);
    true
}

/// The layer of digests above `layer`.
fn parent_of(layer: &Vec<[u8; 32]>) -> (r: Vec<[u8; 32]>)
    ensures
        layer_view(r@) == parent_layer(layer_view(layer@)),
{
    let len = layer.len();
    let half = len / 2 + len % 2;
    let ghost lv = layer_view(layer@);
    let mut r: Vec<[u8; 32]> = Vec::new();
    let mut j: usize = 0;
    while j < half
        invariant
            len == layer@.len(),
            half == (len + 1) / 2,
            lv == layer_view(layer@),
            j <= half,
            r@.len() == j,
            layer_view(r@) =~= parent_layer(lv).take(j as int),
        decreases half - j,
    {
        let a = &layer[2 * j];
        let h = if 2 * j + 1 < len {
            hash_pair(a, &layer[2 * j + 1])
        } else {
            hash_pair(a, a)
        };
        assert(h@ == pair_hash(lv, j as int));
        let ghost old_r = r@;
        r.push(h);
        proof {
            assert(r@ == old_r.push(h));
            assert(layer_view(r@).len() == j + 1);
            assert(parent_layer(lv)[j as int] == pair_hash(lv, j as int));
            assert forall|q: int| 0 <= q < j + 1 implies layer_view(r@)[q] == parent_layer(lv).take(
                j + 1,
            )[q] by {
                if q < j {
                    assert(layer_view(r@)[q] == r@[q]@);
                    assert(r@[q] == old_r[q]);
                    assert(layer_view(old_r)[q] == old_r[q]@);
                }
            }
        }
        j = j + 1;
        assert(layer_view(r@) =~= parent_layer(lv).take(j as int));
    }
    assert(parent_layer(lv).take(half as int) =~= parent_layer(lv));
    r
}

/// The star graph `S_n`: one node per permutation of `0..n`, each holding a
/// state of `STATE_WIDTH` field elements.
pub struct StarGraph {
    pub n: usize,
    pub nodes: Vec<[u32; STATE_WIDTH]>,
    pub factorials: [usize; 13],
}

impl StarGraph {
    /// The dimension is supported and the factorial table is correct.
    pub open spec fn inv(&self) -> bool {
        &&& self.n <= MAX_N
        &&& forall|i: int| 0 <= i <= self.n ==> #[trigger] self.factorials@[i] == fact(i as nat)
    }

    /// `inv`, one node per vertex, and every node state canonical.
    pub open spec fn wf(&self) -> bool {
        &&& self.inv()
        &&& self.nodes@.len() == fact(self.n as nat)
        &&& forall|i: int| 0 <= i < self.nodes@.len() ==> state_is_canonical(#[trigger] self.nodes@[i])
    }

    /// Creates `S_n` with `n!` nodes, all in the zero state.
    pub fn new(n: usize) -> (g: Self)
        requires
            n <= MAX_N,
        ensures
            g.n == n,
            g.wf(),
            g.nodes@ == Seq::new(fact(n as nat), |i: int| [0u32; STATE_WIDTH]),
    {
        let mut factorials: [usize; 13] = [1; 13];
        let mut i: usize = 1;
        proof {
            lemma_fact_bounded(0);
        }
        while i <= n
            invariant
                1 <= i <= n + 1,
                n <= MAX_N,
                forall|k: int| 0 <= k < i ==> #[trigger] factorials@[k] == fact(k as nat),
            decreases n + 1 - i,
        {
            proof {
                lemma_fact_bounded(i as nat);
                lemma_fact_bounded((i - 1) as nat);
                assert(fact(i as nat) == i * fact((i - 1) as nat));
                let f = factorials@[i - 1];
                assert(f * i == i * fact((i - 1) as nat)) by (nonlinear_arith)
                    requires
                        f == fact((i - 1) as nat),
                ;
            }
            factorials[i] = factorials[i - 1] * i;
            assert(factorials@[i as int] == fact(i as nat));
            i = i + 1;
        }
        let size = factorials[n];
        proof {
            lemma_fact_bounded(n as nat);
        }
        let mut nodes: Vec<[u32; STATE_WIDTH]> = Vec::new();
        let mut k: usize = 0;
        while k < size
            invariant
                k <= size,
                nodes@ == Seq::new(k as nat, |i: int| [0u32; STATE_WIDTH]),
            decreases size - k,
        {
            nodes.push([0u32; STATE_WIDTH]);
            k = k + 1;
            assert(nodes@ =~= Seq::new(k as nat, |i: int| [0u32; STATE_WIDTH]));
        }
        let g = StarGraph { n, nodes, factorials };
        assert forall|i: int| 0 <= i < g.nodes@.len() implies state_is_canonical(
            #[trigger] g.nodes@[i],
        ) by {
            assert(g.nodes@[i] == [0u32; STATE_WIDTH]);
        }
        g
    }

    /// Compiles the trace of `events` by a greedy walk from vertex 0: each
    /// event after the first moves the walker along the first edge that
    /// leads to a vertex not visited yet. Fails when no such edge exists.
    pub fn build_matrix_trace(&mut self, events: &[MatrixEvent]) -> (r: Result<usize, String>)
        requires
            old(self).wf(),
        ensures
            final(self).wf(),
            final(self).n == old(self).n,
            final(self).factorials == old(self).factorials,
            final(self).nodes@ == trace_walk(old(self).n as nat, old(self).nodes@, events@).nodes,
            r is Err <==> trace_walk(old(self).n as nat, old(self).nodes@, events@).stuck,
            r matches Ok(steps) ==> steps == trace_walk(old(self).n as nat, old(self).nodes@, events@).steps,
            r matches Err(m) ==> m@ == capacity_message(
                trace_walk(old(self).n as nat, old(self).nodes@, events@).steps as nat,
            ),
    {
        let ghost n = self.n as nat;
        let ghost pls = walk_power_levels(events@);
        let n_exec = self.n;
        let mut visited: Vec<bool> = Vec::new();
        let total = self.nodes.len();
        let mut k: usize = 0;
        while k < total
            invariant
                k <= total,
                visited@ == Seq::new(k as nat, |i: int| false),
            decreases total - k,
        {
            visited.push(false);
            k = k + 1;
            assert(visited@ =~= Seq::new(k as nat, |i: int| false));
        }
        let mut walker_idx: usize = 0;
        proof {
            lemma_fact_bounded(n);
        }
        self.nodes.set(0, [1u32, 0u32, 0u32, 100u32, 0u32]);
        visited.set(0, true);
        let ghost st0 = walk_start(old(self).nodes@);
        assert(self.nodes@ =~= st0.nodes);
        let mut steps: usize = 1;
        let mut j: usize = 1;
        let ghost mut cur = st0;
        assert(pls.take(0) =~= Seq::<u64>::empty());
        assert(pls =~= pls.take(pls.len() as int)) by {
            if events@.len() > 0 {
                assert(pls.len() == events@.len() - 1);
            }
        }
        while j < events.len()
            invariant
                self.inv(),
                n == self.n,
                n_exec == self.n,
                self.factorials == old(self).factorials,
                self.nodes@.len() == fact(n),
                visited@.len() == fact(n),
                1 <= j,
                self.n == old(self).n,
                events@.len() >= 1 ==> j <= events@.len(),
                events@.len() == 0 ==> j == 1,
                events@.len() >= 1 ==> pls.len() == events@.len() - 1,
                events@.len() == 0 ==> pls.len() == 0,
                st0 == walk_start(old(self).nodes@),
                pls == walk_power_levels(events@),
                n == old(self).n,
                cur == walk(n, st0, pls.take(j - 1)),
                cur.stuck == false,
                self.nodes@ == cur.nodes,
                walker_idx == cur.walker,
                steps == cur.steps,
                steps == j,
                walker_idx < fact(n),
                forall|v: int| 0 <= v < fact(n) ==> (visited@[v] <==> cur.visited.contains(v)),
                forall|v: int| #[trigger] cur.visited.contains(v) ==> 0 <= v < fact(n),
                forall|v: int| 0 <= v < fact(n) ==> state_is_canonical(#[trigger] self.nodes@[v]),
            decreases events@.len() - j,
        {
            let ghost st = cur;
            let ev = &events[j];
            assert(events@.len() > 0);
            assert(pls[j - 1] == ev.power_level);
            assert(pls.take(j as int).drop_last() =~= pls.take(j - 1));
            let mut moved = false;
            let mut edge_idx: usize = 1;
            let mut next_idx: usize = 0;
            while edge_idx < n_exec && !moved
                invariant
                    self.inv(),
                    n == self.n,
                    n_exec == self.n,
                    1 <= edge_idx,
                    edge_idx <= n || n == 0,
                    walker_idx < fact(n),
                    walker_idx == st.walker,
                    visited@.len() == fact(n),
                    forall|v: int| 0 <= v < fact(n) ==> (visited@[v] <==> st.visited.contains(v)),
                    free_edge(n, walker_idx as nat, st.visited, 1) == free_edge(n, walker_idx as nat, st.visited, edge_idx as nat),
                    moved ==> edge_idx < n && free_edge(n, walker_idx as nat, st.visited, edge_idx as nat) == edge_idx,
                    moved ==> next_idx == neighbor(n, walker_idx as nat, edge_idx as nat) && next_idx < fact(n),
                decreases n - edge_idx + (if moved { 0int } else { 1int }),
            {
                proof {
                    lemma_neighbor_basic(n, walker_idx as nat, edge_idx as nat);
                }
                let candidate = self.get_neighbor_index(walker_idx, edge_idx);
                if !visited[candidate] {
                    moved = true;
                    next_idx = candidate;
                } else {
                    edge_idx = edge_idx + 1;
                }
            }
            if !moved {
                let mut m = String::from_str("Star Graph walk capacity reached at step ");
                push_decimal(&mut m, steps);
                proof {
                    assert(free_edge(n, walker_idx as nat, st.visited, edge_idx as nat) == n);
                    assert(walk(n, st0, pls.take(j as int)) == walk_step(n, st, pls[j - 1]));
                    assert(walk(n, st0, pls.take(j as int)).stuck);
                    lemma_walk_stuck_stays(n, st0, pls, j as int, pls.len() as int);
                    assert(pls.take(pls.len() as int) =~= pls);
                    assert(walk(n, st0, pls).nodes == st.nodes);
                    assert(self.nodes@ == st.nodes);
                    assert(trace_walk(n, old(self).nodes@, events@) == walk(n, st0, pls));
                }
                return Err(m);
            }
            let pl = field_element(#[verifier::truncate] (ev.power_level as u32));
            proof {
                lemma_reduce_canonical((#[verifier::truncate] (ev.power_level as u32)) as int);
            }
            let new_state: [u32; STATE_WIDTH] = [1u32, edge_idx as u32, 0u32, pl, 1u32];
            assert(new_state == step_state(edge_idx as nat, ev.power_level));
            self.nodes.set(next_idx, new_state);
            visited.set(next_idx, true);
            walker_idx = next_idx;
            steps = steps + 1;
            proof {
                assert(walk(n, st0, pls.take(j as int)) == walk_step(n, st, pls[j - 1]));
                let st2 = walk(n, st0, pls.take(j as int));
                assert(self.nodes@ =~= st2.nodes);
                cur = st2;
                assert forall|v: int| 0 <= v < fact(n) implies state_is_canonical(#[trigger] self.nodes@[v]) by {
                    if v == next_idx {
                        assert(self.nodes@[v] == new_state);
                    }
                }
            }
            j = j + 1;
        }
        proof {
            if events@.len() > 0 {
                assert(pls.take(j - 1) =~= pls);
            } else {
                assert(pls.take(j - 1) =~= pls);
            }
        }
        Ok(steps)
    }

    /// The states of the neighbors of vertex `index` along edges `1..n`, in
    /// edge order.
    pub open spec fn neighbor_states(&self, index: nat) -> Seq<[u32; STATE_WIDTH]> {
        neighbor_states_of(self.n as nat, self.nodes@, index)
    }

    /// `b` is a possible answer of `is_locally_consistent` at `index`: a zero
    /// first entry means the node is unused and consistent; otherwise the
    /// constraint, applied to the node's state and its neighbors' states,
    /// gave an output that is zero exactly when `b` holds.
    pub open spec fn consistency_outcome<C: Fn([u32; STATE_WIDTH], &[[u32; STATE_WIDTH]]) -> u32>(
        &self,
        index: int,
        constraint: C,
        b: bool,
    ) -> bool {
        if self.nodes@[index as int][0] == 0 {
            b
        } else {
            exists|nb: &[[u32; STATE_WIDTH]], out: u32|
                nb@ == self.neighbor_states(index as nat) && constraint.ensures(
                    (self.nodes@[index as int], nb),
                    out,
                ) && b == (out == 0)
        }
    }

    /// The constraint may be applied at vertex `index`.
    pub open spec fn constraint_applicable<C: Fn([u32; STATE_WIDTH], &[[u32; STATE_WIDTH]]) -> u32>(
        &self,
        index: int,
        constraint: C,
    ) -> bool {
        self.nodes@[index][0] != 0 ==> {
            &&& self.n >= 1
            &&& forall|nb: &[[u32; STATE_WIDTH]]|
                nb@ == self.neighbor_states(index as nat) ==> constraint.requires(
                    (self.nodes@[index as int], nb),
                )
        }
    }

    /// Checks the constraint at one vertex against its neighbors.
    pub fn is_locally_consistent<C>(&self, index: usize, constraint: &C) -> (r: bool) where
        C: Fn([u32; STATE_WIDTH], &[[u32; STATE_WIDTH]]) -> u32,
        requires
            self.wf(),
            index < self.nodes@.len(),
            self.constraint_applicable(index as int, *constraint),
        ensures
            self.consistency_outcome(index as int, *constraint, r),
    {
        let state = self.nodes[index];
        if state[0] == 0 {
            return true;
        }
        let ghost n = self.n as nat;
        let mut neighbors: Vec<[u32; STATE_WIDTH]> = Vec::new();
        let mut i: usize = 1;
        while i < self.n
            invariant
                self.wf(),
                n == self.n,
                n >= 1,
                index < self.nodes@.len(),
                1 <= i <= n,
                neighbors@ =~= self.neighbor_states(index as nat).take(i - 1),
            decreases n - i,
        {
            proof {
                lemma_neighbor_basic(n, index as nat, i as nat);
            }
            let neighbor_idx = self.get_neighbor_index(index, i);
            neighbors.push(self.nodes[neighbor_idx]);
            i = i + 1;
            assert(neighbors@ =~= self.neighbor_states(index as nat).take(i - 1));
        }
        let nb = neighbors.as_slice();
        assert(nb@ =~= self.neighbor_states(index as nat));
        let out = constraint(state, nb);
        out == 0
    }

    /// Checks the constraint at every vertex.
    pub fn verify_entire_topology<C>(&self, constraint: C) -> (r: bool) where
        C: Fn([u32; STATE_WIDTH], &[[u32; STATE_WIDTH]]) -> u32,
        requires
            self.wf(),
            forall|i: int| 0 <= i < self.nodes@.len() ==> #[trigger] self.constraint_applicable(i, constraint),
        ensures
            r ==> forall|i: int| 0 <= i < self.nodes@.len() ==> #[trigger] self.consistency_outcome(i, constraint, true),
            !r ==> exists|i: int| 0 <= i < self.nodes@.len() && #[trigger] self.consistency_outcome(i, constraint, false),
    {
        let mut i: usize = 0;
        while i < self.nodes.len()
            invariant
                self.wf(),
                i <= self.nodes@.len(),
                forall|k: int| 0 <= k < self.nodes@.len() ==> #[trigger] self.constraint_applicable(k, constraint),
                forall|k: int| 0 <= k < i ==> #[trigger] self.consistency_outcome(k, constraint, true),
            decreases self.nodes@.len() - i,
        {
            if !self.is_locally_consistent(i, &constraint) {
                return false;
            }
            i = i + 1;
        }
        true
    }

    /// The Merkle tree over the leaves of all nodes, leaves first.
    fn build_merkle_tree_full(&self) -> (tree: Vec<Vec<[u8; 32]>>)
        ensures
            tree_shape(tree_view(tree@)),
            tree_view(tree@)[0] == leaf_layer(self.nodes@),
    {
        let mut leaves: Vec<[u8; 32]> = Vec::new();
        let mut i: usize = 0;
        while i < self.nodes.len()
            invariant
                i <= self.nodes@.len(),
                leaves@.len() == i,
                layer_view(leaves@) =~= leaf_layer(self.nodes@).take(i as int),
            decreases self.nodes@.len() - i,
        {
            let h = node_leaf(&self.nodes[i]);
            let ghost old_l = leaves@;
            leaves.push(h);
            proof {
                assert forall|q: int| 0 <= q < i + 1 implies layer_view(leaves@)[q] == leaf_layer(
                    self.nodes@,
                ).take(i + 1)[q] by {
                    if q < i {
                        assert(layer_view(leaves@)[q] == leaves@[q]@);
                        assert(leaves@[q] == old_l[q]);
                        assert(layer_view(old_l)[q] == old_l[q]@);
                    }
                }
            }
            i = i + 1;
            assert(layer_view(leaves@) =~= leaf_layer(self.nodes@).take(i as int));
        }
        assert(leaf_layer(self.nodes@).take(i as int) =~= leaf_layer(self.nodes@));
        let mut tree: Vec<Vec<[u8; 32]>> = Vec::new();
        tree.push(leaves);
        assert(tree_view(tree@)[0] == layer_view(tree@[0]@));
        while tree[tree.len() - 1].len() > 1
            invariant
                tree@.len() >= 1,
                tree_view(tree@)[0] == leaf_layer(self.nodes@),
                forall|l: int| 0 <= l < tree@.len() - 1 ==> #[trigger] tree_view(tree@)[l].len() > 1,
                forall|l: int|
                    0 <= l < tree@.len() - 1 ==> tree_view(tree@)[l + 1] == parent_layer(
                        #[trigger] tree_view(tree@)[l],
                    ),
            decreases tree@.last()@.len(),
        {
            let ghost old_tree = tree@;
            let next = parent_of(&tree[tree.len() - 1]);
            tree.push(next);
            assert(tree_view(tree@) =~= tree_view(old_tree).push(layer_view(next@)));
            assert(tree_view(old_tree)[old_tree.len() - 1] == layer_view(old_tree.last()@));
            assert(layer_view(next@).len() == next@.len());
            assert(tree@.last() == next);
        }
        assert(tree_view(tree@).last() == layer_view(tree@.last()@));
        tree
    }

    /// The authentication path of leaf `idx`.
    fn get_path(&self, tree: &Vec<Vec<[u8; 32]>>, idx: usize) -> (path: Vec<[u8; 32]>)
        requires
            tree_shape(tree_view(tree@)),
            idx < tree_view(tree@)[0].len(),
        ensures
            layer_view(path@) == tree_path(tree_view(tree@), 0, idx as nat),
    {
        let ghost t = tree_view(tree@);
        let mut path: Vec<[u8; 32]> = Vec::new();
        let mut idx = idx;
        let ghost idx0 = idx;
        let mut l: usize = 0;
        let depth = tree.len() - 1;
        assert(layer_view(path@) =~= Seq::<Seq<u8>>::empty());
        while l < depth
            invariant
                t == tree_view(tree@),
                tree_shape(t),
                depth == t.len() - 1,
                l <= depth,
                idx < t[l as int].len(),
                layer_view(path@) + tree_path(t, l as int, idx as nat) =~= tree_path(t, 0, idx0 as nat),
            decreases depth - l,
        {
            let layer = &tree[l];
            assert(t[l as int] == layer_view(layer@));
            let is_even = idx % 2 == 0;
            let sibling_idx = if is_even {
                if idx + 1 < layer.len() {
                    idx + 1
                } else {
                    idx
                }
            } else {
                idx - 1
            };
            assert(sibling_idx == sibling(idx as nat, t[l as int].len()));
            proof {
                lemma_fold_step(t[l as int], idx as nat);
                assert(t[l + 1] == parent_layer(t[l as int]));
            }
            path.push(layer[sibling_idx]);
            idx = idx / 2;
            l = l + 1;
        }
        assert(tree_path(t, l as int, idx as nat) =~= Seq::<Seq<u8>>::empty());
        path
    }

    /// Commits to the trace with a Merkle tree and opens `k` nodes chosen at
    /// random. Every opening carries the node's state and an authentication
    /// path that folds to the root.
    pub fn prove(&self, k: usize) -> (proof: RawProof)
        requires
            self.wf(),
        ensures
            proof.root@ == merkle_root(leaf_layer(self.nodes@)),
            proof.openings@.len() == k,
            forall|i: int| #![trigger proof.openings@[i]] 0 <= i < k ==> {
                let o = proof.openings@[i];
                &&& o.index < self.nodes@.len()
                &&& o.state == self.nodes@[o.index as int]
                &&& layer_view(o.path@) == merkle_path(leaf_layer(self.nodes@), o.index as nat)
                &&& opening_accepted(proof.root@, o)
            },
    {
        let tree = self.build_merkle_tree_full();
        proof {
            lemma_tree_shape_unique(tree_view(tree@));
            lemma_fact_bounded(self.n as nat);
            lemma_merkle_layers_shape(leaf_layer(self.nodes@));
        }
        let ghost leaves = leaf_layer(self.nodes@);
        assert(tree_view(tree@).last() == layer_view(tree@.last()@));
        let root = tree[tree.len() - 1][0];
        let mut openings: Vec<Opening> = Vec::with_capacity(k);
        let mut c: usize = 0;
        while c < k
            invariant
                self.wf(),
                leaves == leaf_layer(self.nodes@),
                tree_view(tree@) == merkle_layers(leaves),
                tree_shape(tree_view(tree@)),
                tree_view(tree@)[0] == leaves,
                root@ == merkle_root(leaves),
                c <= k,
                openings@.len() == c,
                forall|i: int| #![trigger openings@[i]] 0 <= i < c ==> {
                    let o = openings@[i];
                    &&& o.index < self.nodes@.len()
                    &&& o.state == self.nodes@[o.index as int]
                    &&& layer_view(o.path@) == merkle_path(leaves, o.index as nat)
                    &&& opening_accepted(root@, o)
                },
            decreases k - c,
        {
            proof {
                lemma_fact_bounded(self.n as nat);
            }
            let idx = random_index(self.nodes.len());
            let state = self.nodes[idx];
            let path = self.get_path(&tree, idx);
            proof {
                lemma_merkle_path_opens_root(leaves, idx as nat);
            }
            openings.push(Opening { index: idx, state, path });
            c = c + 1;
        }
        RawProof { root, openings }
    }

    /// Checks an opening against a root: folds the authentication path from
    /// the leaf hash of the opened state and compares with the root.
    pub fn verify_opening(root: [u8; 32], opening: &Opening) -> (r: bool)
        ensures
            r == opening_accepted(root@, *opening),
    {
        let mut h = node_leaf(&opening.state);
        let mut idx = opening.index;
        let mut i: usize = 0;
        let ghost full = layer_view(opening.path@);
        assert(full.skip(0) =~= full);
        while i < opening.path.len()
            invariant
                full == layer_view(opening.path@),
                i <= full.len(),
                fold_path(h@, idx as nat, full.skip(i as int)) == fold_path(
                    leaf_hash(opening.state),
                    opening.index as nat,
                    full,
                ),
            decreases full.len() - i,
        {
            let p = &opening.path[i];
            assert(full.skip(i as int)[0] == p@);
            assert(full.skip(i as int).drop_first() =~= full.skip(i + 1));
            h = if idx % 2 == 0 {
                hash_pair(&h, p)
            } else {
                hash_pair(p, &h)
            };
            idx = idx / 2;
            i = i + 1;
        }
        assert(full.skip(i as int) =~= Seq::<Seq<u8>>::empty());
        digest_eq(&h, &root)
    }

    /// The permutation of vertex `index`: the first `n` entries, then zeros.
    fn decode_stack(&self, index: usize) -> (perm: [usize; 12])
        requires
            self.inv(),
            decode_defined(self.n as nat, index as nat),
        ensures
            perm@ == perm_of(self.n as nat, index as nat),
    {
        let ghost n = self.n as nat;
        let mut symbols: [usize; 12] = [0, 1, 2, 3, 4, 5, 6, 7, 8, 9, 10, 11];
        let mut perm: [usize; 12] = [0; 12];
        let ghost index0 = index;
        let mut index = index;
        let mut i = self.n;
        assert(symbols@ =~= initial_symbols());
        assert(perm@.subrange(0, 0).add(dec(n, index as nat, symbols@)) =~= dec(
            n,
            index as nat,
            initial_symbols(),
        ));
        while i >= 1
            invariant
                self.inv(),
                n == self.n,
                i <= n,
                i == n ==> decode_defined(n, index as nat),
                i < n ==> index < fact(i as nat),
                symbols@.len() == MAX_N,
                perm@.subrange(0, n - i).add(dec(i as nat, index as nat, symbols@)) =~= dec(
                    n,
                    index0 as nat,
                    initial_symbols(),
                ),
                forall|k: int| n - i <= k < MAX_N ==> #[trigger] perm@[k] == 0,
            decreases i,
        {
            let fact_i = self.factorials[i - 1];
            proof {
                lemma_fact_positive((i - 1) as nat);
                if i < n {
                    lemma_digit_bound(i as nat, index as nat);
                }
            }
            let digit = index / fact_i;
            let ghost old_syms = symbols@;
            let ghost old_idx = index;
            index = index % fact_i;
            perm[self.n - i] = symbols[digit];
            remove_symbol(&mut symbols, digit);
            proof {
                assert(dec(i as nat, old_idx as nat, old_syms) =~= seq![old_syms[digit as int]].add(
                    dec((i - 1) as nat, index as nat, symbols@),
                ));
                assert(perm@.subrange(0, n - (i - 1)) =~= perm@.subrange(0, n - i).push(
                    old_syms[digit as int],
                ));
            }
            i = i - 1;
        }
        assert(perm@ =~= perm_of(n, index0 as nat));
        perm
    }

    /// The vertex index of the permutation whose first `n` entries are those
    /// of `perm`.
    fn encode_stack(&self, perm: [usize; 12]) -> (index: usize)
        requires
            self.inv(),
            enc_ok(self.n as nat, perm@.take(self.n as int), initial_symbols()),
        ensures
            index == enc(self.n as nat, perm@.take(self.n as int), initial_symbols()),
    {
        let ghost n = self.n as nat;
        let ghost p = perm@.take(self.n as int);
        let mut index: usize = 0;
        let mut symbols: [usize; 12] = [0, 1, 2, 3, 4, 5, 6, 7, 8, 9, 10, 11];
        let mut i = self.n;
        assert(symbols@ =~= initial_symbols());
        assert(p.skip(0) =~= p);
        proof {
            lemma_enc_bound(n, p, initial_symbols());
            lemma_fact_sum_bound(n);
        }
        while i >= 1
            invariant
                self.inv(),
                n == self.n,
                p == perm@.take(n as int),
                i <= n,
                symbols@.len() == MAX_N,
                enc_ok(i as nat, p.skip(n - i), symbols@),
                index + enc(i as nat, p.skip(n - i), symbols@) == enc(n, p, initial_symbols()),
                enc(n, p, initial_symbols()) <= 11 * 43954714,
            decreases i,
        {
            let s = perm[self.n - i];
            let ghost rest = p.skip(n - i);
            assert(rest[0] == s);
            let pos = find_symbol(&symbols, s);
            let ghost old_syms = symbols@;
            remove_symbol(&mut symbols, pos);
            proof {
                lemma_enc_bound((i - 1) as nat, rest.drop_first(), symbols@);
                assert(rest.drop_first() =~= p.skip(n - (i - 1)));
            }
            index = index + pos * self.factorials[i - 1];
            i = i - 1;
        }
        index
    }

    /// The vertex reached from `current_index` by exchanging the first symbol
    /// of its permutation with the symbol at position `swap_pos`.
    pub fn get_neighbor_index(&self, current_index: usize, swap_pos: usize) -> (r: usize)
        requires
            self.inv(),
            neighbor_defined(self.n as nat, current_index as nat, swap_pos as nat),
        ensures
            r == neighbor(self.n as nat, current_index as nat, swap_pos as nat),
    {
        let mut perm = self.decode_stack(current_index);
        let first = perm[0];
        perm[0] = perm[swap_pos];
        perm[swap_pos] = first;
        assert(perm@ =~= swapped_perm(self.n as nat, current_index as nat, swap_pos as nat));
        self.encode_stack(perm)
    }
}

/// The position of the first occurrence of `s` in the table.
fn find_symbol(symbols: &[usize; 12], s: usize) -> (pos: usize)
    requires
        symbols@.contains(s),
    ensures
        pos == first_pos(symbols@, s),
        pos < MAX_N,
{
    let mut pos: usize = 0;
    proof {
        lemma_first_pos(symbols@, s);
    }
    while symbols[pos] != s
        invariant
            symbols@.len() == MAX_N,
            pos <= first_pos(symbols@, s) < MAX_N,
            symbols@[first_pos(symbols@, s) as int] == s,
            forall|j: int| 0 <= j < pos ==> symbols@[j] != s,
        decreases MAX_N - pos,
    {
        pos = pos + 1;
    }
    proof {
        lemma_first_pos_at(symbols@, s, pos as int);
    }
    pos
}

/// Takes the symbol at position `digit` out of the table.
fn remove_symbol(symbols: &mut [usize; 12], digit: usize)
    requires
        digit < MAX_N,
    ensures
        final(symbols)@ == shift(old(symbols)@, digit as int),
{
    let ghost orig = symbols@;
    let mut j = digit;
    while j < MAX_N - 1
        invariant
            digit <= j <= MAX_N - 1,
            orig.len() == MAX_N,
            symbols@ == Seq::new(
                MAX_N as nat,
                |k: int|
                    if k < digit {
                        orig[k]
                    } else if k < j {
                        orig[k + 1]
                    } else {
                        orig[k]
                    },
            ),
        decreases MAX_N - j,
    {
        symbols[j] = symbols[j + 1];
        j = j + 1;
        assert(symbols@ =~= Seq::new(
            MAX_N as nat,
            |k: int|
                if k < digit {
                    orig[k]
                } else if k < j {
                    orig[k + 1]
                } else {
                    orig[k]
                },
        ));
    }
    assert(symbols@ =~= shift(orig, digit as int));
}

} // verus!
