//! Proving a Matrix state resolution on the star graph: the events are put
//! in topological order, walked into a trace, checked against the
//! topological constraint and committed to.
use vstd::prelude::*;
use crate::field::{STATE_WIDTH, reduce, field_sub, is_canonical, state_is_canonical, lemma_reduce_difference_zero};
use crate::lean::{SortEvent, SortVersion, kahn_order, sort_models, strings_view, lean_kahn_sort};
use crate::merkle::{leaf_layer, merkle_root, merkle_path};
use crate::permutation::{MAX_N, fact, neighbor, lemma_neighbor_basic, lemma_fact_bounded};
use crate::star_graph::{
    StarGraph, MatrixEvent, RawProof, Opening, WalkState, walk, walk_step, walk_start,
    walk_levels, trace_levels, free_edge, step_state, root_state, neighbor_states_of,
    capacity_message, layer_view, opening_accepted, clone_strings,
};

verus! {

/// The carry-over constraint of a trace node: an unused node (first entry
/// zero) holds; the start node must carry power level 100; any other node,
/// entered along edge `e` (its second entry), must carry the same power
/// level as its neighbor along `e`. The result is the difference in the
/// field, zero when the constraint holds.
pub open spec fn constraint_value(state: [u32; STATE_WIDTH], neighbors: Seq<[u32; STATE_WIDTH]>) -> u32 {
    if state[0] == 0 {
        0
    } else if state[1] == 0 {
        reduce(state[3] - 100)
    } else {
        reduce(state[3] - neighbors[state[1] - 1][3])
    }
}

/// Evaluates the carry-over constraint of a node against its neighbors'
/// states (listed in edge order, edge 1 first).
pub fn matrix_topological_constraint(state: [u32; STATE_WIDTH], neighbors: &[[u32; STATE_WIDTH]]) -> (r: u32)
    requires
        state[0] != 0 && state[1] != 0 ==> state[1] - 1 < neighbors@.len(),
    ensures
        r == constraint_value(state, neighbors@),
{
    if state[0] == 0 {
        return 0;
    }
    if state[1] == 0 {
        return field_sub(state[3], 100);
    }
    let p1_idx = state[1] as usize;
    let p1_val = neighbors[p1_idx - 1][3];
    field_sub(state[3], p1_val)
}

/// The constraint holds (evaluates to zero) exactly when the node is unused,
/// or it is a start node carrying power level 100, or it carries the same
/// power level as the neighbor across the edge it was entered by.
pub proof fn lemma_constraint_zero(state: [u32; STATE_WIDTH], neighbors: Seq<[u32; STATE_WIDTH]>)
    requires
        state_is_canonical(state),
        state[0] != 0 && state[1] != 0 ==> state[1] - 1 < neighbors.len() && is_canonical(
            neighbors[state[1] - 1][3],
        ),
    ensures
        (constraint_value(state, neighbors) == 0) <==> (state[0] == 0 || (state[1] == 0 && state[3]
            == 100) || (state[1] != 0 && state[3] == neighbors[state[1] - 1][3])),
{
    assert(is_canonical(state[3]));
    if state[0] != 0 {
        if state[1] == 0 {
            lemma_reduce_difference_zero(state[3], 100);
        } else {
            lemma_reduce_difference_zero(state[3], neighbors[state[1] - 1][3]);
        }
    }
}

/// `last_with_id` picks the last event with the id: it is `None` exactly
/// when no event has the id, and otherwise an event with the id after which
/// no event has it.
pub proof fn lemma_last_with_id(events: Seq<MatrixEvent>, id: Seq<char>)
    ensures
        match last_with_id(events, id) {
            Some(e) => exists|k: int|
                0 <= k < events.len() && events[k] == e && e.event_id@ == id && forall|j: int|
                    k < j < events.len() ==> (#[trigger] events[j]).event_id@ != id,
            None => forall|k: int| 0 <= k < events.len() ==> (#[trigger] events[k]).event_id@ != id,
        },
    decreases events.len(),
{
    if events.len() > 0 {
        let init = events.drop_last();
        lemma_last_with_id(init, id);
        if events.last().event_id@ == id {
            assert(events[events.len() - 1] == events.last());
        } else {
            match last_with_id(init, id) {
                Some(e) => {
                    let k = choose|k: int|
                        0 <= k < init.len() && init[k] == e && e.event_id@ == id && forall|j: int|
                            k < j < init.len() ==> (#[trigger] init[j]).event_id@ != id;
                    assert(events[k] == init[k]);
                    assert forall|j: int| k < j < events.len() implies (#[trigger] events[j]).event_id@ != id by {
                        if j < events.len() - 1 {
                            assert(events[j] == init[j]);
                        }
                    }
                },
                None => {
                    assert forall|k: int| 0 <= k < events.len() implies (#[trigger] events[k]).event_id@ != id by {
                        if k < events.len() - 1 {
                            assert(events[k] == init[k]);
                        }
                    }
                },
            }
        }
    }
}

/// The levels selected by a list of ids are those selected by each id in
/// turn: for two lists joined, the levels of the first followed by those of
/// the second.
pub proof fn lemma_selected_levels_concat(events: Seq<MatrixEvent>, a: Seq<Seq<char>>, b: Seq<Seq<char>>)
    ensures
        selected_levels(events, a + b) == selected_levels(events, a) + selected_levels(events, b),
    decreases b.len(),
{
    if b.len() == 0 {
        assert(a + b =~= a);
        assert(selected_levels(events, a) + Seq::<u64>::empty() =~= selected_levels(events, a));
    } else {
        lemma_selected_levels_concat(events, a, b.drop_last());
        assert((a + b).drop_last() =~= a + b.drop_last());
        assert((a + b).last() == b.last());
        assert(selected_levels(events, a + b) =~= selected_levels(events, a) + selected_levels(events, b));
    }
}

/// Node `i` satisfies the carry-over constraint.
pub open spec fn node_consistent(n: nat, nodes: Seq<[u32; STATE_WIDTH]>, i: int) -> bool {
    nodes[i][0] == 0 || constraint_value(nodes[i], neighbor_states_of(n, nodes, i as nat)) == 0
}

/// Every node satisfies the carry-over constraint.
pub open spec fn trace_consistent(n: nat, nodes: Seq<[u32; STATE_WIDTH]>) -> bool {
    forall|i: int| 0 <= i < nodes.len() ==> #[trigger] node_consistent(n, nodes, i)
}

/// The node states of a fresh `S_n`.
pub open spec fn zero_nodes(n: nat) -> Seq<[u32; STATE_WIDTH]> {
    Seq::new(fact(n), |i: int| [0u32; STATE_WIDTH])
}

/// The last event of `events` with id `id`, if any.
pub open spec fn last_with_id(events: Seq<MatrixEvent>, id: Seq<char>) -> Option<MatrixEvent>
    decreases events.len(),
{
    if events.len() == 0 {
        None
    } else if events.last().event_id@ == id {
        Some(events.last())
    } else {
        last_with_id(events.drop_last(), id)
    }
}

/// The power levels of the events named by `ids`, in that order: for each
/// id the last event with that id; ids without an event are skipped.
pub open spec fn selected_levels(events: Seq<MatrixEvent>, ids: Seq<Seq<char>>) -> Seq<u64>
    decreases ids.len(),
{
    if ids.len() == 0 {
        Seq::empty()
    } else {
        selected_levels(events, ids.drop_last()) + match last_with_id(events, ids.last()) {
            Some(e) => seq![e.power_level],
            None => Seq::empty(),
        }
    }
}

/// The trace walk of the events named by `ids` on a fresh `S_n`.
pub open spec fn resolution_walk(events: Seq<MatrixEvent>, ids: Seq<Seq<char>>, n: nat) -> WalkState {
    trace_levels(n, zero_nodes(n), selected_levels(events, ids))
}

/// The message of a trace that breaks the carry-over constraint.
pub open spec fn integrity_message() -> Seq<char> {
    "Topological integrity violation detected during trace compilation"@
}

/// The number of nodes a proof opens.
pub const PROOF_QUERIES: usize = 1730;

/// `proof` commits to `nodes` and opens `k` of them, each with an accepted
/// authentication path.
pub open spec fn commits_to(proof: RawProof, nodes: Seq<[u32; STATE_WIDTH]>, k: nat) -> bool {
    &&& proof.root@ == merkle_root(leaf_layer(nodes))
    &&& proof.openings@.len() == k
    &&& forall|i: int| #![trigger proof.openings@[i]] 0 <= i < k ==> {
        let o = proof.openings@[i];
        &&& o.index < nodes.len()
        &&& o.state == nodes[o.index as int]
        &&& layer_view(o.path@) == merkle_path(leaf_layer(nodes), o.index as nat)
        &&& opening_accepted(proof.root@, o)
    }
}

/// What a resolution of the events named by `ids` on `S_n` answers: the
/// walk's failure, a constraint violation, or a proof committing to the
/// trace.
pub open spec fn resolution_result(
    events: Seq<MatrixEvent>,
    ids: Seq<Seq<char>>,
    n: nat,
    r: Result<RawProof, String>,
) -> bool {
    let st = resolution_walk(events, ids, n);
    if st.stuck {
        r matches Err(m) && m@ == capacity_message(st.steps as nat)
    } else if !trace_consistent(n, st.nodes) {
        r matches Err(m) && m@ == integrity_message()
    } else {
        r matches Ok(proof) && commits_to(proof, st.nodes, PROOF_QUERIES as nat)
    }
}

// ---------------------------------------------------------------------------
// Shape of the trace
// ---------------------------------------------------------------------------

/// A node state to which the carry-over constraint may be applied in `S_n`.
pub open spec fn shape_ok(n: nat, s: [u32; STATE_WIDTH]) -> bool {
    s[0] == 0 || s[1] == 0 || (1 <= s[1] < n)
}

/// The free-edge search returns an edge at or after its start, or `n`.
pub proof fn lemma_free_edge_bounds(n: nat, w: nat, visited: Set<int>, e: nat)
    ensures
        free_edge(n, w, visited, e) >= e || free_edge(n, w, visited, e) == n,
        free_edge(n, w, visited, e) <= n || e > n,
    decreases n - e,
{
    if e < n && visited.contains(neighbor(n, w, e) as int) {
        lemma_free_edge_bounds(n, w, visited, e + 1);
    }
}

/// The walk keeps every node in shape, keeps the walker on a vertex, and
/// keeps the number of nodes.
pub proof fn lemma_walk_shape(n: nat, st: WalkState, pls: Seq<u64>)
    requires
        1 <= n <= MAX_N,
        st.nodes.len() == fact(n),
        0 <= st.walker < fact(n),
        forall|v: int| 0 <= v < st.nodes.len() ==> shape_ok(n, #[trigger] st.nodes[v]) && state_is_canonical(st.nodes[v]),
    ensures
        walk(n, st, pls).nodes.len() == fact(n),
        0 <= walk(n, st, pls).walker < fact(n),
        forall|v: int| 0 <= v < fact(n) ==> shape_ok(n, #[trigger] walk(n, st, pls).nodes[v]) && state_is_canonical(walk(n, st, pls).nodes[v]),
    decreases pls.len(),
{
    if pls.len() > 0 {
        lemma_walk_shape(n, st, pls.drop_last());
        let s1 = walk(n, st, pls.drop_last());
        if !s1.stuck {
            let e = free_edge(n, s1.walker as nat, s1.visited, 1);
            lemma_free_edge_bounds(n, s1.walker as nat, s1.visited, 1);
            if e < n {
                lemma_neighbor_basic(n, s1.walker as nat, e);
                let s2 = walk_step(n, s1, pls.last());
                let next = neighbor(n, s1.walker as nat, e) as int;
                assert forall|v: int| 0 <= v < fact(n) implies shape_ok(n, #[trigger] s2.nodes[v]) && state_is_canonical(s2.nodes[v]) by {
                    if v == next {
                        assert(s2.nodes[v] == step_state(e, pls.last()));
                        crate::field::lemma_reduce_canonical(((pls.last() as u32) as int));
                    } else {
                        assert(s2.nodes[v] == s1.nodes[v]);
                    }
                }
            }
        }
    }
}

// ---------------------------------------------------------------------------
// The carry-over law
// ---------------------------------------------------------------------------

/// The power level a walk step writes for an event.
pub open spec fn level_value(pl: u64) -> u32 {
    reduce((pl as u32) as int)
}

/// Every power level, cut to `u32` and reduced into the field, is 100.
pub open spec fn all_hundred(pls: Seq<u64>) -> bool {
    forall|k: int| 0 <= k < pls.len() ==> level_value(#[trigger] pls[k]) == 100
}

/// A visited node other than the start was entered along an edge `e` with
/// `1 <= e < n` from a visited node, which its second entry records.
pub open spec fn entered_ok(n: nat, st: WalkState, v: int) -> bool {
    &&& st.nodes[v][0] == 1
    &&& 1 <= st.nodes[v][1] < n
    &&& st.visited.contains(neighbor(n, v as nat, st.nodes[v][1] as nat) as int)
}

/// What a walk from a fresh graph keeps after the steps `pls`.
pub open spec fn walk_inv(n: nat, st: WalkState, pls: Seq<u64>) -> bool {
    &&& !st.stuck
    &&& st.nodes.len() == fact(n)
    &&& 0 <= st.walker < fact(n)
    &&& st.visited.contains(st.walker)
    &&& st.visited.contains(0)
    &&& forall|v: int| #[trigger] st.visited.contains(v) ==> 0 <= v < fact(n)
    &&& forall|v: int| 0 <= v < fact(n) && !st.visited.contains(v) ==> #[trigger] st.nodes[v] == [0u32; STATE_WIDTH]
    &&& st.nodes[0] == root_state()
    &&& forall|v: int| #[trigger] st.visited.contains(v) && v != 0 ==> entered_ok(n, st, v)
    &&& st.nodes[st.walker][3] == (if pls.len() == 0 { 100u32 } else { level_value(pls.last()) })
    &&& (trace_consistent(n, st.nodes) <==> all_hundred(pls))
}

/// Writing a fresh node changes the constraint of no other node whose
/// recorded neighbor is not the written node.
proof fn lemma_consistency_unchanged(n: nat, nodes: Seq<[u32; STATE_WIDTH]>, v: int, s: [u32; STATE_WIDTH], u: int)
    requires
        1 <= n <= MAX_N,
        nodes.len() == fact(n),
        0 <= u < fact(n),
        0 <= v < fact(n),
        u != v,
        nodes[u][0] != 0 && nodes[u][1] != 0 ==> 1 <= nodes[u][1] < n && neighbor(n, u as nat, nodes[u][1] as nat) != v,
    ensures
        node_consistent(n, nodes.update(v, s), u) == node_consistent(n, nodes, u),
{
    let nodes2 = nodes.update(v, s);
    assert(nodes2[u] == nodes[u]);
    if nodes[u][0] != 0 && nodes[u][1] != 0 {
        let e = nodes[u][1] as int;
        let ns1 = neighbor_states_of(n, nodes, u as nat);
        let ns2 = neighbor_states_of(n, nodes2, u as nat);
        assert(ns1[e - 1] == nodes[neighbor(n, u as nat, e as nat) as int]);
        assert(ns2[e - 1] == nodes2[neighbor(n, u as nat, e as nat) as int]);
        lemma_neighbor_basic(n, u as nat, e as nat);
        assert(nodes2[neighbor(n, u as nat, e as nat) as int] == nodes[neighbor(n, u as nat, e as nat) as int]);
        assert(constraint_value(nodes[u], ns1) == constraint_value(nodes2[u], ns2));
    }
}

/// The walk from a fresh graph keeps `walk_inv`.
proof fn lemma_walk_inv(n: nat, pls: Seq<u64>)
    requires
        1 <= n <= MAX_N,
        !walk(n, walk_start(zero_nodes(n)), pls).stuck,
    ensures
        walk_inv(n, walk(n, walk_start(zero_nodes(n)), pls), pls),
    decreases pls.len(),
{
    lemma_fact_bounded(n);
    let st0 = walk_start(zero_nodes(n));
    if pls.len() == 0 {
        assert forall|i: int| 0 <= i < st0.nodes.len() implies #[trigger] node_consistent(n, st0.nodes, i) by {
            if i == 0 {
                assert(st0.nodes[i] == root_state());
                assert(reduce(100 - 100) == 0);
            } else {
                assert(st0.nodes[i] == [0u32; STATE_WIDTH]);
            }
        }
    } else {
        let prev = pls.drop_last();
        let s1 = walk(n, st0, prev);
        if s1.stuck {
            assert(walk(n, st0, pls) == s1);
        }
        lemma_walk_inv(n, prev);
        let e = free_edge(n, s1.walker as nat, s1.visited, 1);
        lemma_free_edge_bounds(n, s1.walker as nat, s1.visited, 1);
        assert(e < n);
        lemma_free_edge_found(n, s1.walker as nat, s1.visited, 1);
        let w = s1.walker;
        let v = neighbor(n, w as nat, e) as int;
        lemma_neighbor_basic(n, w as nat, e);
        crate::permutation::lemma_neighbor_involution(n, w as nat, e);
        let pl = pls.last();
        let s2 = walk(n, st0, pls);
        assert(s2 == walk_step(n, s1, pl));
        let val = level_value(pl);
        crate::field::lemma_reduce_canonical((pl as u32) as int);
        assert(s2.nodes == s1.nodes.update(v, step_state(e, pl)));
        assert(!s1.visited.contains(v));
        assert(v != 0);
        assert(s1.nodes[v] == [0u32; STATE_WIDTH]);
        // The new node is consistent exactly when it repeats its
        // predecessor's power level.
        let prev_val = s1.nodes[w][3];
        assert(prev_val == 100 || prev_val == level_value(prev.last()));
        if prev.len() > 0 {
            crate::field::lemma_reduce_canonical((prev.last() as u32) as int);
        }
        assert(crate::field::is_canonical(prev_val));
        assert(s2.nodes[w] == s1.nodes[w]);
        let ns = neighbor_states_of(n, s2.nodes, v as nat);
        assert(ns[e - 1] == s2.nodes[w]);
        assert(s2.nodes[v] == step_state(e, pl));
        crate::field::lemma_reduce_difference_zero(val, prev_val);
        assert(node_consistent(n, s2.nodes, v) == (val == prev_val));
        // Every other node keeps its constraint.
        assert forall|u: int| 0 <= u < fact(n) && u != v implies node_consistent(n, s2.nodes, u) == node_consistent(n, s1.nodes, u) by {
            if s1.nodes[u][0] != 0 && s1.nodes[u][1] != 0 {
                assert(s1.visited.contains(u));
                assert(entered_ok(n, s1, u));
            }
            lemma_consistency_unchanged(n, s1.nodes, v, step_state(e, pl), u);
        }
        assert(node_consistent(n, s1.nodes, v));
        if trace_consistent(n, s2.nodes) {
            assert forall|i: int| 0 <= i < s1.nodes.len() implies #[trigger] node_consistent(n, s1.nodes, i) by {
                if i != v {
                    assert(node_consistent(n, s2.nodes, i));
                }
            }
            assert(node_consistent(n, s2.nodes, v));
            assert(all_hundred(prev));
            assert forall|k: int| 0 <= k < pls.len() implies level_value(#[trigger] pls[k]) == 100 by {
                if k < pls.len() - 1 {
                    assert(pls[k] == prev[k]);
                } else {
                    if prev.len() > 0 {
                        assert(level_value(prev[prev.len() - 1]) == 100);
                    }
                }
            }
        }
        if all_hundred(pls) {
            assert(all_hundred(prev)) by {
                assert forall|k: int| 0 <= k < prev.len() implies level_value(#[trigger] prev[k]) == 100 by {
                    assert(prev[k] == pls[k]);
                }
            }
            assert(trace_consistent(n, s1.nodes));
            assert(level_value(pls[pls.len() - 1]) == 100);
            if prev.len() > 0 {
                assert(level_value(prev[prev.len() - 1]) == 100);
            }
            assert forall|i: int| 0 <= i < s2.nodes.len() implies #[trigger] node_consistent(n, s2.nodes, i) by {
                if i != v {
                    assert(node_consistent(n, s1.nodes, i));
                }
            }
        }
        assert forall|u: int| #[trigger] s2.visited.contains(u) && u != 0 implies entered_ok(n, s2, u) by {
            if u == v {
                assert(s2.nodes[u] == step_state(e, pl));
                assert(neighbor(n, v as nat, e) == w);
            } else {
                assert(s1.visited.contains(u));
                assert(entered_ok(n, s1, u));
                assert(s2.nodes[u] == s1.nodes[u]);
            }
        }
        assert forall|u: int| 0 <= u < fact(n) && !s2.visited.contains(u) implies #[trigger] s2.nodes[u] == [0u32; STATE_WIDTH] by {
            assert(s2.nodes[u] == s1.nodes[u]);
        }
    }
}

/// Once stuck, a walk stays stuck.
proof fn lemma_walk_stuck_prefix(n: nat, st: WalkState, pls: Seq<u64>)
    requires
        walk(n, st, pls.drop_last()).stuck,
        pls.len() > 0,
    ensures
        walk(n, st, pls).stuck,
{
}

/// A trace satisfies the carry-over constraint exactly when every event
/// after the first carries power level 100 (cut to `u32`, reduced into the
/// field). This holds of every walk from a fresh `S_n` that did not get
/// stuck; the start node always carries 100 and each node repeats the power
/// level of the node it was entered from.
pub proof fn lemma_trace_consistency(n: nat, levels: Seq<u64>)
    requires
        1 <= n <= MAX_N,
        !trace_levels(n, zero_nodes(n), levels).stuck,
    ensures
        trace_consistent(n, trace_levels(n, zero_nodes(n), levels).nodes) <==> (forall|k: int|
            1 <= k < levels.len() ==> level_value(#[trigger] levels[k]) == 100),
{
    let pls = walk_levels(levels);
    lemma_walk_inv(n, pls);
    if forall|k: int| 1 <= k < levels.len() ==> level_value(#[trigger] levels[k]) == 100 {
        assert forall|k: int| 0 <= k < pls.len() implies level_value(#[trigger] pls[k]) == 100 by {
            assert(pls[k] == levels[k + 1]);
        }
    }
    if all_hundred(pls) {
        assert forall|k: int| 1 <= k < levels.len() implies level_value(#[trigger] levels[k]) == 100 by {
            assert(pls[k - 1] == levels[k]);
        }
    }
}

/// The first edge found by `free_edge` leads to an unvisited vertex.
proof fn lemma_free_edge_found(n: nat, w: nat, visited: Set<int>, e: nat)
    requires
        free_edge(n, w, visited, e) < n,
    ensures
        !visited.contains(neighbor(n, w, free_edge(n, w, visited, e)) as int),
    decreases n - e,
{
    if e < n && visited.contains(neighbor(n, w, e) as int) {
        lemma_free_edge_found(n, w, visited, e + 1);
    }
}

// ---------------------------------------------------------------------------
// Executable resolution
// ---------------------------------------------------------------------------

/// The events named by `sorted_ids`, in that order: for each id the last
/// event with that id; ids without an event are skipped.
fn select_events(events: &Vec<MatrixEvent>, sorted_ids: &Vec<String>) -> (r: Vec<MatrixEvent>)
    ensures
        crate::star_graph::event_levels(r@) == selected_levels(events@, strings_view(sorted_ids@)),
{
    let ghost ids = strings_view(sorted_ids@);
    let mut r: Vec<MatrixEvent> = Vec::new();
    let mut i: usize = 0;
    assert(ids.take(0) =~= Seq::<Seq<char>>::empty());
    assert(crate::star_graph::event_levels(r@) =~= selected_levels(events@, ids.take(0)));
    while i < sorted_ids.len()
        invariant
            ids == strings_view(sorted_ids@),
            i <= sorted_ids@.len(),
            crate::star_graph::event_levels(r@) == selected_levels(events@, ids.take(i as int)),
        decreases sorted_ids@.len() - i,
    {
        let id = &sorted_ids[i];
        let mut found: Option<usize> = None;
        let mut j: usize = 0;
        assert(events@.take(0) =~= Seq::<MatrixEvent>::empty());
        while j < events.len()
            invariant
                j <= events@.len(),
                match found {
                    Some(k) => k < j && last_with_id(events@.take(j as int), id@) == Some(events@[k as int]),
                    None => last_with_id(events@.take(j as int), id@) is None,
                },
            decreases events@.len() - j,
        {
            assert(events@.take(j + 1).drop_last() =~= events@.take(j as int));
            assert(events@.take(j + 1).last() == events@[j as int]);
            if events[j].event_id == *id {
                found = Some(j);
            }
            j = j + 1;
        }
        assert(events@.take(j as int) =~= events@);
        let ghost old_r = r@;
        match found {
            Some(k) => {
                r.push(events[k].clone());
                assert(crate::star_graph::event_levels(r@) =~= crate::star_graph::event_levels(old_r).push(events@[k as int].power_level));
            },
            None => {},
        }
        proof {
            assert(ids.take(i + 1).drop_last() =~= ids.take(i as int));
            assert(ids.take(i + 1).last() == id@);
            assert(crate::star_graph::event_levels(r@) =~= selected_levels(events@, ids.take(i + 1)));
        }
        i = i + 1;
    }
    assert(ids.take(i as int) =~= ids);
    r
}

/// Resolves events already put in order: the events named by `sorted_ids`
/// are walked into a trace on a fresh `S_n`, the trace is checked against
/// the carry-over constraint, and a proof opening `PROOF_QUERIES` random
/// nodes is made.
pub fn prove_sorted_resolution(events: &Vec<MatrixEvent>, sorted_ids: &Vec<String>, n: usize) -> (r: Result<RawProof, String>)
    requires
        1 <= n <= MAX_N,
    ensures
        resolution_result(events@, strings_view(sorted_ids@), n as nat, r),
        !resolution_walk(events@, strings_view(sorted_ids@), n as nat).stuck ==> (r is Ok <==> forall|k: int|
            1 <= k < selected_levels(events@, strings_view(sorted_ids@)).len() ==> level_value(
                #[trigger] selected_levels(events@, strings_view(sorted_ids@))[k],
            ) == 100),
{
    let ghost ids = strings_view(sorted_ids@);
    let sorted_events = select_events(events, sorted_ids);
    let mut g = StarGraph::new(n);
    assert(g.nodes@ =~= zero_nodes(n as nat));
    let ghost st = resolution_walk(events@, ids, n as nat);
    let slice = sorted_events.as_slice();
    let traced = g.build_matrix_trace(slice);
    match traced {
        Err(e) => {
            return Err(e);
        },
        Ok(_) => {},
    }
    proof {
        lemma_fact_bounded(n as nat);
        assert forall|v: int| 0 <= v < zero_nodes(n as nat).len() implies shape_ok(n as nat, #[trigger] zero_nodes(n as nat)[v]) && state_is_canonical(zero_nodes(n as nat)[v]) by {
            assert(zero_nodes(n as nat)[v] == [0u32; STATE_WIDTH]);
        }
        let st0 = walk_start(zero_nodes(n as nat));
        assert forall|v: int| 0 <= v < st0.nodes.len() implies shape_ok(n as nat, #[trigger] st0.nodes[v]) && state_is_canonical(st0.nodes[v]) by {
            if v == 0 {
                assert(st0.nodes[v] == root_state());
            } else {
                assert(st0.nodes[v] == zero_nodes(n as nat)[v]);
            }
        }
        lemma_walk_shape(n as nat, st0, walk_levels(selected_levels(events@, ids)));
        assert(g.nodes@ == st.nodes);
        assert forall|i: int| 0 <= i < g.nodes@.len() implies #[trigger] g.constraint_applicable(i, matrix_topological_constraint) by {
            assert(shape_ok(n as nat, g.nodes@[i]));
        }
    }
    let consistent = g.verify_entire_topology(matrix_topological_constraint);
    proof {
        assert forall|i: int, b: bool| 0 <= i < g.nodes@.len() && #[trigger] g.consistency_outcome(i, matrix_topological_constraint, b) implies b == node_consistent(n as nat, g.nodes@, i) by {
            if g.nodes@[i][0] != 0 {
                let (nb, out) = choose|nb: &[[u32; STATE_WIDTH]], out: u32|
                    nb@ == g.neighbor_states(i as nat) && call_ensures(matrix_topological_constraint, (g.nodes@[i], nb), out) && b == (out == 0);
                assert(out == constraint_value(g.nodes@[i], nb@));
            }
        }
        if consistent {
            assert forall|i: int| 0 <= i < g.nodes@.len() implies #[trigger] node_consistent(n as nat, g.nodes@, i) by {
                assert(g.consistency_outcome(i, matrix_topological_constraint, true));
            }
        } else {
            let i = choose|i: int| 0 <= i < g.nodes@.len() && #[trigger] g.consistency_outcome(i, matrix_topological_constraint, false);
            assert(!node_consistent(n as nat, g.nodes@, i));
        }
    }
    proof {
        lemma_trace_consistency(n as nat, selected_levels(events@, ids));
    }
    if !consistent {
        return Err(String::from_str("Topological integrity violation detected during trace compilation"));
    }
    Ok(g.prove(PROOF_QUERIES))
}

/// The events handed to the topological sort: each with the prover as
/// sender, timestamp and depth zero, no auth events, and its power level.
pub open spec fn prover_sort_input(events: Seq<MatrixEvent>, s: Seq<SortEvent>) -> bool {
    &&& s.len() == events.len()
    &&& forall|i: int| #![trigger s[i]] 0 <= i < s.len() ==> {
        &&& s[i].event_id@ == events[i].event_id@
        &&& s[i].event_type@ == events[i].event_type@
        &&& s[i].state_key@ == events[i].state_key@
        &&& s[i].sender@ == "prover"@
        &&& s[i].origin_server_ts == 0
        &&& s[i].auth_events@.len() == 0
        &&& strings_view(s[i].prev_events@) == strings_view(events[i].prev_events@)
        &&& s[i].depth == 0
        &&& s[i].power_level == events[i].power_level as i64
    }
}

/// Proves a Matrix state resolution: the events are ordered by `ruma_lean`'s
/// Kahn sort (state resolution v2.1 tie-breaking) and then resolved as
/// `prove_sorted_resolution` does on `S_n`.
pub fn prove_matrix_resolution(events: Vec<MatrixEvent>, n: usize) -> (r: Result<RawProof, String>)
    requires
        1 <= n <= MAX_N,
    ensures
        exists|s: Seq<SortEvent>| prover_sort_input(events@, s) && resolution_result(
            events@,
            kahn_order(sort_models(s), SortVersion::V2_1),
            n as nat,
            r,
        ),
{
    let mut sort_events: Vec<SortEvent> = Vec::new();
    let mut i: usize = 0;
    proof {
        reveal_strlit("prover");
    }
    while i < events.len()
        invariant
            i <= events@.len(),
            prover_sort_input(events@.take(i as int), sort_events@),
        decreases events@.len() - i,
    {
        let ev = &events[i];
        let prev = clone_strings(&ev.prev_events);
        let se = SortEvent {
            event_id: ev.event_id.clone(),
            event_type: ev.event_type.clone(),
            state_key: ev.state_key.clone(),
            power_level: #[verifier::truncate] (ev.power_level as i64),
            origin_server_ts: 0,
            sender: String::from_str("prover"),
            prev_events: prev,
            auth_events: Vec::new(),
            depth: 0,
        };
        assert(strings_view(se.prev_events@) =~= strings_view(ev.prev_events@));
        sort_events.push(se);
        i = i + 1;
        assert(prover_sort_input(events@.take(i as int), sort_events@)) by {
            assert forall|q: int| 0 <= q < sort_events@.len() implies #[trigger] events@.take(i as int)[q] == events@[q] by {}
        }
    }
    assert(events@.take(i as int) =~= events@);
    let sorted_ids = lean_kahn_sort(sort_events, SortVersion::V2_1);
    prove_sorted_resolution(&events, &sorted_ids, n)
}

} // verus!
