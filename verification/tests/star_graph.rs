use ruma_zk::prover::matrix_topological_constraint;
use ruma_zk::star_graph::{MatrixEvent, StarGraph};

fn event(id: &str, power_level: u64) -> MatrixEvent {
    MatrixEvent {
        event_id: id.to_string(),
        event_type: "m.room.member".to_string(),
        state_key: format!("@{}:example.com", id),
        prev_events: vec![],
        power_level,
    }
}

fn factorial(n: usize) -> usize {
    (1..=n).product()
}

#[test]
fn new_graph_has_one_zero_node_per_permutation() {
    for n in 0..=6 {
        let g = StarGraph::new(n);
        assert_eq!(g.n, n);
        assert_eq!(g.nodes.len(), factorial(n));
        assert!(g.nodes.iter().all(|s| *s == [0u32; 5]));
    }
}

#[test]
fn neighbor_index_small_values() {
    let g = StarGraph::new(3);
    // Vertex 0 is the permutation [0, 1, 2]; swapping positions 0 and 1
    // gives [1, 0, 2], whose index is 1 * 2! + 0 * 1! + 0 = 2.
    assert_eq!(g.get_neighbor_index(0, 1), 2);
    // Swapping positions 0 and 2 gives [2, 1, 0]: 2 * 2! + 1 * 1! = 5.
    assert_eq!(g.get_neighbor_index(0, 2), 5);
    // Position 0 with itself leaves the vertex.
    assert_eq!(g.get_neighbor_index(4, 0), 4);
}

#[test]
fn neighbor_is_an_involution_without_loops() {
    for n in 1..=6 {
        let g = StarGraph::new(n);
        for idx in 0..factorial(n) {
            for s in 1..n {
                let m = g.get_neighbor_index(idx, s);
                assert!(m < factorial(n));
                assert_ne!(m, idx);
                assert_eq!(g.get_neighbor_index(m, s), idx);
            }
        }
    }
}

#[test]
fn neighbors_of_a_vertex_are_distinct() {
    let g = StarGraph::new(5);
    for idx in 0..factorial(5) {
        let mut seen: Vec<usize> = (1..5).map(|s| g.get_neighbor_index(idx, s)).collect();
        seen.sort();
        seen.dedup();
        assert_eq!(seen.len(), 4);
    }
}

#[test]
fn trace_walk_writes_root_and_steps() {
    let mut g = StarGraph::new(4);
    let events = vec![event("a", 100), event("b", 100), event("c", 7)];
    assert_eq!(g.build_matrix_trace(&events), Ok(3));
    assert_eq!(g.nodes[0], [1, 0, 0, 100, 0]);
    let first = g.get_neighbor_index(0, 1);
    assert_eq!(g.nodes[first], [1, 1, 0, 100, 1]);
    let second = g.get_neighbor_index(first, 1);
    // Edge 1 leads back to vertex 0, which is visited, so edge 2 is taken.
    assert_eq!(second, 0);
    let second = g.get_neighbor_index(first, 2);
    assert_eq!(g.nodes[second], [1, 2, 0, 7, 1]);
    let used = g.nodes.iter().filter(|s| s[0] != 0).count();
    assert_eq!(used, 3);
}

#[test]
fn trace_walk_of_no_events_writes_only_the_root() {
    let mut g = StarGraph::new(3);
    assert_eq!(g.build_matrix_trace(&[]), Ok(1));
    assert_eq!(g.nodes[0], [1, 0, 0, 100, 0]);
    assert!(g.nodes[1..].iter().all(|s| *s == [0u32; 5]));
}

#[test]
fn trace_walk_reports_capacity() {
    let mut g = StarGraph::new(1);
    let events = vec![event("a", 100), event("b", 100)];
    assert_eq!(
        g.build_matrix_trace(&events),
        Err("Star Graph walk capacity reached at step 1".to_string())
    );
    let mut g = StarGraph::new(2);
    let events: Vec<MatrixEvent> = (0..4).map(|i| event(&format!("e{}", i), 100)).collect();
    assert_eq!(
        g.build_matrix_trace(&events),
        Err("Star Graph walk capacity reached at step 2".to_string())
    );
}

#[test]
fn trace_walk_reduces_power_levels_into_the_field() {
    let mut g = StarGraph::new(3);
    let p: u64 = 0x7800_0001;
    let events = vec![event("a", 0), event("b", p + 5), event("c", (1u64 << 32) + 3)];
    assert_eq!(g.build_matrix_trace(&events), Ok(3));
    let values: Vec<u32> = g.nodes.iter().filter(|s| s[0] != 0).map(|s| s[3]).collect();
    assert!(values.contains(&5));
    assert!(values.contains(&3));
}

#[test]
fn constraint_values() {
    let p: u32 = 0x7800_0001;
    assert_eq!(matrix_topological_constraint([0, 3, 0, 9, 0], &[]), 0);
    assert_eq!(matrix_topological_constraint([1, 0, 0, 100, 0], &[]), 0);
    assert_eq!(matrix_topological_constraint([1, 0, 0, 101, 0], &[]), 1);
    assert_eq!(matrix_topological_constraint([1, 0, 0, 99, 0], &[]), p - 1);
    let nb = [[1, 0, 0, 10, 0], [1, 1, 0, 20, 1]];
    assert_eq!(matrix_topological_constraint([1, 2, 0, 20, 1], &nb), 0);
    assert_eq!(matrix_topological_constraint([1, 1, 0, 5, 1], &nb), p - 5);
}

#[test]
fn topology_holds_when_power_levels_carry_over() {
    let mut g = StarGraph::new(4);
    let events: Vec<MatrixEvent> = (0..10).map(|i| event(&format!("e{}", i), 100)).collect();
    assert_eq!(g.build_matrix_trace(&events), Ok(10));
    assert!(g.verify_entire_topology(matrix_topological_constraint));
    for i in 0..g.nodes.len() {
        assert!(g.is_locally_consistent(i, &matrix_topological_constraint));
    }
}

#[test]
fn topology_fails_when_a_power_level_changes() {
    let mut g = StarGraph::new(4);
    let mut events: Vec<MatrixEvent> = (0..6).map(|i| event(&format!("e{}", i), 100)).collect();
    events[4].power_level = 50;
    assert_eq!(g.build_matrix_trace(&events), Ok(6));
    assert!(!g.verify_entire_topology(matrix_topological_constraint));
    let bad = (0..g.nodes.len())
        .filter(|&i| !g.is_locally_consistent(i, &matrix_topological_constraint))
        .count();
    // The node with 50 and the node after it (which carries 100 again).
    assert_eq!(bad, 2);
}

#[test]
fn first_event_power_level_is_ignored() {
    let mut g = StarGraph::new(3);
    let events = vec![event("a", 3), event("b", 100), event("c", 100)];
    assert_eq!(g.build_matrix_trace(&events), Ok(3));
    assert!(g.verify_entire_topology(matrix_topological_constraint));
}

#[test]
fn custom_constraint_closure_is_applied() {
    let mut g = StarGraph::new(3);
    let events = vec![event("a", 100), event("b", 100)];
    g.build_matrix_trace(&events).unwrap();
    let always_one = |_s: [u32; 5], _n: &[[u32; 5]]| 1u32;
    assert!(!g.verify_entire_topology(always_one));
    let always_zero = |_s: [u32; 5], _n: &[[u32; 5]]| 0u32;
    assert!(g.verify_entire_topology(always_zero));
    // Unused nodes are consistent whatever the constraint says.
    let unused = g.nodes.iter().position(|s| s[0] == 0).unwrap();
    assert!(g.is_locally_consistent(unused, &always_one));
}
