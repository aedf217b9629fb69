use ruma_zk::star_graph::{MatrixEvent, Opening, StarGraph};
use tiny_keccak::{Hasher, Keccak};

fn keccak(data: &[u8]) -> [u8; 32] {
    let mut h = [0u8; 32];
    let mut k = Keccak::v256();
    k.update(data);
    k.finalize(&mut h);
    h
}

fn leaf(state: &[u32; 5]) -> [u8; 32] {
    let mut bytes = Vec::new();
    for e in state {
        bytes.extend_from_slice(&e.to_le_bytes());
    }
    keccak(&bytes)
}

fn pair(a: &[u8; 32], b: &[u8; 32]) -> [u8; 32] {
    let mut bytes = a.to_vec();
    bytes.extend_from_slice(b);
    keccak(&bytes)
}

fn event(id: &str) -> MatrixEvent {
    MatrixEvent {
        event_id: id.to_string(),
        event_type: "m.room.member".to_string(),
        state_key: id.to_string(),
        prev_events: vec![],
        power_level: 100,
    }
}

#[test]
fn single_node_root_is_its_leaf() {
    let g = StarGraph::new(1);
    let proof = g.prove(3);
    assert_eq!(proof.root, leaf(&[0, 0, 0, 0, 0]));
    assert_ne!(proof.root, [0u8; 32]);
    assert_eq!(proof.openings.len(), 3);
    for o in &proof.openings {
        assert_eq!(o.index, 0);
        assert!(o.path.is_empty());
        assert!(StarGraph::verify_opening(proof.root, o));
    }
}

#[test]
fn three_node_tree_pairs_odd_leaf_with_itself() {
    // S_3 has 6 nodes: layers of 6, 3, 2, 1 entries.
    let mut g = StarGraph::new(3);
    g.build_matrix_trace(&[event("a"), event("b")]).unwrap();
    let leaves: Vec<[u8; 32]> = g.nodes.iter().map(leaf).collect();
    let l1: Vec<[u8; 32]> = leaves.chunks(2).map(|c| pair(&c[0], &c[1])).collect();
    let l2 = vec![pair(&l1[0], &l1[1]), pair(&l1[2], &l1[2])];
    let root = pair(&l2[0], &l2[1]);
    let proof = g.prove(20);
    assert_eq!(proof.root, root);
    for o in &proof.openings {
        assert_eq!(o.state, g.nodes[o.index]);
        assert_eq!(o.path.len(), 3);
        assert!(StarGraph::verify_opening(proof.root, o));
    }
}

#[test]
fn openings_verify_and_tampering_is_detected() {
    let mut g = StarGraph::new(4);
    let events: Vec<MatrixEvent> = (0..8).map(|i| event(&format!("e{}", i))).collect();
    g.build_matrix_trace(&events).unwrap();
    let proof = g.prove(40);
    assert_eq!(proof.openings.len(), 40);
    for o in &proof.openings {
        assert!(o.index < 24);
        assert!(StarGraph::verify_opening(proof.root, o));
        let mut state = o.state;
        state[3] ^= 1;
        let forged = Opening {
            index: o.index,
            state,
            path: o.path.clone(),
        };
        assert!(!StarGraph::verify_opening(proof.root, &forged));
    }
    let mut other_root = proof.root;
    other_root[0] ^= 0xff;
    assert!(!StarGraph::verify_opening(other_root, &proof.openings[0]));
}

#[test]
fn zero_openings() {
    let g = StarGraph::new(2);
    let proof = g.prove(0);
    assert!(proof.openings.is_empty());
}
