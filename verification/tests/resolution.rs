use ruma_lean::{lean_kahn_sort, HashMap, LeanEvent, StateResVersion};
use ruma_zk::prover::{prove_matrix_resolution, prove_sorted_resolution, PROOF_QUERIES};
use ruma_zk::star_graph::{MatrixEvent, StarGraph};

fn event(id: &str, power_level: u64) -> MatrixEvent {
    MatrixEvent {
        event_id: id.to_string(),
        event_type: "m.room.member".to_string(),
        state_key: format!("@{}:example.com", id),
        prev_events: vec![],
        power_level,
    }
}

#[test]
fn resolution_of_uniform_power_levels_is_proved() {
    let events: Vec<MatrixEvent> = (0..12).map(|i| event(&format!("$e{}", i), 100)).collect();
    let proof = prove_matrix_resolution(events, 5).expect("resolution");
    assert_eq!(proof.openings.len(), PROOF_QUERIES);
    assert!(proof
        .openings
        .iter()
        .all(|o| StarGraph::verify_opening(proof.root, o)));
}

#[test]
fn resolution_rejects_a_broken_carry_over() {
    // The sort puts the lowest power level first, as the walk's root; the
    // second event then carries 70 over from a root fixed at 100.
    let events = vec![event("$a", 100), event("$b", 70), event("$c", 40)];
    assert_eq!(
        prove_matrix_resolution(events, 4).err(),
        Some("Topological integrity violation detected during trace compilation".to_string())
    );
}

#[test]
fn resolution_reports_walk_capacity() {
    let events = vec![event("$a", 100), event("$b", 100)];
    assert_eq!(
        prove_matrix_resolution(events, 1).err(),
        Some("Star Graph walk capacity reached at step 1".to_string())
    );
}

#[test]
fn resolution_of_no_events_commits_to_the_root_only() {
    let proof = prove_matrix_resolution(vec![], 3).expect("resolution");
    assert_eq!(proof.openings.len(), PROOF_QUERIES);
}

#[test]
fn sorted_resolution_follows_the_given_order() {
    // With the odd power level first it is the walk's root and is ignored.
    let events = vec![event("$a", 100), event("$b", 7), event("$c", 100)];
    let ids: Vec<String> = vec!["$b".into(), "$a".into(), "$c".into()];
    assert!(prove_sorted_resolution(&events, &ids, 4).is_ok());
    let ids: Vec<String> = vec!["$a".into(), "$b".into(), "$c".into()];
    assert!(prove_sorted_resolution(&events, &ids, 4).is_err());
}

#[test]
fn sorted_resolution_skips_unknown_ids_and_takes_the_last_duplicate() {
    let events = vec![event("$a", 100), event("$b", 7), event("$b", 100)];
    let ids: Vec<String> = vec!["$x".into(), "$a".into(), "$b".into(), "$y".into()];
    assert!(prove_sorted_resolution(&events, &ids, 3).is_ok());
    let events = vec![event("$a", 100), event("$b", 100), event("$b", 7)];
    assert!(prove_sorted_resolution(&events, &ids, 3).is_err());
}

#[test]
fn kahn_order_puts_higher_power_last() {
    // The order that the resolution hands to the walk, computed with the
    // sorting crate directly.
    let mut map = HashMap::new();
    for (id, pl) in [("$a", 100i64), ("$b", 50), ("$c", 75)] {
        map.insert(
            id.to_string(),
            LeanEvent {
                event_id: id.to_string(),
                power_level: pl,
                ..Default::default()
            },
        );
    }
    let order = lean_kahn_sort(&map, StateResVersion::V2_1);
    assert_eq!(order, vec!["$b", "$c", "$a"]);
    // The lowest power level is the root, so the walk carries 75 and 100
    // after it: the carry-over breaks.
    let events = vec![event("$a", 100), event("$b", 50), event("$c", 75)];
    assert!(prove_matrix_resolution(events, 4).is_err());
    // With only the lowest power level differing, the root absorbs it.
    let events = vec![event("$a", 100), event("$b", 50), event("$c", 100)];
    assert!(prove_matrix_resolution(events, 4).is_ok());
}
