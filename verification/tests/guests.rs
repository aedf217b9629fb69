use ruma_zk::execution::{prepare_events, EventFields, DEFAULT_POWER_LEVEL};
use ruma_zk::full_spec::{resolve_full_spec, resolve_sorted_full_spec, DAGMergeInput, GuestEvent};
use ruma_zk::guest::count_edge_differences;
use ruma_zk::wasm_client::verify_matrix_join;
use sha2::{Digest, Sha256};

fn guest(id: &str, t: &str, k: Option<&str>, ts: u64) -> (String, GuestEvent) {
    (
        id.to_string(),
        GuestEvent {
            origin_ts: Some(ts),
            state_key: k.map(|s| s.to_string()),
            content: vec![],
            event_id: id.to_string(),
            room_id: "!room:example.com".to_string(),
            sender: "@user:example.com".to_string(),
            event_type: t.to_string(),
            prev_events: vec![],
            auth_events: vec![],
            public_key: None,
            signature: None,
            verified_on_host: false,
        },
    )
}

fn digest(parts: &[(&str, &str, &str)]) -> [u8; 32] {
    let mut h = Sha256::new();
    for (t, k, id) in parts {
        h.update(t.as_bytes());
        h.update(k.as_bytes());
        h.update(id.as_bytes());
    }
    h.finalize().into()
}

#[test]
fn full_resolution_later_timestamp_wins() {
    let input = DAGMergeInput {
        room_version: "10".to_string(),
        event_map: vec![
            guest("$a", "m.room.member", Some("@u"), 20),
            guest("$b", "m.room.member", Some("@u"), 10),
            guest("$c", "m.room.topic", None, 5),
        ],
    };
    let out = resolve_full_spec(&input);
    assert_eq!(out.event_count, 3);
    // Sorted by timestamp: $c, $b, $a; $a is written last for the member key.
    assert_eq!(
        out.resolved_state_hash,
        digest(&[("m.room.member", "@u", "$a"), ("m.room.topic", "", "$c")])
    );
}

#[test]
fn sorted_full_resolution_follows_the_given_order() {
    let input = DAGMergeInput {
        room_version: "10".to_string(),
        event_map: vec![
            guest("$a", "m.room.member", Some("@u"), 20),
            guest("$b", "m.room.member", Some("@u"), 10),
        ],
    };
    let ids: Vec<String> = vec!["$a".into(), "$missing".into(), "$b".into()];
    let out = resolve_sorted_full_spec(&input, &ids);
    assert_eq!(out.event_count, 2);
    assert_eq!(out.resolved_state_hash, digest(&[("m.room.member", "@u", "$b")]));
}

#[test]
fn origin_server_ts_reads_the_field() {
    let (_, ev) = guest("$a", "t", None, 12345);
    assert_eq!(ev.origin_server_ts(), 12345);
}

#[test]
fn edge_differences_count_bytes() {
    let a = [0u8; 32];
    let mut b = [0u8; 32];
    b[0] = 1;
    b[31] = 9;
    assert_eq!(count_edge_differences(&vec![]), 0);
    assert_eq!(count_edge_differences(&vec![(a, a)]), 0);
    assert_eq!(count_edge_differences(&vec![(a, b), (b, a), (b, b)]), 4);
    assert_eq!(count_edge_differences(&vec![(a, [7u8; 32])]), 32);
}

#[test]
fn join_check_needs_proof_and_commitment() {
    assert!(verify_matrix_join(&[1], &[2], "hash"));
    assert!(!verify_matrix_join(&[], &[2], "hash"));
    assert!(!verify_matrix_join(&[1], &[], "hash"));
    assert!(!verify_matrix_join(&[], &[], ""));
}

fn fields(id: Option<&str>, pl: Option<u64>) -> EventFields {
    EventFields {
        event_id: id.map(|s| s.to_string()),
        event_type: Some("m.room.member".to_string()),
        state_key: None,
        prev_events: vec!["$p".to_string()],
        power_level: pl,
    }
}

#[test]
fn prepared_events_take_defaults_and_limit() {
    let raw = vec![fields(Some("$a"), Some(50)), fields(None, None), fields(Some("$c"), Some(0))];
    let all = prepare_events(&raw, None);
    assert_eq!(all.len(), 3);
    assert_eq!(all[0].event_id, "$a");
    assert_eq!(all[0].power_level, 50);
    assert_eq!(all[1].event_id, "");
    assert_eq!(all[1].state_key, "");
    assert_eq!(all[1].power_level, DEFAULT_POWER_LEVEL);
    assert_eq!(all[1].power_level, 100);
    assert_eq!(all[2].prev_events, vec!["$p".to_string()]);
    assert_eq!(prepare_events(&raw, Some(2)).len(), 2);
    assert_eq!(prepare_events(&raw, Some(10)).len(), 3);
    assert_eq!(prepare_events(&raw, Some(0)).len(), 0);
}

#[test]
fn decimal_rendering() {
    for n in [0usize, 7, 10, 99, 100, 12345, usize::MAX] {
        let mut s = String::from("x=");
        ruma_zk::decimal::push_decimal(&mut s, n);
        assert_eq!(s, format!("x={}", n));
    }
}
