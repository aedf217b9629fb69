use ruma_zk::hybrid::{count_ones, is_valid_route, prove_hybrid_resolution, DAGMergeInput, HybridEventHint};
use ruma_zk::state::{state_fingerprint, StateWrite};
use sha2::{Digest, Sha256};

fn write(t: &str, k: &str, id: &str) -> StateWrite {
    StateWrite {
        event_type: t.to_string(),
        state_key: k.to_string(),
        event_id: id.to_string(),
    }
}

fn digest(parts: &[(&str, &str, &str)]) -> [u8; 32] {
    let mut h = Sha256::new();
    for (t, k, id) in parts {
        h.update(t.as_bytes());
        h.update(k.as_bytes());
        h.update(id.as_bytes());
    }
    h.finalize().into()
}

#[test]
fn fingerprint_of_empty_state() {
    let empty: [u8; 32] = Sha256::digest(b"").into();
    assert_eq!(state_fingerprint(&vec![]), empty);
}

#[test]
fn fingerprint_sorts_keys_and_keeps_last_write() {
    let writes = vec![
        write("m.room.member", "@bob", "$1"),
        write("m.room.create", "", "$2"),
        write("m.room.member", "@alice", "$3"),
        write("m.room.member", "@bob", "$4"),
    ];
    let expected = digest(&[
        ("m.room.create", "", "$2"),
        ("m.room.member", "@alice", "$3"),
        ("m.room.member", "@bob", "$4"),
    ]);
    assert_eq!(state_fingerprint(&writes), expected);
}

#[test]
fn fingerprint_orders_prefixes_first() {
    let writes = vec![write("ab", "", "$1"), write("a", "b", "$2"), write("a", "", "$3")];
    let expected = digest(&[("a", "", "$3"), ("a", "b", "$2"), ("ab", "", "$1")]);
    assert_eq!(state_fingerprint(&writes), expected);
}

#[test]
fn fingerprint_depends_only_on_the_resulting_state() {
    let w1 = vec![write("t", "x", "$1"), write("t", "y", "$2"), write("t", "x", "$3")];
    let w2 = vec![write("t", "y", "$2"), write("t", "x", "$3")];
    let w3 = vec![write("t", "x", "$3"), write("t", "y", "$9"), write("t", "y", "$2")];
    assert_eq!(state_fingerprint(&w1), state_fingerprint(&w2));
    assert_eq!(state_fingerprint(&w1), state_fingerprint(&w3));
    let w4 = vec![write("t", "x", "$1"), write("t", "y", "$2")];
    assert_ne!(state_fingerprint(&w1), state_fingerprint(&w4));
}

#[test]
fn fingerprint_compares_bytes_of_non_ascii_keys() {
    let writes = vec![write("é", "", "$1"), write("z", "", "$2")];
    // 'z' (0x7a) sorts before the first byte of 'é' (0xc3).
    let expected = digest(&[("z", "", "$2"), ("é", "", "$1")]);
    assert_eq!(state_fingerprint(&writes), expected);
}

fn hint(id: &str, t: &str, k: &str, coordinate: u32) -> HybridEventHint {
    HybridEventHint {
        event_id: id.to_string(),
        event_type: t.to_string(),
        state_key: k.to_string(),
        coordinate,
    }
}

#[test]
fn bit_counts() {
    assert_eq!(count_ones(0), 0);
    assert_eq!(count_ones(1), 1);
    assert_eq!(count_ones(0b1011), 3);
    assert_eq!(count_ones(u32::MAX), 32);
    assert_eq!(count_ones(0x8000_0000), 1);
}

#[test]
fn routes_flip_one_bit_per_hop() {
    assert!(is_valid_route(&vec![]));
    assert!(is_valid_route(&vec![hint("$a", "t", "", 5)]));
    assert!(is_valid_route(&vec![
        hint("$a", "t", "", 0),
        hint("$b", "t", "", 1),
        hint("$c", "t", "", 3),
        hint("$d", "t", "", 7),
        hint("$e", "t", "", 6),
    ]));
    assert!(!is_valid_route(&vec![hint("$a", "t", "", 0), hint("$b", "t", "", 3)]));
    assert!(!is_valid_route(&vec![hint("$a", "t", "", 4), hint("$b", "t", "", 4)]));
}

#[test]
fn hybrid_resolution_fingerprints_last_writer_state() {
    let events = vec![
        hint("$1", "m.room.member", "@bob", 0),
        hint("$2", "m.room.create", "", 1),
        hint("$3", "m.room.member", "@bob", 3),
    ];
    let out = prove_hybrid_resolution(DAGMergeInput { sorted_events: events });
    assert_eq!(out.event_count, 3);
    assert_eq!(
        out.resolved_state_hash,
        digest(&[("m.room.create", "", "$2"), ("m.room.member", "@bob", "$3")])
    );
}

#[test]
fn hybrid_resolution_of_no_events() {
    let out = prove_hybrid_resolution(DAGMergeInput { sorted_events: vec![] });
    assert_eq!(out.event_count, 0);
    let empty: [u8; 32] = Sha256::digest(b"").into();
    assert_eq!(out.resolved_state_hash, empty);
}
