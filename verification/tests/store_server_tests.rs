use engarde::server::{decode_frame_len, encode_frame_len, ClientRegistry, Mode};
use engarde::weights::{parse_weights, WeightStore};

fn names(list: &[&str]) -> Vec<String> {
    list.iter().map(|s| s.to_string()).collect()
}

#[test]
fn ensure_interfaces_is_idempotent() {
    let mut store = WeightStore::new();
    let ifaces = names(&["eth0", "eth1", "eth0"]);

    assert!(store.ensure_interfaces(&ifaces));
    assert_eq!(store.version, 1);
    assert_eq!(store.weights_for(&ifaces), vec![1000, 1000, 1000]);

    // A second pass adds nothing and leaves the version alone.
    assert!(!store.ensure_interfaces(&ifaces));
    assert_eq!(store.version, 1);
    assert_eq!(store.weights_for(&ifaces), vec![1000, 1000, 1000]);
}

#[test]
fn weights_for_defaults_missing_names_to_one() {
    let mut store = WeightStore::new();
    assert!(store.reload("eth0: 2.5\neth1: 0.25\n"));
    let w = store.weights_for(&names(&["eth0", "eth1", "eth7"]));
    assert_eq!(w, vec![2500, 250, 1000]);
}

#[test]
fn parse_weights_reads_plain_and_decimal_values() {
    let parsed = parse_weights("eth0: 3\neth1: 1.5\n\neth2:0.125\n").unwrap();
    let pairs: Vec<(String, u64)> =
        parsed.iter().map(|e| (e.name.clone(), e.weight_milli)).collect();
    assert_eq!(
        pairs,
        vec![
            ("eth0".to_string(), 3000),
            ("eth1".to_string(), 1500),
            ("eth2".to_string(), 125),
        ]
    );
}

#[test]
fn parse_weights_rejects_bad_lines() {
    assert!(parse_weights("eth0 3\n").is_none());
    assert!(parse_weights("eth0: -1\n").is_none());
    assert!(parse_weights("eth0: 1.2345\n").is_none());
    assert!(parse_weights("eth0: \n").is_none());
    assert!(parse_weights(": 3\n").is_none());
    assert!(parse_weights("eth0: 1.5x\n").is_none());
    assert!(parse_weights("eth0: 18446744073709551616\n").is_none());
}

#[test]
fn reload_keeps_previous_state_on_error() {
    let mut store = WeightStore::new();
    assert!(store.reload("eth0: 2\n"));
    assert_eq!(store.version, 1);

    // A malformed file leaves the mapping and version untouched.
    assert!(!store.reload("eth0: oops\n"));
    assert_eq!(store.version, 1);
    assert_eq!(store.weights_for(&names(&["eth0"])), vec![2000]);

    // So does a file that lists a name twice.
    assert!(!store.reload("eth0: 1\neth0: 2\n"));
    assert_eq!(store.version, 1);
    assert_eq!(store.weights_for(&names(&["eth0"])), vec![2000]);

    assert!(store.reload("eth0: 4\n"));
    assert_eq!(store.version, 2);
    assert_eq!(store.weights_for(&names(&["eth0"])), vec![4000]);
}

#[test]
fn client_registry_tracks_last_heard() {
    let mut reg = ClientRegistry::new();
    reg.upsert("198.51.100.7:4000", 1_000_000);
    reg.upsert("198.51.100.8:4001", 2_000_000);
    reg.upsert("198.51.100.7:4000", 40_000_000);

    // 30-second timeout at t=45s: the refreshed client lives, the other is stale.
    let (live, stale) = reg.plan_broadcast(45_000_000, 30_000_000);
    assert_eq!(live, vec!["198.51.100.7:4000"]);
    assert_eq!(stale, vec!["198.51.100.8:4001"]);

    for key in &stale {
        assert!(reg.remove(key.as_str()));
    }
    let (live2, stale2) = reg.plan_broadcast(45_000_000, 30_000_000);
    assert_eq!(live2, vec!["198.51.100.7:4000"]);
    assert!(stale2.is_empty());

    assert!(!reg.remove("198.51.100.9:4002"));
}

#[test]
fn frame_length_round_trips() {
    for len in [0usize, 1, 255, 256, 1500, 65535] {
        let (hi, lo) = encode_frame_len(len);
        assert_eq!(decode_frame_len(hi, lo), len);
    }
    assert_eq!(encode_frame_len(1500), (5, 220));
    assert_eq!(decode_frame_len(5, 220), 1500);
}

#[test]
fn server_mode_defaults_to_udp() {
    assert_eq!(Mode::default(), Mode::Udp);
}

#[test]
fn reload_of_empty_file_clears_the_mapping() {
    let mut store = WeightStore::new();
    assert!(store.reload("eth0: 2\n"));
    assert!(store.reload(""));
    assert_eq!(store.version, 2);
    assert_eq!(store.weights_for(&names(&["eth0"])), vec![1000]);
}

#[test]
fn ensure_interfaces_with_no_names_changes_nothing() {
    let mut store = WeightStore::new();
    assert!(!store.ensure_interfaces(&Vec::new()));
    assert_eq!(store.version, 0);
}
