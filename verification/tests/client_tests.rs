use engarde::config::{ClientConfig, DstOverride};
use engarde::exclusion::{is_excluded, ExclusionSwaps};
use engarde::ingress::{accept_upstream, targets_for_ids};
use engarde::interfaces::{get_address_by_interface, interface_exists, IfaceRow, Ipv4Octets};
use engarde::linktable::{link_states_for, LinkTable};
use engarde::management::{build_interface_list, LinkStatus};
use engarde::poller::plan_reconcile;
use engarde::scheduler::{PacketMeta, Scheduler, SchedulerAlgorithm, SchedulerFactory};
use engarde::scheduler::AggregationConfig;

fn ip(a: u8, b: u8, c: u8, d: u8) -> Ipv4Octets {
    Ipv4Octets { a, b, c, d }
}

fn row(name: &str, addr: Option<Ipv4Octets>) -> IfaceRow {
    IfaceRow { name: name.to_string(), ipv4: addr }
}

fn cfg(excluded: Vec<&str>, overrides: Vec<(&str, &str)>) -> ClientConfig {
    ClientConfig {
        description: None,
        listen_addr: "127.0.0.1:5000".to_string(),
        dst_addr: "203.0.113.9:59401".to_string(),
        write_timeout: Some(10),
        excluded_interfaces: excluded.into_iter().map(|s| s.to_string()).collect(),
        dst_overrides: overrides
            .into_iter()
            .map(|(n, d)| DstOverride { if_name: n.to_string(), dst_addr: d.to_string() })
            .collect(),
        web_manager: None,
    }
}

#[test]
fn swap_exclusion_toggles_effective_exclusion() {
    let excluded = vec!["eth1".to_string()];
    let mut swaps = ExclusionSwaps::new();
    assert!(is_excluded("eth1", &excluded, &swaps));
    assert!(!is_excluded("eth0", &excluded, &swaps));

    swaps.swap_exclusion("eth1");
    assert!(!is_excluded("eth1", &excluded, &swaps));

    swaps.swap_exclusion("eth1");
    assert!(is_excluded("eth1", &excluded, &swaps));
}

#[test]
fn swapping_an_unconfigured_interface_excludes_it() {
    let excluded: Vec<String> = Vec::new();
    let mut swaps = ExclusionSwaps::new();
    assert!(!is_excluded("wlan0", &excluded, &swaps));
    swaps.swap_exclusion("wlan0");
    assert!(is_excluded("wlan0", &excluded, &swaps));
    swaps.reset_exclusions();
    assert!(!is_excluded("wlan0", &excluded, &swaps));
}

#[test]
fn mark_included_and_exclude_are_idempotent() {
    let mut swaps = ExclusionSwaps::new();
    assert!(swaps.exclude("eth2"));
    assert!(!swaps.exclude("eth2"));
    assert!(swaps.is_swapped("eth2"));
    assert!(swaps.mark_included("eth2"));
    assert!(!swaps.mark_included("eth2"));
    assert!(!swaps.is_swapped("eth2"));
}

#[test]
fn destination_override_wins_over_default() {
    let c = cfg(vec![], vec![("eth1", "198.51.100.4:59401")]);
    assert_eq!(
        engarde::config::get_dst_by_ifname("eth1", &c),
        "198.51.100.4:59401"
    );
    assert_eq!(
        engarde::config::get_dst_by_ifname("eth0", &c),
        "203.0.113.9:59401"
    );
}

#[test]
fn address_selection_skips_loopback_and_link_local() {
    let rows = vec![
        row("eth0", Some(ip(127, 0, 0, 1))),
        row("eth0", Some(ip(169, 254, 3, 4))),
        row("eth0", Some(ip(192, 168, 1, 10))),
        row("eth1", None),
    ];
    assert_eq!(
        get_address_by_interface("eth0", &rows),
        Some(ip(192, 168, 1, 10))
    );
    assert_eq!(get_address_by_interface("eth1", &rows), None);
    assert!(interface_exists("eth1", &rows));
    assert!(!interface_exists("eth2", &rows));
}

#[test]
fn link_table_upsert_remove_touch_snapshot() {
    let mut table = LinkTable::new();
    assert!(table.upsert("eth0", ip(192, 168, 1, 10), "203.0.113.9:59401".to_string(), 100));
    assert!(table.upsert("eth1", ip(10, 0, 0, 2), "203.0.113.9:59401".to_string(), 150));

    // Same name, different source address: refused until removed.
    assert!(!table.upsert("eth0", ip(192, 168, 1, 11), "203.0.113.9:59401".to_string(), 200));
    // Same name, same source address: destination refreshed.
    assert!(table.upsert("eth0", ip(192, 168, 1, 10), "198.51.100.4:59401".to_string(), 250));

    let snap = table.snapshot();
    assert_eq!(snap.len(), 2);
    assert_eq!(snap[0].name, "eth0");
    assert_eq!(snap[0].destination_address, "198.51.100.4:59401");
    assert_eq!(snap[0].last_receive_micros, 100);
    assert_ne!(snap[0].id, snap[1].id);

    assert!(table.touch("eth0", 900));
    assert!(!table.touch("eth9", 900));
    // The earlier snapshot is a deep copy: the touch did not reach it.
    assert_eq!(snap[0].last_receive_micros, 100);

    assert!(table.remove("eth0"));
    assert!(!table.remove("eth0"));
    let snap2 = table.snapshot();
    assert_eq!(snap2.len(), 1);
    assert_eq!(snap2[0].name, "eth1");
}

#[test]
fn reconcile_removes_excluded_and_vanished_and_changed() {
    let mut table = LinkTable::new();
    table.upsert("eth0", ip(192, 168, 1, 10), "d".to_string(), 0);
    table.upsert("eth1", ip(10, 0, 0, 2), "d".to_string(), 0);
    table.upsert("eth2", ip(10, 0, 0, 3), "d".to_string(), 0);
    table.upsert("eth3", ip(10, 0, 0, 4), "d".to_string(), 0);

    let rows = vec![
        row("eth0", Some(ip(192, 168, 1, 10))),
        row("eth1", Some(ip(10, 0, 0, 2))),
        // eth2 vanished entirely.
        row("eth3", Some(ip(10, 0, 0, 99))),
        row("eth4", Some(ip(10, 0, 0, 5))),
        row("lo", Some(ip(127, 0, 0, 1))),
    ];
    let excluded = vec!["eth1".to_string()];
    let swaps = ExclusionSwaps::new();

    let plan = plan_reconcile(&table, &rows, &excluded, &swaps);
    let mut removed = plan.remove.clone();
    removed.sort();
    // eth1 excluded, eth2 gone, eth3 changed address.
    assert_eq!(removed, vec!["eth1", "eth2", "eth3"]);

    let added: Vec<(String, Ipv4Octets)> =
        plan.add.iter().map(|p| (p.name.clone(), p.ip)).collect();
    // eth3 is re-added under its new address; eth4 is new; lo has no usable
    // address; eth1 stays excluded.
    assert!(added.contains(&("eth3".to_string(), ip(10, 0, 0, 99))));
    assert!(added.contains(&("eth4".to_string(), ip(10, 0, 0, 5))));
    assert_eq!(added.len(), 2);
}

#[test]
fn excluded_interface_gets_no_datagram() {
    // Poller tick with eth1 excluded, then a downstream datagram: the
    // mirror fan-out reaches the two other links only.
    let mut table = LinkTable::new();
    table.upsert("eth0", ip(192, 168, 1, 10), "d0".to_string(), 0);
    table.upsert("eth1", ip(10, 0, 0, 2), "d1".to_string(), 0);
    table.upsert("eth2", ip(10, 0, 0, 3), "d2".to_string(), 0);

    let rows = vec![
        row("eth0", Some(ip(192, 168, 1, 10))),
        row("eth1", Some(ip(10, 0, 0, 2))),
        row("eth2", Some(ip(10, 0, 0, 3))),
    ];
    let excluded = vec!["eth1".to_string()];
    let swaps = ExclusionSwaps::new();

    let plan = plan_reconcile(&table, &rows, &excluded, &swaps);
    assert_eq!(plan.remove, vec!["eth1"]);
    assert!(plan.add.is_empty());
    for name in &plan.remove {
        table.remove(name.as_str());
    }

    let snapshot = table.snapshot();
    let weights = vec![1000; snapshot.len()];
    let mut states = link_states_for(&snapshot, &weights);
    let mut scheduler =
        SchedulerFactory::build(SchedulerAlgorithm::Mirror, &AggregationConfig::default())
            .unwrap();
    let ids = scheduler.select_paths(1200, &PacketMeta::default(), &mut states);
    let targets = targets_for_ids(&snapshot, &ids);
    let names: Vec<&str> = targets.iter().map(|t| t.0.as_str()).collect();
    assert_eq!(names, vec!["eth0", "eth2"]);
    assert_eq!(targets[0].1, "d0");
    assert_eq!(targets[1].1, "d2");
}

#[test]
fn swap_exclusion_lets_the_poller_re_add() {
    let mut table = LinkTable::new();
    let rows = vec![row("eth1", Some(ip(10, 0, 0, 2)))];
    let excluded = vec!["eth1".to_string()];
    let mut swaps = ExclusionSwaps::new();

    let plan = plan_reconcile(&table, &rows, &excluded, &swaps);
    assert!(plan.add.is_empty());

    swaps.swap_exclusion("eth1");
    let plan2 = plan_reconcile(&table, &rows, &excluded, &swaps);
    assert_eq!(plan2.add.len(), 1);
    assert_eq!(plan2.add[0].name, "eth1");
    table.upsert("eth1", plan2.add[0].ip, "d".to_string(), 0);

    swaps.swap_exclusion("eth1");
    let plan3 = plan_reconcile(&table, &rows, &excluded, &swaps);
    assert_eq!(plan3.remove, vec!["eth1"]);
}

#[test]
fn interface_list_reports_status_and_age() {
    let mut table = LinkTable::new();
    table.upsert("eth0", ip(192, 168, 1, 10), "203.0.113.9:59401".to_string(), 5_000_000);

    let rows = vec![
        row("eth0", Some(ip(192, 168, 1, 10))),
        row("eth0", Some(ip(192, 168, 1, 10))),
        row("eth1", Some(ip(10, 0, 0, 2))),
        row("eth2", Some(ip(10, 0, 0, 3))),
    ];
    let c = cfg(vec!["eth2"], vec![]);
    let swaps = ExclusionSwaps::new();
    let snapshot = table.snapshot();

    let list = build_interface_list(&rows, &snapshot, &c, &swaps, 12_000_000);
    assert_eq!(list.len(), 3);

    let eth0 = list.iter().find(|r| r.name == "eth0").unwrap();
    assert_eq!(eth0.status, LinkStatus::Active);
    assert_eq!(eth0.sender_address, Some(ip(192, 168, 1, 10)));
    assert_eq!(eth0.last_seconds, Some(7));

    let eth1 = list.iter().find(|r| r.name == "eth1").unwrap();
    assert_eq!(eth1.status, LinkStatus::Idle);
    assert_eq!(eth1.last_seconds, None);

    let eth2 = list.iter().find(|r| r.name == "eth2").unwrap();
    assert_eq!(eth2.status, LinkStatus::Excluded);
    assert_eq!(eth2.last_seconds, None);
}

#[test]
fn upstream_filter_accepts_only_the_configured_destination() {
    assert!(accept_upstream("203.0.113.9:59401", "203.0.113.9:59401"));
    assert!(!accept_upstream("198.51.100.7:4000", "203.0.113.9:59401"));
}
