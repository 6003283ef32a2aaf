use std::collections::HashMap;

use engarde::scheduler::{
    AggregationConfig, FecMeta, LinkState, PacketMeta, PathId, Replica2WeightedConfig, Scheduler,
    SchedulerAlgorithm, SchedulerError, SchedulerFactory, SchedulerMetrics,
};

fn link(
    id: u32,
    up: bool,
    weight_milli: u64,
    rtt_ms: u64,
    loss_per_million: u64,
    send_bps: u64,
    inflight: u64,
    tokens: usize,
) -> LinkState {
    LinkState {
        id: PathId::new(id),
        up,
        weight_milli,
        rtt_micros: rtt_ms * 1000,
        loss_per_million,
        send_bps,
        inflight_bytes: inflight,
        tokens,
    }
}

fn default_config() -> AggregationConfig {
    AggregationConfig {
        min_links_for_aggregation: 3,
        algorithm: SchedulerAlgorithm::Replica2Weighted,
        replica2: Replica2WeightedConfig::default(),
    }
}

#[test]
fn replica2_selects_two_distinct_links_when_enough_candidates() {
    let mut scheduler =
        SchedulerFactory::build(SchedulerAlgorithm::Replica2Weighted, &default_config()).unwrap();

    let mut links = vec![
        link(1, true, 1000, 10, 0, 1_000_000, 1000, 2000),
        link(2, true, 1000, 12, 0, 1_000_000, 1100, 2000),
        link(3, true, 1000, 30, 0, 1_000_000, 2000, 2000),
    ];
    let paths = scheduler.select_paths(1200, &PacketMeta::default(), &mut links);
    assert_eq!(paths.len(), 2);
    assert_ne!(paths[0], paths[1]);
}

#[test]
fn replica2_falls_back_when_links_below_threshold() {
    let mut scheduler =
        SchedulerFactory::build(SchedulerAlgorithm::Replica2Weighted, &default_config()).unwrap();

    let mut links = vec![
        link(1, true, 1000, 10, 0, 1_000_000, 500, 2000),
        link(2, true, 2000, 15, 0, 1_000_000, 800, 2000),
    ];
    let paths = scheduler.select_paths(1200, &PacketMeta::default(), &mut links);
    assert_eq!(paths.len(), 1);
    let metrics = scheduler.metrics();
    assert_eq!(metrics.replica2_fallbacks, 1);
}

#[test]
fn replica2_skips_links_without_tokens() {
    let mut scheduler =
        SchedulerFactory::build(SchedulerAlgorithm::Replica2Weighted, &default_config()).unwrap();

    let mut links = vec![
        link(1, true, 1000, 10, 0, 1_000_000, 1000, 2000),
        link(2, true, 1000, 11, 0, 1_000_000, 1000, 500),
        link(3, true, 1000, 12, 0, 1_000_000, 1000, 2000),
    ];
    let paths = scheduler.select_paths(1200, &PacketMeta::default(), &mut links);
    assert_eq!(paths.len(), 2);
    assert!(!paths.iter().any(|id| id.0 == 2));
    let metrics = scheduler.metrics();
    assert_eq!(metrics.no_token_skips, 1);
}

#[test]
fn higher_weights_are_preferred_with_equal_conditions() {
    let mut scheduler =
        SchedulerFactory::build(SchedulerAlgorithm::Replica2Weighted, &default_config()).unwrap();

    let mut primary_counts: HashMap<PathId, usize> = HashMap::new();
    let mut links = vec![
        link(1, true, 3000, 10, 0, 1_000_000, 1000, 5000),
        link(2, true, 1000, 10, 0, 1_000_000, 1000, 5000),
        link(3, true, 1000, 10, 0, 1_000_000, 1000, 5000),
    ];

    for _ in 0..10 {
        for l in &mut links {
            l.tokens = 5000;
        }
        let paths = scheduler.select_paths(1200, &PacketMeta::default(), &mut links);
        if let Some(primary) = paths.get(0) {
            *primary_counts.entry(*primary).or_insert(0) += 1;
        }
    }

    let high_weight_primary = primary_counts.get(&PathId::new(1)).copied().unwrap_or_default();
    let low_weight_primary_a = primary_counts.get(&PathId::new(2)).copied().unwrap_or_default();
    let low_weight_primary_b = primary_counts.get(&PathId::new(3)).copied().unwrap_or_default();
    assert!(high_weight_primary > low_weight_primary_a);
    assert!(high_weight_primary > low_weight_primary_b);
}

#[test]
fn factory_returns_error_for_fec_kn() {
    let config = AggregationConfig::default();
    let err = SchedulerFactory::build(SchedulerAlgorithm::FecKn, &config)
        .err()
        .expect("expected fec_kn to be unsupported");
    match err {
        SchedulerError::Unsupported(name) => assert_eq!(name, "fec_kn"),
    }
}

#[test]
fn replica2_orders_by_eta_with_id_tie_break() {
    let mut scheduler =
        SchedulerFactory::build(SchedulerAlgorithm::Replica2Weighted, &default_config()).unwrap();

    let mut links = vec![
        link(1, true, 1000, 10, 0, 1_000_000, 1000, 2000),
        link(2, true, 1000, 12, 0, 1_000_000, 1100, 2000),
        link(3, true, 1000, 30, 0, 1_000_000, 2000, 2000),
    ];
    let paths = scheduler.select_paths(1200, &PacketMeta::default(), &mut links);
    assert_eq!(paths, vec![PathId::new(1), PathId::new(2)]);
    assert_eq!(links[0].tokens, 800);
    assert_eq!(links[1].tokens, 800);
    assert_eq!(links[2].tokens, 2000);
    let metrics = scheduler.metrics();
    assert_eq!(metrics.replica2_primary, 1);
    assert_eq!(metrics.replica2_secondary, 1);
}

#[test]
fn mirror_selects_every_eligible_link() {
    let mut scheduler =
        SchedulerFactory::build(SchedulerAlgorithm::Mirror, &AggregationConfig::default())
            .unwrap();

    let mut links = vec![
        link(1, true, 1000, 10, 0, 1_000_000, 0, 2000),
        link(2, false, 1000, 10, 0, 1_000_000, 0, 2000),
        link(3, true, 1000, 10, 0, 1_000_000, 0, 500),
        link(4, true, 1000, 10, 0, 1_000_000, 0, 1200),
    ];
    let paths = scheduler.select_paths(1200, &PacketMeta::default(), &mut links);
    assert_eq!(paths, vec![PathId::new(1), PathId::new(4)]);
    assert_eq!(links[0].tokens, 800);
    assert_eq!(links[1].tokens, 2000);
    assert_eq!(links[2].tokens, 500);
    assert_eq!(links[3].tokens, 0);
}

#[test]
fn wrr_follows_weights_over_many_rounds() {
    let mut scheduler = SchedulerFactory::build(
        SchedulerAlgorithm::WeightedRoundRobin,
        &AggregationConfig::default(),
    )
    .unwrap();

    let mut counts: HashMap<u32, usize> = HashMap::new();
    let mut links = vec![
        link(1, true, 3000, 10, 0, 1_000_000, 0, 5000),
        link(2, true, 1000, 10, 0, 1_000_000, 0, 5000),
        link(3, true, 1000, 10, 0, 1_000_000, 0, 5000),
    ];
    for _ in 0..1000 {
        for l in &mut links {
            l.tokens = 5000;
        }
        let paths = scheduler.select_paths(1200, &PacketMeta::default(), &mut links);
        assert_eq!(paths.len(), 1);
        *counts.entry(paths[0].0).or_insert(0) += 1;
    }
    let c1 = counts.get(&1).copied().unwrap_or_default();
    let c2 = counts.get(&2).copied().unwrap_or_default();
    let c3 = counts.get(&3).copied().unwrap_or_default();
    assert_eq!(c1 + c2 + c3, 1000);
    assert!((570..=630).contains(&c1), "link 1 selected {} times", c1);
    assert!((170..=230).contains(&c2), "link 2 selected {} times", c2);
    assert!((170..=230).contains(&c3), "link 3 selected {} times", c3);
}

#[test]
fn wrr_skips_zero_weight_and_token_starved_links() {
    let mut scheduler = SchedulerFactory::build(
        SchedulerAlgorithm::WeightedRoundRobin,
        &AggregationConfig::default(),
    )
    .unwrap();

    let mut links = vec![
        link(1, true, 0, 10, 0, 1_000_000, 0, 5000),
        link(2, true, 1000, 10, 0, 1_000_000, 0, 100),
        link(3, true, 1000, 10, 0, 1_000_000, 0, 5000),
    ];
    let paths = scheduler.select_paths(1200, &PacketMeta::default(), &mut links);
    assert_eq!(paths, vec![PathId::new(3)]);
    assert_eq!(links[2].tokens, 3800);

    let mut no_links = vec![link(4, false, 1000, 10, 0, 1_000_000, 0, 5000)];
    let empty = scheduler.select_paths(1200, &PacketMeta::default(), &mut no_links);
    assert!(empty.is_empty());
}

#[test]
fn replica2_single_candidate_is_lone_primary() {
    let mut scheduler =
        SchedulerFactory::build(SchedulerAlgorithm::Replica2Weighted, &default_config()).unwrap();

    let mut links = vec![
        link(1, true, 1000, 10, 0, 1_000_000, 0, 100),
        link(2, true, 1000, 11, 0, 1_000_000, 0, 2000),
        link(3, true, 1000, 12, 0, 1_000_000, 0, 900),
    ];
    let paths = scheduler.select_paths(1200, &PacketMeta::default(), &mut links);
    assert_eq!(paths, vec![PathId::new(2)]);
    assert_eq!(links[1].tokens, 800);
    let metrics = scheduler.metrics();
    assert_eq!(metrics.replica2_primary, 1);
    assert_eq!(metrics.replica2_secondary, 0);
    assert_eq!(metrics.no_token_skips, 2);
}

#[test]
fn scheduler_metrics_accumulate_adds_counters() {
    let mut m = SchedulerMetrics::default();
    let other = SchedulerMetrics {
        replica2_primary: 3,
        replica2_secondary: 2,
        replica2_fallbacks: 1,
        no_token_skips: 7,
    };
    m.accumulate(other);
    m.accumulate(other);
    assert_eq!(m.replica2_primary, 6);
    assert_eq!(m.replica2_secondary, 4);
    assert_eq!(m.replica2_fallbacks, 2);
    assert_eq!(m.no_token_skips, 14);
}

#[test]
fn algorithm_from_number_maps_known_values() {
    assert_eq!(SchedulerAlgorithm::from_number(1), SchedulerAlgorithm::Mirror);
    assert_eq!(
        SchedulerAlgorithm::from_number(2),
        SchedulerAlgorithm::WeightedRoundRobin
    );
    assert_eq!(SchedulerAlgorithm::from_number(3), SchedulerAlgorithm::Mirror);
    assert_eq!(SchedulerAlgorithm::from_number(99), SchedulerAlgorithm::Mirror);
}

#[test]
fn algorithm_from_name_maps_known_names() {
    assert_eq!(
        SchedulerAlgorithm::from_name("mirror"),
        Some(SchedulerAlgorithm::Mirror)
    );
    assert_eq!(
        SchedulerAlgorithm::from_name("mirror_all"),
        Some(SchedulerAlgorithm::Mirror)
    );
    assert_eq!(
        SchedulerAlgorithm::from_name("wrr"),
        Some(SchedulerAlgorithm::WeightedRoundRobin)
    );
    assert_eq!(
        SchedulerAlgorithm::from_name("weighted_round_robin"),
        Some(SchedulerAlgorithm::WeightedRoundRobin)
    );
    assert_eq!(
        SchedulerAlgorithm::from_name("replica2_weighted"),
        Some(SchedulerAlgorithm::Replica2Weighted)
    );
    assert_eq!(
        SchedulerAlgorithm::from_name("replica2"),
        Some(SchedulerAlgorithm::Replica2Weighted)
    );
    assert_eq!(
        SchedulerAlgorithm::from_name("fec_kn"),
        Some(SchedulerAlgorithm::FecKn)
    );
    assert_eq!(SchedulerAlgorithm::from_name("fec"), Some(SchedulerAlgorithm::FecKn));
    assert_eq!(SchedulerAlgorithm::from_name("bogus"), None);
}

#[test]
fn scheduler_error_message_names_the_algorithm() {
    let err = SchedulerError::Unsupported("fec_kn");
    assert_eq!(err.message(), "scheduler 'fec_kn' is not implemented");
}

#[test]
fn link_state_new_starts_up_with_unit_weight() {
    let l = LinkState::new(PathId::new(7));
    assert_eq!(l.id, PathId::new(7));
    assert!(l.up);
    assert_eq!(l.weight_milli, 1000);
    assert_eq!(l.rtt_micros, 0);
    assert_eq!(l.loss_per_million, 0);
    assert_eq!(l.tokens, usize::MAX);
}

#[test]
fn fec_meta_defaults_to_no_shards() {
    let meta = PacketMeta::default();
    assert!(meta.fec.is_none());
    let fec = FecMeta::default();
    assert_eq!(fec.data_shards, 0);
    assert_eq!(fec.parity_shards, 0);
}

#[test]
fn replica2_loss_raises_eta() {
    let mut scheduler =
        SchedulerFactory::build(SchedulerAlgorithm::Replica2Weighted, &default_config()).unwrap();

    // Link 1 has the lowest RTT but heavy loss; loss_penalty 5.0 pushes it last.
    let mut links = vec![
        link(1, true, 1000, 10, 100_000, 1_000_000, 0, 2000),
        link(2, true, 1000, 20, 0, 1_000_000, 0, 2000),
        link(3, true, 1000, 30, 0, 1_000_000, 0, 2000),
    ];
    let paths = scheduler.select_paths(1200, &PacketMeta::default(), &mut links);
    assert_eq!(paths, vec![PathId::new(2), PathId::new(3)]);
}

#[test]
fn mirror_is_reused_when_scheduler_is_built_for_mirror() {
    let s = SchedulerFactory::build(SchedulerAlgorithm::Mirror, &AggregationConfig::default());
    assert!(matches!(s, Ok(Scheduler::Mirror(_))));
    let metrics = s.unwrap().metrics();
    assert_eq!(metrics, SchedulerMetrics::default());
}

#[test]
fn replica2_returns_nothing_when_no_link_has_tokens() {
    let mut scheduler =
        SchedulerFactory::build(SchedulerAlgorithm::Replica2Weighted, &default_config()).unwrap();

    let mut links = vec![
        link(1, true, 1000, 10, 0, 1_000_000, 0, 100),
        link(2, true, 1000, 11, 0, 1_000_000, 0, 100),
        link(3, true, 1000, 12, 0, 1_000_000, 0, 100),
    ];
    let paths = scheduler.select_paths(1200, &PacketMeta::default(), &mut links);
    assert!(paths.is_empty());
    let metrics = scheduler.metrics();
    assert_eq!(metrics.no_token_skips, 3);
    assert_eq!(metrics.replica2_fallbacks, 1);
    assert_eq!(links[0].tokens, 100);
    assert_eq!(links[1].tokens, 100);
    assert_eq!(links[2].tokens, 100);
}

#[test]
fn mirror_returns_nothing_for_empty_link_set() {
    let mut scheduler =
        SchedulerFactory::build(SchedulerAlgorithm::Mirror, &AggregationConfig::default())
            .unwrap();
    let mut links: Vec<LinkState> = Vec::new();
    let paths = scheduler.select_paths(1200, &PacketMeta::default(), &mut links);
    assert!(paths.is_empty());
}
