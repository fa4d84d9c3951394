use paros_sim::quorum::{grid_layouts, QuorumPolicy, QuorumSystem};
use paros_sim::roles::{rank_hosts, AddressKey, Deployment, HostIp, Role};
use paros_sim::shape::{
    config_floor, matchmaker_floor, select_policy, window_ranks, NodeShape, Registry, Tunables,
};

fn defaults() -> Tunables {
    Tunables {
        tick_interval_ms: 50,
        election_timeout_base: 5,
        keep_alive_interval_ms: 2000,
        keep_alive_timeout_ms: 1000,
        connection_timeout_ms: 1000,
        delivery_timeout_ms: 1000,
        read_retry_ticks: 10,
        snapshot_queue_capacity: 4,
        client_inbox_capacity: 256,
        peer_inbox_capacity: 1024,
        peer_queue_capacity: 64,
        delivery_batch: 64,
        match_resend_ticks: 5,
        gc_resend_ticks: 5,
        reconfigurer_resend_ticks: 5,
        reconfigure_timeout_elections: 4,
        reconfigure_backoff_max_ticks: 10,
    }
}

/// The address a text spells, byte by byte; anything but four numbers is no
/// address.
fn key_of(text: &str) -> AddressKey {
    let parts: Vec<Option<u8>> = text.split('.').map(|part| part.parse::<u8>().ok()).collect();
    if parts.len() != 4 || parts.iter().any(|part| part.is_none()) {
        return AddressKey::Unparsed;
    }
    let mut bits: u32 = 0;
    for part in parts {
        bits = bits * 256 + u32::from(part.unwrap_or(0));
    }
    AddressKey::V4(bits)
}

fn host(text: &str) -> HostIp {
    HostIp {
        text: text.to_string(),
        key: key_of(text),
    }
}

fn pool(n: usize) -> Vec<HostIp> {
    (1..=n).map(|i| host(&format!("10.0.1.{i}"))).collect()
}

fn texts(hosts: &[HostIp]) -> Vec<String> {
    hosts.iter().map(|h| h.text.clone()).collect()
}

#[test]
fn a_deployment_ranks_each_group_in_ip_order() {
    let mut shuffled = pool(4);
    shuffled.reverse();
    let map = Deployment::from_groups(shuffled, vec![host("10.0.2.2"), host("10.0.2.1")]);
    assert_eq!(texts(map.acceptors()), texts(&pool(4)));
    assert_eq!(map.matchmakers().len(), 2);
    assert_eq!(
        map.role_of(&"10.0.1.3".to_string()),
        Some(Role::Acceptor(2))
    );
    assert_eq!(
        map.role_of(&"10.0.2.2".to_string()),
        Some(Role::Matchmaker(1))
    );
    assert_eq!(map.role_of(&"10.9.9.9".to_string()), None);
}

#[test]
fn an_empty_matchmaker_group_is_the_plain_deployment() {
    let map = Deployment::from_groups(pool(3), Vec::new());
    assert!(map.matchmakers().is_empty());
    assert_eq!(map.acceptors().len(), 3);
}

#[test]
fn a_restart_reuses_the_first_incarnations_shape() {
    let mut registry = Registry::new();
    let first = registry.boot(1, true, defaults());
    assert_eq!(first.number, 1);
    assert!(!first.is_restart());
    let second = registry.boot(1, true, defaults());
    assert_eq!(second.number, 2);
    assert!(second.is_restart());
    assert_eq!(second.shape, first.shape);
    let other = registry.boot(2, true, defaults());
    assert_eq!(other.number, 1);

    let entry = registry.nodes.get(1).unwrap();
    assert_eq!(entry.incarnations, 2);
    assert_eq!(registry.nodes.get(2).unwrap().incarnations, 1);
}

#[test]
fn the_lane_count_is_fixed_by_the_first_caller() {
    let mut registry = Registry::new();
    let first = registry.lane_count(8, true);
    assert_eq!(registry.lane_count(8, true), first);
    assert_eq!(registry.lane_count(8, false), first);
}

#[test]
fn a_scripted_node_runs_the_production_shape() {
    let mut registry = Registry::new();
    let shape = registry.boot(1, false, defaults()).shape;
    assert_eq!(shape, NodeShape::production(defaults()));
}

#[test]
fn the_quorum_policy_is_fixed_by_the_first_caller() {
    let mut registry = Registry::new();
    let first = registry.quorum_policy(5, false);
    assert_eq!(first, QuorumPolicy::Majority);
    assert_eq!(registry.quorum_policy(5, true), first);
    for n in 1..=6 {
        assert_eq!(first.system(n), QuorumSystem::Majority);
        assert_eq!(first.clean_copies(n, n), n / 2 + 1);
        assert_eq!(first.clean_copies(n, 6), n / 2 + 1);
    }
}

#[test]
fn a_grid_policy_tiles_or_switches_and_tolerates_no_loss() {
    assert!(grid_layouts(3).is_empty());
    assert_eq!(grid_layouts(4), vec![(2, 2)]);
    assert!(grid_layouts(5).is_empty());
    assert_eq!(grid_layouts(6), vec![(2, 3), (3, 2)]);
    assert_eq!(grid_layouts(12), vec![(2, 6), (3, 4), (4, 3), (6, 2)]);
    let policy = QuorumPolicy::Grid { rows: 3, cols: 2 };
    assert_eq!(
        policy.system(6),
        QuorumSystem::Grid { rows: 3, cols: 2 },
        "the drawn layout where it tiles"
    );
    assert_eq!(
        policy.system(4),
        QuorumSystem::Grid { rows: 2, cols: 2 },
        "the first layout of a size the drawn row count does not tile"
    );
    assert_eq!(
        QuorumPolicy::Grid { rows: 2, cols: 3 }.system(12),
        QuorumSystem::Grid { rows: 2, cols: 6 },
        "the layout with the drawn row count where one exists"
    );
    assert_eq!(
        policy.system(3),
        QuorumSystem::Majority,
        "no layout: a majority"
    );
    assert_eq!(policy.system(5), QuorumSystem::Majority);
    for n in 1..=8 {
        assert!(policy.system(n).admits(n));
    }
    assert_eq!(policy.tolerated_loss(6), 0);
    assert_eq!(policy.tolerated_loss(4), 0);
    assert_eq!(policy.tolerated_loss(3), 1, "a majority of three");
    assert_eq!(policy.tolerated_loss(5), 2);
    assert_eq!(policy.clean_copies(6, 6), 6);
    assert_eq!(policy.clean_copies(3, 6), 3);
    assert_eq!(policy.clean_copies(3, 5), 3);
    assert_eq!(QuorumPolicy::Majority.clean_copies(3, 6), 2);
    assert_eq!(QuorumPolicy::Flexible { q2: 1 }.clean_copies(3, 6), 3);
    assert_eq!(QuorumPolicy::Flexible { q2: 2 }.clean_copies(4, 6), 3);
}

#[test]
fn a_flexible_policy_cross_intersects_at_every_size() {
    for drawn in 1..=3 {
        let policy = QuorumPolicy::Flexible { q2: drawn };
        for n in 1..=6 {
            let QuorumSystem::Flexible { q1, q2 } = policy.system(n) else {
                panic!("a flexible policy runs a flexible split");
            };
            assert!(q2 >= 1);
            assert!(q2 <= (n / 2).max(1));
            assert_eq!(q1 + q2, n + 1);
            assert!(policy.system(n).admits(n));
            assert_eq!(policy.clean_copies(n, n), q1);
            assert_eq!(n - policy.clean_copies(n, n), q2 - 1);
            assert_eq!(policy.tolerated_loss(n), q2 - 1);
        }
    }
}

#[test]
fn unparsed_hosts_rank_first_and_repeats_once() {
    let map = Deployment::from_groups(
        vec![host("10.0.0.2"), host("beta"), host("10.0.0.2"), host("alpha")],
        Vec::new(),
    );
    assert_eq!(texts(map.acceptors()), vec!["beta", "alpha", "10.0.0.2"]);
    assert!(map.has_acceptors());
    assert!(!Deployment::from_groups(Vec::new(), Vec::new()).has_acceptors());
}

#[test]
fn a_raised_timeout_spans_the_round_trip() {
    let mut t = defaults();
    t.tick_interval_ms = 10;
    t.election_timeout_base = 2;
    t.read_retry_ticks = 40;
    let raised = t.with_floor();
    assert_eq!(raised.election_timeout_base, 25);
    assert_eq!(raised.read_retry_ticks, 40);
}

#[test]
fn a_handover_is_resent_before_it_is_abandoned() {
    let slow = Tunables {
        tick_interval_ms: 200,
        election_timeout_base: 2,
        reconfigure_timeout_elections: 1,
        reconfigurer_resend_ticks: 10,
        ..defaults()
    };
    let capped = slow.with_floor().with_cap();
    assert_eq!(capped.election_timeout_base, 2);
    assert_eq!(capped.reconfigurer_resend_ticks, 2);
    assert_eq!(defaults().with_cap(), defaults());
    let endless = Tunables {
        election_timeout_base: u64::MAX,
        reconfigure_timeout_elections: 2,
        reconfigurer_resend_ticks: u64::MAX,
        ..defaults()
    };
    assert_eq!(endless.with_cap(), endless);
}

#[test]
fn a_ranking_ignores_order_and_repeats() {
    let listed = |texts: &[&str]| texts.iter().map(|text| host(text)).collect::<Vec<_>>();
    let a = rank_hosts(listed(&["10.0.1.10", "10.0.1.2", "10.0.1.3"]));
    let b = rank_hosts(listed(&[
        "10.0.1.3",
        "10.0.1.10",
        "10.0.1.3",
        "10.0.1.2",
        "10.0.1.10",
    ]));
    assert_eq!(texts(&a), ["10.0.1.2", "10.0.1.3", "10.0.1.10"]);
    assert_eq!(texts(&a), texts(&b));
}

#[test]
fn a_window_of_ranks_wraps_around() {
    assert_eq!(window_ranks(6, 3, 5), vec![0, 1, 5]);
    assert_eq!(window_ranks(6, 3, 0), vec![0, 1, 2]);
}

#[test]
fn a_policy_is_picked_from_its_draws() {
    assert_eq!(select_policy(6, 2, 0), QuorumPolicy::Flexible { q2: 2 });
    assert_eq!(
        select_policy(6, 4, 2),
        QuorumPolicy::Grid { rows: 3, cols: 2 }
    );
    assert_eq!(select_policy(6, 4, 0), QuorumPolicy::Majority);
    assert_eq!(select_policy(6, 4, 3), QuorumPolicy::Majority);
}

#[test]
fn the_floors_shrink_only_where_a_set_can() {
    assert_eq!(config_floor(6, true), 3);
    assert_eq!(config_floor(6, false), 6);
    assert_eq!(config_floor(2, true), 2);
    assert_eq!(matchmaker_floor(5), 3);
    assert_eq!(matchmaker_floor(2), 2);
}

#[test]
fn fixed_ranks_are_the_first_of_the_pool() {
    let mut registry = Registry::new();
    assert_eq!(registry.fixed_bootstrap_ranks(3), vec![0, 1, 2]);
    assert_eq!(registry.bootstrap_ranks(6, true, true), vec![0, 1, 2]);
    assert_eq!(registry.matchmaker_bootstrap_ranks(3, false), vec![0, 1, 2]);
}

#[test]
fn an_inactive_knob_is_its_default() {
    let mut registry = Registry::new();
    let drawn = registry.boot(7, true, defaults()).shape;
    assert_eq!(drawn.seam_crash_bias, 1);
    assert_eq!(drawn.tunables.peer_queue_capacity, 64);
    assert_eq!(registry.lane_count(9, true), 9);
}
