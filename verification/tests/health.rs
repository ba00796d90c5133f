//! Health transitions and their interaction with the rest of the state:
//! failure counting, single-step recovery, unknown URLs, URL uniqueness,
//! and the orthogonality of policy switches.

use load_balancer::balancer::LoadBalancer;
use load_balancer::pool::{HealthStatus, Strategy};

fn urls(list: &[&str]) -> Vec<String> {
    list.iter().map(|s| s.to_string()).collect()
}

#[test]
fn consecutive_failures_count_up() {
    let mut lb = LoadBalancer::new(urls(&["http://a", "http://b"]), 3, 60);
    lb.mark_unhealthy("http://a");
    assert_eq!(lb.backends[0].health_status, HealthStatus::Unhealthy(1));
    lb.mark_unhealthy("http://a");
    lb.mark_unhealthy("http://a");
    assert_eq!(lb.backends[0].health_status, HealthStatus::Unhealthy(3));
    // The other backend is untouched.
    assert_eq!(lb.backends[1].health_status, HealthStatus::Healthy);
}

#[test]
fn recovery_is_single_step() {
    let mut lb = LoadBalancer::new(urls(&["http://a"]), 3, 60);
    for _ in 0..5 {
        lb.mark_unhealthy("http://a");
    }
    assert_eq!(lb.backends[0].health_status, HealthStatus::Unhealthy(5));
    lb.mark_healthy("http://a");
    assert_eq!(lb.backends[0].health_status, HealthStatus::Healthy);
}

#[test]
fn recovery_keeps_accumulator() {
    let mut lb = LoadBalancer::new_weighted(
        vec![("http://a".to_string(), 5u32), ("http://b".to_string(), 3u32)],
        3,
        60,
    );
    // One weighted pass moves the accumulators off zero.
    lb.get_next_backend(None, 0);
    let cw_before = lb.backends[1].current_weight;
    lb.mark_unhealthy("http://b");
    lb.mark_healthy("http://b");
    assert_eq!(lb.backends[1].current_weight, cw_before);
}

#[test]
fn unknown_url_is_a_no_op() {
    let mut lb = LoadBalancer::new(urls(&["http://a"]), 3, 60);
    lb.mark_unhealthy("http://nope");
    lb.mark_healthy("http://nope");
    lb.set_weight("http://nope", 9);
    assert_eq!(lb.backends.len(), 1);
    assert_eq!(lb.backends[0].health_status, HealthStatus::Healthy);
    assert_eq!(lb.backends[0].weight, 1);
}

#[test]
fn mark_healthy_on_healthy_stays_healthy() {
    let mut lb = LoadBalancer::new(urls(&["http://a"]), 3, 60);
    lb.mark_healthy("http://a");
    assert_eq!(lb.backends[0].health_status, HealthStatus::Healthy);
}

#[test]
fn urls_stay_unique() {
    let lb = LoadBalancer::new(urls(&["http://a", "http://b", "http://c"]), 3, 60);
    for i in 0..lb.backends.len() {
        for j in 0..lb.backends.len() {
            if i != j {
                assert_ne!(lb.backends[i].url, lb.backends[j].url);
            }
        }
    }
}

#[test]
fn set_weight_changes_only_the_weight() {
    let mut lb = LoadBalancer::new(urls(&["http://a", "http://b"]), 3, 60);
    lb.set_weight("http://b", 7);
    assert_eq!(lb.backends[1].weight, 7);
    assert_eq!(lb.backends[0].weight, 1);
    assert_eq!(lb.backends[1].health_status, HealthStatus::Healthy);
}

#[test]
fn policy_switch_preserves_round_robin_cursor() {
    let mut lb = LoadBalancer::new(urls(&["http://a", "http://b", "http://c"]), 3, 60);
    assert_eq!(lb.get_next_backend(None, 0).unwrap(), "http://a");
    lb.set_strategy(Strategy::WeightedRoundRobin);
    lb.set_strategy(Strategy::RoundRobin);
    // The cursor continues where it left off.
    assert_eq!(lb.get_next_backend(None, 0).unwrap(), "http://b");
}

#[test]
fn policy_switch_preserves_weighted_accumulators() {
    let mut lb = LoadBalancer::new_weighted(
        vec![
            ("http://a".to_string(), 5u32),
            ("http://b".to_string(), 3u32),
            ("http://c".to_string(), 2u32),
        ],
        3,
        60,
    );
    assert_eq!(lb.get_next_backend(None, 0).unwrap(), "http://a");
    lb.set_strategy(Strategy::RoundRobin);
    lb.set_strategy(Strategy::WeightedRoundRobin);
    // The smooth sequence continues: its second element.
    assert_eq!(lb.get_next_backend(None, 0).unwrap(), "http://b");
}

#[test]
fn policy_switch_preserves_sessions() {
    let mut lb = LoadBalancer::new_weighted(
        vec![("http://a".to_string(), 5u32), ("http://b".to_string(), 3u32)],
        3,
        60,
    );
    lb.set_strategy(Strategy::StickySession);
    let pinned = lb.get_next_backend(Some("x.x.x.x"), 0).unwrap();
    lb.set_strategy(Strategy::RoundRobin);
    lb.set_strategy(Strategy::StickySession);
    assert_eq!(lb.get_next_backend(Some("x.x.x.x"), 1).unwrap(), pinned);
}

#[test]
fn get_all_backends_snapshots_urls() {
    let lb = LoadBalancer::new(urls(&["http://a", "http://b"]), 3, 60);
    assert_eq!(lb.get_all_backends(), urls(&["http://a", "http://b"]));
}

#[test]
fn current_strategy_reports_the_policy() {
    let mut lb = LoadBalancer::new(urls(&["http://a"]), 3, 60);
    assert_eq!(lb.current_strategy(), Strategy::RoundRobin);
    lb.set_strategy(Strategy::StickySession);
    assert_eq!(lb.current_strategy(), Strategy::StickySession);
}
