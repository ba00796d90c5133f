//! Selection behavior: plain round-robin rotation, the smooth weighted
//! sequence, skipping of unhealthy backends, and the empty pool.

use load_balancer::balancer::LoadBalancer;
use load_balancer::pool::Strategy;

fn urls(list: &[&str]) -> Vec<String> {
    list.iter().map(|s| s.to_string()).collect()
}

fn weighted(list: &[(&str, u32)]) -> Vec<(String, u32)> {
    list.iter().map(|(s, w)| (s.to_string(), *w)).collect()
}

#[test]
fn round_robin_cycles() {
    let mut lb = LoadBalancer::new(urls(&["http://a", "http://b", "http://c"]), 3, 60);
    let mut seen = Vec::new();
    for _ in 0..6 {
        seen.push(lb.get_next_backend(None, 0).unwrap());
    }
    assert_eq!(seen, urls(&["http://a", "http://b", "http://c", "http://a", "http://b", "http://c"]));
}

#[test]
fn weighted_counts_and_sequence() {
    let mut lb = LoadBalancer::new_weighted(
        weighted(&[("http://a", 5), ("http://b", 3), ("http://c", 2)]),
        3,
        60,
    );
    let mut seen = Vec::new();
    for _ in 0..10 {
        seen.push(lb.get_next_backend(None, 0).unwrap());
    }
    // Any window of T = 10 selections holds each backend weight-many times.
    assert_eq!(seen.iter().filter(|u| u.as_str() == "http://a").count(), 5);
    assert_eq!(seen.iter().filter(|u| u.as_str() == "http://b").count(), 3);
    assert_eq!(seen.iter().filter(|u| u.as_str() == "http://c").count(), 2);
    // The smooth interleaving, traced by hand from zero accumulators:
    // deposit each weight, pick the greatest, charge it the total (10).
    assert_eq!(
        seen,
        urls(&[
            "http://a", "http://b", "http://c", "http://a", "http://a", "http://b", "http://a",
            "http://c", "http://b", "http://a",
        ])
    );
}

#[test]
fn round_robin_skips_unhealthy() {
    let mut lb = LoadBalancer::new(urls(&["http://a", "http://b", "http://c"]), 3, 60);
    lb.mark_unhealthy("http://b");
    let mut seen = Vec::new();
    for _ in 0..4 {
        seen.push(lb.get_next_backend(None, 0).unwrap());
    }
    assert_eq!(seen, urls(&["http://a", "http://c", "http://a", "http://c"]));
}

#[test]
fn weighted_skips_unhealthy() {
    let mut lb = LoadBalancer::new_weighted(
        weighted(&[("http://a", 5), ("http://b", 3), ("http://c", 2)]),
        3,
        60,
    );
    lb.mark_unhealthy("http://b");
    let mut seen = Vec::new();
    for _ in 0..7 {
        seen.push(lb.get_next_backend(None, 0).unwrap());
    }
    // Seven picks over {a:5, c:2} (T = 7): five of a, two of c.
    assert_eq!(seen.iter().filter(|u| u.as_str() == "http://a").count(), 5);
    assert_eq!(seen.iter().filter(|u| u.as_str() == "http://c").count(), 2);
    assert!(seen.iter().all(|u| u.as_str() != "http://b"));
    // The smooth sequence, traced by hand from zero accumulators.
    assert_eq!(
        seen,
        urls(&[
            "http://a", "http://c", "http://a", "http://a", "http://a", "http://c", "http://a",
        ])
    );
}

#[test]
fn weight_zero_never_chosen_by_weighted() {
    let mut lb = LoadBalancer::new_weighted(weighted(&[("http://a", 0), ("http://b", 1)]), 3, 60);
    for _ in 0..5 {
        assert_eq!(lb.get_next_backend(None, 0).unwrap(), "http://b");
    }
    // Under plain round-robin the same backend has no weight semantics and
    // takes its turn.
    lb.set_strategy(Strategy::RoundRobin);
    assert_eq!(lb.get_next_backend(None, 0).unwrap(), "http://a");
    assert_eq!(lb.get_next_backend(None, 0).unwrap(), "http://b");
}

#[test]
fn weight_zero_only_healthy_yields_none() {
    // With the sole positive-weight backend down, the weighted pass has
    // nothing to select, though a weight-0 backend is still Healthy.
    let mut lb = LoadBalancer::new_weighted(weighted(&[("http://a", 0), ("http://b", 1)]), 3, 60);
    lb.mark_unhealthy("http://b");
    assert_eq!(lb.get_next_backend(None, 0), None);
    lb.mark_healthy("http://b");
    assert_eq!(lb.get_next_backend(None, 0).unwrap(), "http://b");
}

#[test]
fn weight_zero_not_chosen_after_health_transitions() {
    // However the accumulators stand, a weight-0 backend never wins a
    // weighted round.
    let mut lb = LoadBalancer::new_weighted(
        weighted(&[("http://a", 0), ("http://b", 1), ("http://c", 1)]),
        3,
        60,
    );
    assert_eq!(lb.get_next_backend(None, 0).unwrap(), "http://b");
    lb.mark_unhealthy("http://c");
    assert_eq!(lb.get_next_backend(None, 0).unwrap(), "http://b");
    assert_eq!(lb.get_next_backend(None, 0).unwrap(), "http://b");
}

#[test]
fn equal_weights_never_repeat_back_to_back() {
    // Smoothness on the simplest pool: with equal claims, no backend is
    // handed two consecutive rounds.
    let mut lb = LoadBalancer::new_weighted(weighted(&[("http://a", 1), ("http://b", 1)]), 3, 60);
    let mut last = String::new();
    for _ in 0..10 {
        let pick = lb.get_next_backend(None, 0).unwrap();
        assert_ne!(pick, last);
        last = pick;
    }
}

#[test]
fn empty_pool_selects_none() {
    let mut lb = LoadBalancer::new(Vec::new(), 3, 60);
    assert_eq!(lb.get_next_backend(None, 0), None);
    lb.set_strategy(Strategy::WeightedRoundRobin);
    assert_eq!(lb.get_next_backend(None, 0), None);
    lb.set_strategy(Strategy::StickySession);
    assert_eq!(lb.get_next_backend(Some("1.2.3.4"), 0), None);
    // Admin operations on an empty pool do not crash.
    lb.set_weight("http://a", 5);
    lb.set_session_timeout(10);
    lb.set_strategy(Strategy::RoundRobin);
    assert_eq!(lb.get_next_backend(None, 0), None);
}

#[test]
fn all_unhealthy_then_recovery() {
    let mut lb = LoadBalancer::new(urls(&["http://a", "http://b"]), 3, 60);
    for _ in 0..4 {
        lb.mark_unhealthy("http://a");
        lb.mark_unhealthy("http://b");
    }
    assert_eq!(lb.get_next_backend(None, 0), None);
    lb.mark_healthy("http://a");
    assert_eq!(lb.get_next_backend(None, 0).unwrap(), "http://a");
}
