//! Sticky-session behavior: consistency while the pinned backend stays
//! healthy, TTL refresh on every hit, failover to a healthy backend, and
//! expiry of idle entries.

use load_balancer::balancer::LoadBalancer;
use load_balancer::pool::Strategy;

fn pool() -> LoadBalancer {
    let backends = vec![
        ("http://a".to_string(), 5u32),
        ("http://b".to_string(), 3u32),
        ("http://c".to_string(), 2u32),
    ];
    let mut lb = LoadBalancer::new_weighted(backends, 3, 60);
    lb.set_strategy(Strategy::StickySession);
    lb
}

#[test]
fn sticky_same_url_then_expiry() {
    let mut lb = pool();
    let first = lb.get_next_backend(Some("x.x.x.x"), 0).unwrap();
    let second = lb.get_next_backend(Some("x.x.x.x"), 0).unwrap();
    assert_eq!(first, second);
    assert_eq!(first, "http://a");
    // 61 seconds later the entry has outlived the 60-second TTL: the old
    // pin is gone and a fresh weighted pick is made.
    let third = lb.get_next_backend(Some("x.x.x.x"), 61).unwrap();
    assert_eq!(third, "http://b");
    // The client is now pinned to the new backend, not the old one.
    let fourth = lb.get_next_backend(Some("x.x.x.x"), 61).unwrap();
    assert_eq!(fourth, "http://b");
}

#[test]
fn sticky_consistency_refreshes_ttl() {
    let mut lb = pool();
    assert_eq!(lb.get_next_backend(Some("x.x.x.x"), 0).unwrap(), "http://a");
    // Reappearing within the TTL keeps the pin and refreshes its clock:
    assert_eq!(lb.get_next_backend(Some("x.x.x.x"), 59).unwrap(), "http://a");
    // 118 is within 60 of the refresh at 59, though not of the first hit.
    assert_eq!(lb.get_next_backend(Some("x.x.x.x"), 118).unwrap(), "http://a");
}

#[test]
fn sticky_failover_and_no_failback() {
    let mut lb = pool();
    assert_eq!(lb.get_next_backend(Some("x.x.x.x"), 0).unwrap(), "http://a");
    lb.mark_unhealthy("http://a");
    // The pinned backend is down: the client moves to a healthy one.
    let moved = lb.get_next_backend(Some("x.x.x.x"), 1).unwrap();
    assert_eq!(moved, "http://b");
    // The original backend coming back does not steal the client.
    lb.mark_healthy("http://a");
    assert_eq!(lb.get_next_backend(Some("x.x.x.x"), 2).unwrap(), "http://b");
}

#[test]
fn session_expiry_makes_fresh_pick() {
    let mut lb = pool();
    assert_eq!(lb.get_next_backend(Some("x.x.x.x"), 0).unwrap(), "http://a");
    // Exactly the TTL with no traffic: the entry is dropped on read.
    assert_eq!(lb.get_next_backend(Some("x.x.x.x"), 60).unwrap(), "http://b");
}

#[test]
fn sticky_without_client_falls_back_to_weighted() {
    let mut lb = pool();
    // No client identity: the weighted pass runs, nothing is pinned.
    assert_eq!(lb.get_next_backend(None, 0).unwrap(), "http://a");
    // The next client starts from scratch (no session was written above).
    assert_eq!(lb.get_next_backend(Some("x.x.x.x"), 0).unwrap(), "http://b");
}

#[test]
fn sessions_are_per_client() {
    let mut lb = pool();
    let a_client = lb.get_next_backend(Some("1.1.1.1"), 0).unwrap();
    let b_client = lb.get_next_backend(Some("2.2.2.2"), 0).unwrap();
    assert_eq!(a_client, "http://a");
    assert_eq!(b_client, "http://b");
    // Each keeps its own pin.
    assert_eq!(lb.get_next_backend(Some("1.1.1.1"), 5).unwrap(), "http://a");
    assert_eq!(lb.get_next_backend(Some("2.2.2.2"), 5).unwrap(), "http://b");
}
