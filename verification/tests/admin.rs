//! The request classifier: reserved admin paths, their query grammar, the
//! fall-through to forwarding, the forwarded-for token, and the probe
//! verdict.

use load_balancer::dispatch::{classify_request, client_token, probe_success, RequestAction};
use load_balancer::pool::Strategy;

#[test]
fn strategy_commands() {
    assert!(matches!(
        classify_request("/admin/strategy", Some("type=weighted")),
        RequestAction::SetStrategy(Strategy::WeightedRoundRobin)
    ));
    assert!(matches!(
        classify_request("/admin/strategy", Some("type=roundrobin")),
        RequestAction::SetStrategy(Strategy::RoundRobin)
    ));
    assert!(matches!(
        classify_request("/admin/strategy", Some("type=sticky")),
        RequestAction::SetStrategy(Strategy::StickySession)
    ));
}

#[test]
fn strategy_is_matched_by_substring_weighted_first() {
    // The query is searched, not parsed: the first matching pattern wins,
    // and `weighted` is looked for before the others.
    assert!(matches!(
        classify_request("/admin/strategy", Some("type=sticky&type=weighted")),
        RequestAction::SetStrategy(Strategy::WeightedRoundRobin)
    ));
}

#[test]
fn strategy_unknown_type_forwards() {
    assert!(matches!(
        classify_request("/admin/strategy", Some("type=random")),
        RequestAction::Forward
    ));
    assert!(matches!(classify_request("/admin/strategy", None), RequestAction::Forward));
}

#[test]
fn weight_command_parses_backend_and_weight() {
    match classify_request("/admin/weight", Some("backend=127.0.0.1:8081&weight=7")) {
        RequestAction::SetWeight { backend, weight } => {
            assert_eq!(backend, "127.0.0.1:8081");
            assert_eq!(weight, 7);
        }
        _ => panic!("expected a weight command"),
    }
}

#[test]
fn weight_command_last_value_wins() {
    match classify_request("/admin/weight", Some("backend=x&backend=y&weight=1&weight=2")) {
        RequestAction::SetWeight { backend, weight } => {
            assert_eq!(backend, "y");
            assert_eq!(weight, 2);
        }
        _ => panic!("expected a weight command"),
    }
}

#[test]
fn weight_command_accepts_leading_plus() {
    match classify_request("/admin/weight", Some("backend=x&weight=+7")) {
        RequestAction::SetWeight { weight, .. } => assert_eq!(weight, 7),
        _ => panic!("expected a weight command"),
    }
}

#[test]
fn weight_command_incomplete_forwards() {
    assert!(matches!(
        classify_request("/admin/weight", Some("backend=127.0.0.1:8081")),
        RequestAction::Forward
    ));
    assert!(matches!(
        classify_request("/admin/weight", Some("weight=7")),
        RequestAction::Forward
    ));
    assert!(matches!(classify_request("/admin/weight", None), RequestAction::Forward));
}

#[test]
fn weight_command_bad_number_forwards() {
    assert!(matches!(
        classify_request("/admin/weight", Some("backend=x&weight=abc")),
        RequestAction::Forward
    ));
    // One past u32::MAX.
    assert!(matches!(
        classify_request("/admin/weight", Some("backend=x&weight=4294967296")),
        RequestAction::Forward
    ));
}

#[test]
fn weight_command_segment_with_two_equals_is_ignored() {
    assert!(matches!(
        classify_request("/admin/weight", Some("backend=a=b&weight=3")),
        RequestAction::Forward
    ));
}

#[test]
fn session_timeout_command() {
    assert!(matches!(
        classify_request("/admin/session-timeout", Some("seconds=120")),
        RequestAction::SetSessionTimeout(120)
    ));
    // The first well-formed `seconds` segment wins; malformed ones are
    // passed over.
    assert!(matches!(
        classify_request("/admin/session-timeout", Some("seconds=bad&seconds=5")),
        RequestAction::SetSessionTimeout(5)
    ));
    assert!(matches!(
        classify_request("/admin/session-timeout", Some("minutes=2")),
        RequestAction::Forward
    ));
    assert!(matches!(classify_request("/admin/session-timeout", None), RequestAction::Forward));
}

#[test]
fn ordinary_paths_forward() {
    assert!(matches!(classify_request("/", None), RequestAction::Forward));
    assert!(matches!(classify_request("/api/items", Some("weight=3")), RequestAction::Forward));
    // Prefixes of the reserved paths are not reserved.
    assert!(matches!(classify_request("/admin", Some("type=sticky")), RequestAction::Forward));
    assert!(matches!(
        classify_request("/admin/strategy/x", Some("type=sticky")),
        RequestAction::Forward
    ));
}

#[test]
fn client_token_takes_leftmost_trimmed() {
    assert_eq!(client_token(" 1.2.3.4 , 5.6.7.8"), "1.2.3.4");
    assert_eq!(client_token("10.0.0.1"), "10.0.0.1");
    assert_eq!(client_token("\t10.0.0.1\r\n"), "10.0.0.1");
    assert_eq!(client_token(""), "");
}

#[test]
fn probe_verdict_is_2xx() {
    assert!(!probe_success(199));
    assert!(probe_success(200));
    assert!(probe_success(204));
    assert!(probe_success(299));
    assert!(!probe_success(300));
    assert!(!probe_success(404));
    assert!(!probe_success(503));
}
