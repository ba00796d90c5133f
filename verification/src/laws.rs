//! The balancer's governing properties, proved once and for all over the
//! model transitions of [`crate::balancer`]: URL uniqueness, the health
//! transition laws, one-step smoothness of the weighted pass, the sticky
//! session guarantees, session expiry, policy orthogonality, and the empty
//! pool.

use vstd::prelude::*;

use crate::balancer::{
    acc_cw, accumulate_healthy, best_upto, cleanup_step, clients_distinct, fresh_pick,
    has_session, has_url, total_healthy_weight,
    index_of_url, iterate_mark_unhealthy, keep_pred, lb_wf, lemma_best_upto_props,
    lemma_filter_sessions_wf, lemma_same_urls_wf, lemma_weighted_step_props, mark_healthy_spec, mark_unhealthy_spec, select_step, session_expired,
    session_index, sticky_step, urls_distinct, weighted_eligible, weighted_step, LbModel,
};
use crate::pool::{is_healthy, BackendModel, HealthStatus, SessionModel, Strategy};

verus! {

/// URL uniqueness: in a well-formed pool every URL appears at most once —
/// two distinct positions never hold the same URL.
pub proof fn lemma_url_uniqueness(m: LbModel, i: int, j: int)
    requires
        lb_wf(m),
        0 <= i < m.backends.len(),
        0 <= j < m.backends.len(),
        i != j,
    ensures
        m.backends[i].url != m.backends[j].url,
{
}

/// The client at a given index is the one the session lookup finds, as long
/// as clients are distinct.
pub proof fn lemma_session_index_unique(s: Seq<SessionModel>, client: Seq<char>, i: int)
    requires
        clients_distinct(s),
        0 <= i < s.len(),
        s[i].client == client,
    ensures
        has_session(s, client),
        session_index(s, client) == i,
{
    assert(has_session(s, client));
    let k = session_index(s, client);
    if k != i {
        assert(s[k].client != s[i].client);
    }
}

/// The backend at a given index is the one the URL lookup finds, as long as
/// URLs are distinct.
pub proof fn lemma_url_index_unique(s: Seq<BackendModel>, url: Seq<char>, i: int)
    requires
        urls_distinct(s),
        0 <= i < s.len(),
        s[i].url == url,
    ensures
        has_url(s, url),
        index_of_url(s, url) == i,
{
    assert(has_url(s, url));
    let k = index_of_url(s, url);
    if k != i {
        assert(s[k].url != s[i].url);
    }
}

/// Marking a backend unhealthy preserves well-formedness and changes only
/// that backend's health.
pub proof fn lemma_mark_unhealthy_wf(m: LbModel, url: Seq<char>)
    requires
        lb_wf(m),
    ensures
        lb_wf(mark_unhealthy_spec(m, url)),
        mark_unhealthy_spec(m, url).backends.len() == m.backends.len(),
        forall|i: int|
            0 <= i < m.backends.len() ==> {
                let b1 = #[trigger] mark_unhealthy_spec(m, url).backends[i];
                let b0 = m.backends[i];
                b1.url == b0.url && b1.weight == b0.weight && b1.current_weight
                    == b0.current_weight
            },
        mark_unhealthy_spec(m, url).sessions == m.sessions,
        mark_unhealthy_spec(m, url).current_idx == m.current_idx,
        mark_unhealthy_spec(m, url).strategy == m.strategy,
        mark_unhealthy_spec(m, url).session_timeout == m.session_timeout,
{
    lemma_same_urls_wf(m, mark_unhealthy_spec(m, url));
}

/// Health monotonicity under consecutive failures: `n` marks against a
/// Healthy backend leave it in `Unhealthy(n)`; every other backend, and all
/// other state, is untouched.
pub proof fn lemma_consecutive_failures(m: LbModel, url: Seq<char>, n: nat)
    requires
        lb_wf(m),
        has_url(m.backends, url),
        m.backends[index_of_url(m.backends, url)].health == HealthStatus::Healthy,
        1 <= n <= u32::MAX,
    ensures
        ({
            let k = index_of_url(m.backends, url);
            let mn = iterate_mark_unhealthy(m, url, n);
            &&& lb_wf(mn)
            &&& mn.backends.len() == m.backends.len()
            &&& mn.backends[k].health == HealthStatus::Unhealthy(n as u32)
            &&& forall|i: int|
                0 <= i < m.backends.len() && i != k ==> #[trigger] mn.backends[i]
                    == m.backends[i]
            &&& mn.backends[k].url == m.backends[k].url
            &&& mn.backends[k].weight == m.backends[k].weight
            &&& mn.backends[k].current_weight == m.backends[k].current_weight
            &&& mn.sessions == m.sessions
        }),
    decreases n,
{
    let k = index_of_url(m.backends, url);
    if n == 1 {
        lemma_mark_unhealthy_wf(m, url);
        assert(iterate_mark_unhealthy(m, url, 0nat) == m);
    } else {
        lemma_consecutive_failures(m, url, (n - 1) as nat);
        let prev = iterate_mark_unhealthy(m, url, (n - 1) as nat);
        lemma_url_index_unique(prev.backends, url, k);
        lemma_mark_unhealthy_wf(prev, url);
        assert(prev.backends[k].health == HealthStatus::Unhealthy((n - 1) as u32));
    }
}

/// Recovery is single-step: one successful mark from `Unhealthy(n)`, any
/// `n`, yields Healthy, with the accumulator preserved.
pub proof fn lemma_single_step_recovery(m: LbModel, url: Seq<char>)
    requires
        lb_wf(m),
        has_url(m.backends, url),
        m.backends[index_of_url(m.backends, url)].health is Unhealthy,
    ensures
        ({
            let k = index_of_url(m.backends, url);
            let m1 = mark_healthy_spec(m, url);
            &&& m1.backends[k].health == HealthStatus::Healthy
            &&& m1.backends[k].current_weight == m.backends[k].current_weight
            &&& m1.backends[k].url == m.backends[k].url
            &&& m1.backends[k].weight == m.backends[k].weight
            &&& lb_wf(m1)
        }),
{
    lemma_same_urls_wf(m, mark_healthy_spec(m, url));
}

/// The winner of the deposit pass carries the greatest deposited
/// accumulator of any eligible — Healthy, positive-weight — backend in the
/// prefix, and on equal accumulators the winner has the lower index.
pub proof fn lemma_best_upto_is_max(s: Seq<BackendModel>, k: int, j: int)
    requires
        0 <= j < k,
        weighted_eligible(s[j]),
    ensures
        best_upto(s, k) is Some,
        match best_upto(s, k) {
            Some(w) => acc_cw(s[j]) <= acc_cw(s[w]) && (acc_cw(s[j]) == acc_cw(s[w]) ==> w
                <= j),
            None => true,
        },
    decreases k,
{
    if j == k - 1 {
        lemma_best_upto_props(s, k - 1);
    } else {
        lemma_best_upto_is_max(s, k - 1, j);
        lemma_best_upto_props(s, k - 1);
    }
}

/// Weighted smoothness, one step at a time: right after a weighted
/// selection, if some other eligible backend's deposited accumulator for
/// the coming round beats the winner's — strictly, or equally from a lower
/// index, which wins the tie — the next weighted selection does not return
/// the same backend. No backend takes consecutive rounds while another
/// holds a better claim.
pub proof fn lemma_weighted_smoothness(m: LbModel, w: int, j: int)
    requires
        lb_wf(m),
        best_upto(m.backends, m.backends.len() as int) == Some(w),
        0 <= j < m.backends.len(),
        j != w,
        weighted_eligible(weighted_step(m).0.backends[j]),
        acc_cw(weighted_step(m).0.backends[j]) > acc_cw(weighted_step(m).0.backends[w]) || (
        acc_cw(weighted_step(m).0.backends[j]) == acc_cw(weighted_step(m).0.backends[w]) && j
            < w),
    ensures
        weighted_step(weighted_step(m).0).1 is Some,
        weighted_step(weighted_step(m).0).1 != weighted_step(m).1,
{
    let m1 = weighted_step(m).0;
    lemma_best_upto_props(m.backends, m.backends.len() as int);
    lemma_weighted_step_props(m);
    lemma_best_upto_is_max(m1.backends, m1.backends.len() as int, j);
    let w2 = index_of_best(m1);
    assert(acc_cw(m1.backends[w2]) >= acc_cw(m1.backends[j]));
    if acc_cw(m1.backends[j]) > acc_cw(m1.backends[w]) {
        assert(w2 != w);
    } else {
        // the challenger ties the winner from a lower index: whoever wins
        // the next round sits at or below that index, above the old winner
        // it is not
        if acc_cw(m1.backends[w2]) == acc_cw(m1.backends[j]) {
            assert(w2 <= j);
        }
        assert(w2 != w);
    }
    lemma_best_upto_props(m1.backends, m1.backends.len() as int);
    assert(weighted_step(m1).1 == Some(m1.backends[w2].url));
    assert(weighted_step(m).1 == Some(m.backends[w].url));
    assert(m1.backends[w].url == m.backends[w].url);
    assert(m1.backends[w2].url != m1.backends[w].url);
}

/// The index the weighted pass is about to hand the round to (meaningful
/// when some backend is Healthy).
pub open spec fn index_of_best(m: LbModel) -> int {
    match best_upto(m.backends, m.backends.len() as int) {
        Some(w) => w,
        None => 0,
    }
}

/// Sticky consistency: a client whose entry is fresh at `now` and whose
/// pinned backend is Healthy is handed the same URL again, and the entry's
/// clock is refreshed to `now`.
pub proof fn lemma_sticky_consistency(m: LbModel, client: Seq<char>, now: u64)
    requires
        lb_wf(m),
        has_session(m.sessions, client),
        ({
            let e = m.sessions[session_index(m.sessions, client)];
            &&& !session_expired(e, now, m.session_timeout)
            &&& has_url(m.backends, e.backend_url)
            &&& is_healthy(m.backends[index_of_url(m.backends, e.backend_url)])
        }),
    ensures
        ({
            let e = m.sessions[session_index(m.sessions, client)];
            let s = sticky_step(m, client, now);
            &&& s.1 == Some(e.backend_url)
            &&& has_session(s.0.sessions, client)
            &&& s.0.sessions[session_index(s.0.sessions, client)].backend_url == e.backend_url
            &&& s.0.sessions[session_index(s.0.sessions, client)].last_seen == now
        }),
{
    let k = session_index(m.sessions, client);
    let e = m.sessions[k];
    let pred = keep_pred(now, m.session_timeout);
    let m1 = cleanup_step(m, now);
    lemma_filter_sessions_wf(m.sessions, pred);
    m.sessions.lemma_filter_contains(pred, k);
    let k1 = choose|i: int| 0 <= i < m1.sessions.len() && m1.sessions[i] == e;
    lemma_session_index_unique(m1.sessions, client, k1);
    let e1 = m1.sessions[session_index(m1.sessions, client)];
    assert(e1 == e);
    let s = sticky_step(m, client, now);
    let upd = m1.sessions.update(k1, SessionModel { last_seen: now, ..e });
    assert(s.0.sessions == upd);
    assert(upd[k1].client == client);
    assert(clients_distinct(upd)) by {
        assert forall|x: int, y: int| 0 <= x < y < upd.len() implies upd[x].client
            != upd[y].client by {
            assert(m1.sessions[x].client != m1.sessions[y].client);
        }
    }
    lemma_session_index_unique(upd, client, k1);
}

/// Sticky failover: a client pinned to a backend that has gone Unhealthy is
/// handed a different backend when any Healthy one of positive weight
/// exists under the sticky policy, and the session is repinned to the new
/// backend.
pub proof fn lemma_sticky_failover(m: LbModel, client: Seq<char>, now: u64, h: int)
    requires
        lb_wf(m),
        m.strategy == Strategy::StickySession,
        has_session(m.sessions, client),
        0 <= h < m.backends.len(),
        weighted_eligible(m.backends[h]),
        ({
            let e = m.sessions[session_index(m.sessions, client)];
            &&& !session_expired(e, now, m.session_timeout)
            &&& !is_healthy(m.backends[index_of_url(m.backends, e.backend_url)])
        }),
    ensures
        ({
            let e = m.sessions[session_index(m.sessions, client)];
            let s = sticky_step(m, client, now);
            &&& s.1 is Some
            &&& s.1 != Some(e.backend_url)
            &&& has_session(s.0.sessions, client)
            &&& Some(s.0.sessions[session_index(s.0.sessions, client)].backend_url) == s.1
            &&& s.0.sessions[session_index(s.0.sessions, client)].last_seen == now
        }),
{
    let k = session_index(m.sessions, client);
    let e = m.sessions[k];
    let pred = keep_pred(now, m.session_timeout);
    let m1 = cleanup_step(m, now);
    lemma_filter_sessions_wf(m.sessions, pred);
    m.sessions.lemma_filter_contains(pred, k);
    let k1 = choose|i: int| 0 <= i < m1.sessions.len() && m1.sessions[i] == e;
    lemma_session_index_unique(m1.sessions, client, k1);
    assert(m1.sessions[session_index(m1.sessions, client)] == e);
    let b = index_of_url(m1.backends, e.backend_url);
    assert(b == index_of_url(m.backends, e.backend_url));
    assert(!is_healthy(m1.backends[b]));
    // the stale entry is dropped and a fresh weighted pick is made
    let m2 = LbModel { sessions: m1.sessions.remove(k1), ..m1 };
    m1.sessions.remove_ensures(k1);
    assert(sticky_step(m, client, now) == fresh_pick(m2, client, now));
    lemma_best_upto_is_max(m2.backends, m2.backends.len() as int, h);
    lemma_best_upto_props(m2.backends, m2.backends.len() as int);
    let w = index_of_best(m2);
    assert(weighted_step(m2).1 == Some(m2.backends[w].url));
    assert(is_healthy(m2.backends[w]));
    // a Healthy winner is never the Unhealthy pinned backend
    assert(w != b);
    assert(m2.backends[w].url != m2.backends[b].url);
    let p0 = weighted_step(m2).0;
    let url = m2.backends[w].url;
    let pushed = p0.sessions.push(
        SessionModel { client, backend_url: url, last_seen: now },
    );
    assert(sticky_step(m, client, now).0.sessions == pushed);
    assert(clients_distinct(pushed)) by {
        assert forall|x: int, y: int| 0 <= x < y < pushed.len() implies pushed[x].client
            != pushed[y].client by {
            if y < pushed.len() - 1 {
                let ox = if x < k1 {
                    x
                } else {
                    x + 1
                };
                let oy = if y < k1 {
                    y
                } else {
                    y + 1
                };
                assert(pushed[x] == m1.sessions[ox]);
                assert(pushed[y] == m1.sessions[oy]);
                assert(m1.sessions[ox].client != m1.sessions[oy].client);
            } else {
                let ox = if x < k1 {
                    x
                } else {
                    x + 1
                };
                assert(pushed[x] == m1.sessions[ox]);
                assert(m1.sessions[ox].client != m1.sessions[k1].client);
            }
        }
    }
    lemma_session_index_unique(pushed, client, pushed.len() - 1);
}

/// Session expiry: an entry idle for at least the timeout is gone after the
/// sweep, so the next sticky selection for that client starts from scratch.
pub proof fn lemma_session_expiry(m: LbModel, client: Seq<char>, now: u64)
    requires
        lb_wf(m),
        has_session(m.sessions, client),
        session_expired(
            m.sessions[session_index(m.sessions, client)],
            now,
            m.session_timeout,
        ),
    ensures
        !has_session(cleanup_step(m, now).sessions, client),
        sticky_step(m, client, now) == fresh_pick(cleanup_step(m, now), client, now),
{
    let k = session_index(m.sessions, client);
    let e = m.sessions[k];
    let pred = keep_pred(now, m.session_timeout);
    let m1 = cleanup_step(m, now);
    lemma_filter_sessions_wf(m.sessions, pred);
    assert forall|i: int| 0 <= i < m1.sessions.len() implies (#[trigger] m1.sessions[i]).client
        != client by {
        m.sessions.lemma_filter_pred(pred, i);
        assert(m1.sessions.contains(m1.sessions[i]));
        assert(m.sessions.contains(m1.sessions[i]));
        let ox = choose|ox: int| 0 <= ox < m.sessions.len() && m.sessions[ox] == m1.sessions[i];
        if m1.sessions[i].client == client {
            lemma_session_index_unique(m.sessions, client, ox);
            assert(m1.sessions[i] == e);
            assert(!pred(m1.sessions[i]));
        }
    }
}

/// Policy orthogonality: replacing the policy touches nothing else — not
/// the pool (weights, health, accumulators), not the round-robin cursor,
/// not the session table nor its timeout.
pub proof fn lemma_policy_orthogonality(m: LbModel, s: Strategy)
    ensures
        ({
            let m1 = LbModel { strategy: s, ..m };
            &&& m1.backends == m.backends
            &&& m1.current_idx == m.current_idx
            &&& m1.sessions == m.sessions
            &&& m1.session_timeout == m.session_timeout
            &&& m1.max_failures == m.max_failures
        }),
{
}

/// Empty pool: selection under any policy, with or without a client,
/// selects nothing, and the state is left exactly as it was.
pub proof fn lemma_empty_pool_select(m: LbModel, client: Option<Seq<char>>, now: u64)
    requires
        lb_wf(m),
        m.backends.len() == 0,
    ensures
        select_step(m, client, now).1 is None,
        select_step(m, client, now).0 == m,
{
    reveal(Seq::filter);
    assert(m.sessions.len() == 0) by {
        if m.sessions.len() > 0 {
            assert(has_url(m.backends, m.sessions[0].backend_url));
            let i = index_of_url(m.backends, m.sessions[0].backend_url);
            assert(0 <= i < 0);
        }
    }
    match m.strategy {
        Strategy::RoundRobin => {},
        Strategy::WeightedRoundRobin => {},
        Strategy::StickySession => {
            match client {
                Some(c) => {
                    let m1 = cleanup_step(m, now);
                    assert(m1.sessions =~= m.sessions);
                    assert(m1 =~= m);
                    assert(!has_session(m1.sessions, c));
                    assert(weighted_step(m1).1 is None);
                },
                None => {},
            }
        },
    }
}

/// True when every backend of `s` is Healthy.
pub open spec fn all_healthy(s: Seq<BackendModel>) -> bool {
    forall|i: int| 0 <= i < s.len() ==> is_healthy(#[trigger] s[i])
}

/// Sum of the accumulators of the first `k` backends.
pub open spec fn sum_cw(s: Seq<BackendModel>, k: int) -> int
    decreases k,
{
    if k <= 0 {
        0
    } else {
        sum_cw(s, k - 1) + s[k - 1].current_weight
    }
}

/// The state after `k` consecutive weighted selections.
pub open spec fn iterate_weighted(m: LbModel, k: nat) -> LbModel
    decreases k,
{
    if k == 0 {
        m
    } else {
        weighted_step(iterate_weighted(m, (k - 1) as nat)).0
    }
}

/// The index the weighted pass selects in state `m`, if any.
pub open spec fn picked_index(m: LbModel) -> Option<int> {
    best_upto(m.backends, m.backends.len() as int)
}

/// How many of the first `k` weighted selections from `m` picked index `i`.
pub open spec fn pick_count(m: LbModel, k: nat, i: int) -> int
    decreases k,
{
    if k == 0 {
        0
    } else {
        pick_count(m, (k - 1) as nat, i) + if picked_index(iterate_weighted(m, (k - 1) as nat))
            == Some(i) {
            1int
        } else {
            0int
        }
    }
}

/// Sum of [`pick_count`] over the first `j` indices.
pub open spec fn sum_picks(m: LbModel, k: nat, j: int) -> int
    decreases j,
{
    if j <= 0 {
        0
    } else {
        sum_picks(m, k, j - 1) + pick_count(m, k, j - 1)
    }
}

/// Replacing one backend shifts the accumulator sum by the difference at
/// that position.
proof fn lemma_sum_cw_update(s: Seq<BackendModel>, k: int, i: int, b: BackendModel)
    requires
        0 <= i < s.len(),
        k <= s.len(),
    ensures
        sum_cw(s.update(i, b), k) == sum_cw(s, k) + if i < k {
            b.current_weight - s[i].current_weight
        } else {
            0
        },
    decreases k,
{
    if k > 0 {
        lemma_sum_cw_update(s, k - 1, i, b);
    }
}

/// A sum of accumulators that all exceed `lo` exceeds `k` times `lo`.
proof fn lemma_sum_cw_lower(s: Seq<BackendModel>, k: int, lo: int)
    requires
        1 <= k <= s.len(),
        forall|j: int| 0 <= j < k ==> (#[trigger] s[j]).current_weight > lo,
    ensures
        sum_cw(s, k) > k * lo,
    decreases k,
{
    assert(sum_cw(s, k) == sum_cw(s, k - 1) + s[k - 1].current_weight);
    assert(s[k - 1].current_weight > lo);
    if k == 1 {
        assert(sum_cw(s, 0) == 0);
        assert(1 * lo == lo) by (nonlinear_arith);
    } else {
        lemma_sum_cw_lower(s, k - 1, lo);
        assert((k - 1) * lo + lo == k * lo) by (nonlinear_arith);
    }
}

/// A sum of accumulators that are all at most `hi` is at most `k` times
/// `hi`.
proof fn lemma_sum_cw_upper(s: Seq<BackendModel>, k: int, hi: int)
    requires
        0 <= k <= s.len(),
        forall|j: int| 0 <= j < k ==> (#[trigger] s[j]).current_weight <= hi,
    ensures
        sum_cw(s, k) <= k * hi,
    decreases k,
{
    if k == 0 {
        assert(0 * hi == 0) by (nonlinear_arith);
    } else {
        lemma_sum_cw_upper(s, k - 1, hi);
        assert((k - 1) * hi + hi == k * hi) by (nonlinear_arith);
    }
}

/// All accumulators zero: the sum is zero.
proof fn lemma_sum_cw_zero(s: Seq<BackendModel>, k: int)
    requires
        k <= s.len(),
        forall|j: int| 0 <= j < k ==> (#[trigger] s[j]).current_weight == 0,
    ensures
        sum_cw(s, k) == 0,
    decreases k,
{
    if k > 0 {
        lemma_sum_cw_zero(s, k - 1);
    }
}

/// When no deposit clamps, the deposit pass adds exactly the round's total
/// weight to the accumulator sum.
proof fn lemma_sum_cw_accumulate(s: Seq<BackendModel>, k: int)
    requires
        k <= s.len(),
        forall|j: int| 0 <= j < s.len() ==> is_healthy(#[trigger] s[j]),
        forall|j: int|
            0 <= j < s.len() ==> i64::MIN <= (#[trigger] s[j]).current_weight + s[j].weight
                <= i64::MAX,
    ensures
        sum_cw(accumulate_healthy(s), k) == sum_cw(s, k) + total_healthy_weight(s, k),
        forall|j: int|
            0 <= j < s.len() ==> (#[trigger] accumulate_healthy(s)[j]).current_weight
                == s[j].current_weight + s[j].weight,
    decreases k,
{
    if k > 0 {
        lemma_sum_cw_accumulate(s, k - 1);
    }
}

/// The round's total weight is at least any one Healthy backend's weight,
/// and never negative.
proof fn lemma_total_weight_bounds(s: Seq<BackendModel>, k: int, i: int)
    requires
        0 <= k <= s.len(),
    ensures
        total_healthy_weight(s, k) >= 0,
        0 <= i < k && is_healthy(s[i]) ==> total_healthy_weight(s, k) >= s[i].weight,
    decreases k,
{
    if k > 0 {
        lemma_total_weight_bounds(s, k - 1, i);
    }
}

/// Two pools with the same health states and weights have the same round
/// total.
proof fn lemma_total_weight_same(a: Seq<BackendModel>, b: Seq<BackendModel>, k: int)
    requires
        k <= a.len(),
        k <= b.len(),
        forall|j: int|
            0 <= j < k ==> (#[trigger] b[j]).health == a[j].health && b[j].weight == a[j].weight,
    ensures
        total_healthy_weight(b, k) == total_healthy_weight(a, k),
    decreases k,
{
    if k > 0 {
        lemma_total_weight_same(a, b, k - 1);
    }
}

/// The round total of a pool whose Healthy backends all have weight 0 is 0.
proof fn lemma_total_weight_zero(s: Seq<BackendModel>, k: int)
    requires
        forall|j: int| 0 <= j < k ==> (is_healthy(#[trigger] s[j]) ==> s[j].weight == 0),
    ensures
        total_healthy_weight(s, k) == 0,
    decreases k,
{
    if k > 0 {
        lemma_total_weight_zero(s, k - 1);
    }
}

/// One weighted selection on an all-Healthy pool whose accumulator sum is
/// zero, whose accumulators each exceed `-t` (`t` the round's total
/// weight), and whose weight-0 backends rest at zero: no clamping occurs,
/// every backend deposits exactly its weight, the winner is charged exactly
/// `t`, and the invariants survive.
proof fn lemma_weighted_step_exact(m: LbModel)
    requires
        lb_wf(m),
        all_healthy(m.backends),
        1 <= m.backends.len(),
        sum_cw(m.backends, m.backends.len() as int) == 0,
        forall|i: int|
            0 <= i < m.backends.len() ==> (#[trigger] m.backends[i]).current_weight
                > -total_healthy_weight(m.backends, m.backends.len() as int),
        forall|i: int|
            0 <= i < m.backends.len() ==> ((#[trigger] m.backends[i]).weight == 0
                ==> m.backends[i].current_weight == 0),
        1 <= total_healthy_weight(m.backends, m.backends.len() as int),
        (m.backends.len() as int + 1) * total_healthy_weight(
            m.backends,
            m.backends.len() as int,
        ) <= i64::MAX,
    ensures
        picked_index(m) is Some,
        ({
            let n = m.backends.len() as int;
            let t = total_healthy_weight(m.backends, n);
            let w = index_of_best(m);
            let m1 = weighted_step(m).0;
            &&& 0 <= w < n
            &&& m1.backends.len() == n
            &&& forall|i: int|
                0 <= i < n && i != w ==> (#[trigger] m1.backends[i]).current_weight as int
                    == m.backends[i].current_weight + m.backends[i].weight
            &&& m1.backends[w].current_weight as int == m.backends[w].current_weight
                + m.backends[w].weight - t
            &&& sum_cw(m1.backends, n) == 0
            &&& forall|i: int|
                0 <= i < n ==> (#[trigger] m1.backends[i]).current_weight > -t
            &&& total_healthy_weight(m1.backends, n) == t
        }),
{
    let s = m.backends;
    let n = s.len() as int;
    let t = total_healthy_weight(s, n);
    lemma_best_upto_props(s, n);
    // some backend is eligible: were every Healthy backend of weight 0, the
    // round total would be 0
    if picked_index(m) is None {
        assert forall|j: int| 0 <= j < n implies (is_healthy(#[trigger] s[j]) ==> s[j].weight
            == 0) by {
            assert(!weighted_eligible(s[j]));
        }
        lemma_total_weight_zero(s, n);
        assert(false);
    }
    let w = index_of_best(m);
    // each accumulator is below n·t: zero out one position and bound the rest
    assert forall|i: int| 0 <= i < n implies (#[trigger] s[i]).current_weight < n * t by {
        let b0 = BackendModel { current_weight: 0, ..s[i] };
        let upd = s.update(i, b0);
        lemma_sum_cw_update(s, n, i, b0);
        assert forall|j: int| 0 <= j < n implies (#[trigger] upd[j]).current_weight > -t by {
            if j != i {
                assert(s[j].current_weight > -t);
            }
        }
        lemma_sum_cw_lower(upd, n, -t);
        assert(n * (-t) == -(n * t)) by (nonlinear_arith);
    }
    // no deposit clamps
    assert(n * t + t == (n + 1) * t) by (nonlinear_arith);
    assert(0 <= n * t) by (nonlinear_arith)
        requires
            1 <= n,
            1 <= t,
    ;
    assert forall|j: int|
        0 <= j < s.len() implies i64::MIN <= (#[trigger] s[j]).current_weight + s[j].weight
        <= i64::MAX by {
        lemma_total_weight_bounds(s, n, j);
    }
    lemma_sum_cw_accumulate(s, n);
    let acc = accumulate_healthy(s);
    assert(sum_cw(acc, n) == t);
    // the winner's deposited accumulator is positive: it tops every
    // eligible backend's, and weight-0 backends rest at zero, so were it
    // nonpositive the whole sum could not reach t
    assert(acc[w].current_weight >= 1) by {
        if acc[w].current_weight <= 0 {
            assert forall|j: int| 0 <= j < n implies (#[trigger] acc[j]).current_weight
                <= 0 by {
                if weighted_eligible(s[j]) {
                    lemma_best_upto_is_max(s, n, j);
                } else {
                    assert(is_healthy(s[j]) && s[j].weight == 0);
                    assert(s[j].current_weight == 0);
                    assert(acc[j].current_weight == s[j].current_weight + s[j].weight);
                }
            }
            lemma_sum_cw_upper(acc, n, 0);
            assert(n * 0 == 0) by (nonlinear_arith);
        }
    }
    // the winner's charge does not clamp either
    let vw = acc[w].current_weight as int;
    let bw = BackendModel {
        current_weight: crate::arith::sat64(vw - t) as i64,
        ..acc[w]
    };
    assert(crate::arith::sat64(vw - t) == vw - t);
    lemma_sum_cw_update(acc, n, w, bw);
    let m1 = weighted_step(m).0;
    assert(m1.backends == acc.update(w, bw));
    assert(sum_cw(m1.backends, n) == t + (vw - t) - vw);
    assert forall|i: int| 0 <= i < n implies (#[trigger] m1.backends[i]).current_weight > -t by {
        if i != w {
            assert(m1.backends[i] == acc[i]);
            assert(acc[i].current_weight == s[i].current_weight + s[i].weight);
        }
    }
    lemma_total_weight_same(s, m1.backends, n);
}

/// Along any run of weighted selections on an all-Healthy pool that starts
/// from resting accumulators: the pool's composition and the round total are
/// untouched, the accumulator sum stays zero, every accumulator stays above
/// `-t`, and each accumulator equals `k·weight − picks·t` — the counting
/// identity the fairness theorem rests on.
proof fn lemma_weighted_run(m: LbModel, k: nat)
    requires
        lb_wf(m),
        all_healthy(m.backends),
        1 <= m.backends.len(),
        forall|i: int|
            0 <= i < m.backends.len() ==> (#[trigger] m.backends[i]).current_weight == 0,
        1 <= total_healthy_weight(m.backends, m.backends.len() as int),
        (m.backends.len() as int + 1) * total_healthy_weight(
            m.backends,
            m.backends.len() as int,
        ) <= i64::MAX,
    ensures
        ({
            let n = m.backends.len() as int;
            let t = total_healthy_weight(m.backends, n);
            let mk = iterate_weighted(m, k);
            &&& lb_wf(mk)
            &&& mk.backends.len() == n
            &&& forall|i: int|
                0 <= i < n ==> ((#[trigger] mk.backends[i]).health == m.backends[i].health
                    && mk.backends[i].weight == m.backends[i].weight && mk.backends[i].url
                    == m.backends[i].url)
            &&& sum_cw(mk.backends, n) == 0
            &&& forall|i: int| 0 <= i < n ==> (#[trigger] mk.backends[i]).current_weight > -t
            &&& forall|i: int|
                0 <= i < n ==> (#[trigger] mk.backends[i]).current_weight as int == k
                    * m.backends[i].weight - pick_count(m, k, i) * t
            &&& forall|i: int| 0 <= i < n ==> 0 <= #[trigger] pick_count(m, k, i)
            &&& forall|i: int|
                0 <= i < n ==> ((#[trigger] m.backends[i]).weight == 0
                    ==> mk.backends[i].current_weight == 0)
        }),
    decreases k,
{
    let n = m.backends.len() as int;
    let t = total_healthy_weight(m.backends, n);
    if k == 0 {
        lemma_sum_cw_zero(m.backends, n);
        assert forall|i: int|
            0 <= i < n implies (#[trigger] m.backends[i]).current_weight as int == 0
            * m.backends[i].weight - pick_count(m, 0nat, i) * t by {
            assert(0 * m.backends[i].weight == 0) by (nonlinear_arith);
            assert(0 * t == 0) by (nonlinear_arith);
        }
    } else {
        lemma_weighted_run(m, (k - 1) as nat);
        let prev = iterate_weighted(m, (k - 1) as nat);
        assert(all_healthy(prev.backends)) by {
            assert forall|i: int| 0 <= i < n implies is_healthy(#[trigger] prev.backends[i]) by {
                assert(prev.backends[i].health == m.backends[i].health);
                assert(is_healthy(m.backends[i]));
            }
        }
        lemma_total_weight_same(m.backends, prev.backends, n);
        assert forall|i: int|
            0 <= i < n implies ((#[trigger] prev.backends[i]).weight == 0
            ==> prev.backends[i].current_weight == 0) by {
            assert(prev.backends[i].weight == m.backends[i].weight);
        }
        lemma_weighted_step_exact(prev);
        lemma_weighted_step_props(prev);
        let w = index_of_best(prev);
        let mk = iterate_weighted(m, k);
        assert(mk == weighted_step(prev).0);
        assert(picked_index(prev) == Some(w));
        lemma_best_upto_props(prev.backends, n);
        assert(weighted_eligible(prev.backends[w]));
        assert forall|i: int|
            0 <= i < n implies (#[trigger] mk.backends[i]).current_weight as int == k
            * m.backends[i].weight - pick_count(m, k, i) * t by {
            let wi = m.backends[i].weight as int;
            let c_prev = pick_count(m, (k - 1) as nat, i);
            assert(prev.backends[i].current_weight as int == (k - 1) * wi - c_prev * t);
            assert(prev.backends[i].weight == m.backends[i].weight);
            if i == w {
                assert(mk.backends[i].current_weight as int == prev.backends[i].current_weight
                    + wi - t);
                assert(pick_count(m, k, i) == c_prev + 1);
                assert((k - 1) * wi + wi == k * wi) by (nonlinear_arith);
                assert((c_prev + 1) * t == c_prev * t + t) by (nonlinear_arith);
            } else {
                assert(mk.backends[i].current_weight as int == prev.backends[i].current_weight
                    + wi);
                assert(pick_count(m, k, i) == c_prev);
                assert((k - 1) * wi + wi == k * wi) by (nonlinear_arith);
            }
        }
        assert forall|i: int|
            0 <= i < n implies ((#[trigger] mk.backends[i]).health == m.backends[i].health
            && mk.backends[i].weight == m.backends[i].weight && mk.backends[i].url
            == m.backends[i].url) by {
            assert(mk.backends[i].health == prev.backends[i].health);
            assert(mk.backends[i].weight == prev.backends[i].weight);
            assert(mk.backends[i].url == prev.backends[i].url);
        }
        assert forall|i: int| 0 <= i < n implies 0 <= #[trigger] pick_count(m, k, i) by {
            assert(0 <= pick_count(m, (k - 1) as nat, i));
        }
        assert forall|i: int|
            0 <= i < n implies ((#[trigger] m.backends[i]).weight == 0
            ==> mk.backends[i].current_weight == 0) by {
            if m.backends[i].weight == 0 {
                // the winner is eligible, so it is not this backend, whose
                // deposit of 0 leaves its resting accumulator at zero
                assert(prev.backends[w].weight == m.backends[w].weight);
                assert(i != w);
                assert(mk.backends[i].current_weight as int
                    == prev.backends[i].current_weight + m.backends[i].weight);
                assert(prev.backends[i].current_weight == 0);
            }
        }
    }
}

/// One more selection raises the pick-count sum over the first `j` indices
/// by one exactly when the winner's index is below `j`.
proof fn lemma_sum_picks_indicator(m: LbModel, k: nat, j: int, w: int)
    requires
        1 <= k,
        picked_index(iterate_weighted(m, (k - 1) as nat)) == Some(w),
        0 <= w,
        0 <= j,
    ensures
        sum_picks(m, k, j) == sum_picks(m, (k - 1) as nat, j) + if w < j {
            1int
        } else {
            0int
        },
    decreases j,
{
    if j > 0 {
        lemma_sum_picks_indicator(m, k, j - 1, w);
    }
}

/// Every selection is of exactly one backend: after `k` selections the
/// pick counts over the whole pool sum to `k`.
proof fn lemma_sum_picks_total(m: LbModel, k: nat)
    requires
        lb_wf(m),
        all_healthy(m.backends),
        1 <= m.backends.len(),
        forall|i: int|
            0 <= i < m.backends.len() ==> (#[trigger] m.backends[i]).current_weight == 0,
        1 <= total_healthy_weight(m.backends, m.backends.len() as int),
        (m.backends.len() as int + 1) * total_healthy_weight(
            m.backends,
            m.backends.len() as int,
        ) <= i64::MAX,
    ensures
        sum_picks(m, k, m.backends.len() as int) == k,
    decreases k,
{
    let n = m.backends.len() as int;
    if k == 0 {
        assert forall|j: int| 0 <= j <= n implies sum_picks(m, 0nat, j) == 0 by {
            lemma_sum_picks_zero(m, j);
        }
    } else {
        lemma_sum_picks_total(m, (k - 1) as nat);
        lemma_weighted_run(m, (k - 1) as nat);
        let prev = iterate_weighted(m, (k - 1) as nat);
        assert(all_healthy(prev.backends)) by {
            assert forall|i: int| 0 <= i < n implies is_healthy(#[trigger] prev.backends[i]) by {
                assert(prev.backends[i].health == m.backends[i].health);
                assert(is_healthy(m.backends[i]));
            }
        }
        lemma_total_weight_same(m.backends, prev.backends, n);
        assert forall|i: int|
            0 <= i < n implies ((#[trigger] prev.backends[i]).weight == 0
            ==> prev.backends[i].current_weight == 0) by {
            assert(prev.backends[i].weight == m.backends[i].weight);
        }
        lemma_weighted_step_exact(prev);
        let w = index_of_best(prev);
        lemma_sum_picks_indicator(m, k, n, w);
    }
}

/// With no selections, every prefix of pick counts sums to zero.
proof fn lemma_sum_picks_zero(m: LbModel, j: int)
    ensures
        sum_picks(m, 0nat, j) == 0,
    decreases j,
{
    if j > 0 {
        lemma_sum_picks_zero(m, j - 1);
    }
}

/// The shortfall of picks against weights over the first `j` indices, after
/// `k` selections.
spec fn pick_deficit(m: LbModel, k: nat, j: int) -> int {
    total_healthy_weight(m.backends, j) - sum_picks(m, k, j)
}

/// When every backend's picks stay at or below its weight, the shortfall is
/// nonnegative and grows with the prefix.
proof fn lemma_deficit_monotone(m: LbModel, k: nat, j: int)
    requires
        0 <= j <= m.backends.len(),
        all_healthy(m.backends),
        forall|i: int|
            0 <= i < m.backends.len() ==> #[trigger] pick_count(m, k, i) <= m.backends[i].weight,
    ensures
        0 <= pick_deficit(m, k, j),
        forall|i: int| 0 <= i <= j ==> #[trigger] pick_deficit(m, k, i) <= pick_deficit(m, k, j),
    decreases j,
{
    if j > 0 {
        lemma_deficit_monotone(m, k, j - 1);
        assert(is_healthy(m.backends[j - 1]));
        assert(pick_count(m, k, j - 1) <= m.backends[j - 1].weight);
    }
}

/// Weighted fairness: on an all-Healthy pool at rest (accumulators zero),
/// the next `t` selections — `t` the total weight — pick every backend
/// exactly its weight's worth of times, and leave every accumulator back at
/// zero. The multiset of a window's selections is therefore fixed by the
/// weights alone, however the pool is ordered. (The bound on `t` keeps the
/// run inside `i64`, where the clamped arithmetic is exact.)
pub proof fn lemma_weighted_fairness(m: LbModel)
    requires
        lb_wf(m),
        all_healthy(m.backends),
        1 <= m.backends.len(),
        forall|i: int|
            0 <= i < m.backends.len() ==> (#[trigger] m.backends[i]).current_weight == 0,
        1 <= total_healthy_weight(m.backends, m.backends.len() as int),
        (m.backends.len() as int + 1) * total_healthy_weight(
            m.backends,
            m.backends.len() as int,
        ) <= i64::MAX,
    ensures
        ({
            let n = m.backends.len() as int;
            let t = total_healthy_weight(m.backends, n);
            &&& forall|i: int|
                0 <= i < n ==> #[trigger] pick_count(m, t as nat, i) == m.backends[i].weight
            &&& forall|i: int|
                0 <= i < n ==> (#[trigger] iterate_weighted(
                    m,
                    t as nat,
                ).backends[i]).current_weight == 0
        }),
{
    let n = m.backends.len() as int;
    let t = total_healthy_weight(m.backends, n);
    let k = t as nat;
    lemma_weighted_run(m, k);
    let mk = iterate_weighted(m, k);
    // picks never exceed weights: t·(w_i − c_i) = accumulator > −t
    assert forall|i: int|
        0 <= i < n implies #[trigger] pick_count(m, k, i) <= m.backends[i].weight by {
        let wi = m.backends[i].weight as int;
        let ci = pick_count(m, k, i);
        assert(mk.backends[i].current_weight as int == t * wi - ci * t);
        assert(t * wi - ci * t == t * (wi - ci)) by (nonlinear_arith);
        if wi - ci <= -1 {
            assert(t * (wi - ci) <= -t) by (nonlinear_arith)
                requires
                    1 <= t,
                    wi - ci <= -1,
            ;
        }
    }
    // and they sum to exactly the total weight, so none falls short either
    lemma_sum_picks_total(m, k);
    lemma_deficit_monotone(m, k, n);
    assert(pick_deficit(m, k, n) == 0);
    assert forall|i: int|
        0 <= i < n implies #[trigger] pick_count(m, k, i) == m.backends[i].weight by {
        lemma_deficit_monotone(m, k, i);
        lemma_deficit_monotone(m, k, i + 1);
        assert(pick_deficit(m, k, i + 1) <= pick_deficit(m, k, n));
        assert(0 <= pick_deficit(m, k, i));
        assert(is_healthy(m.backends[i]));
        assert(pick_deficit(m, k, i + 1) - pick_deficit(m, k, i) == m.backends[i].weight
            - pick_count(m, k, i));
    }
    // with every count equal to its weight, every accumulator is back at zero
    assert forall|i: int|
        0 <= i < n implies (#[trigger] iterate_weighted(m, k).backends[i]).current_weight
        == 0 by {
        let wi = m.backends[i].weight as int;
        assert(mk.backends[i].current_weight as int == t * wi - wi * t);
        assert(t * wi - wi * t == 0) by (nonlinear_arith);
    }
}

/// Selecting `a + b` times is selecting `a` times, then `b` more; the pick
/// counts add up accordingly.
proof fn lemma_iterate_compose(m: LbModel, a: nat, b: nat, i: int)
    ensures
        iterate_weighted(m, a + b) == iterate_weighted(iterate_weighted(m, a), b),
        pick_count(m, a + b, i) == pick_count(m, a, i) + pick_count(iterate_weighted(m, a), b, i),
    decreases b,
{
    if b > 0 {
        lemma_iterate_compose(m, a, (b - 1) as nat, i);
        assert(a + b - 1 == a + (b - 1));
    }
}

/// Weighted selection touches only the pool: sessions, cursor, policy and
/// timeouts ride along unchanged through any run.
proof fn lemma_iterate_preserves_rest(m: LbModel, k: nat)
    ensures
        ({
            let mk = iterate_weighted(m, k);
            &&& mk.sessions == m.sessions
            &&& mk.current_idx == m.current_idx
            &&& mk.strategy == m.strategy
            &&& mk.session_timeout == m.session_timeout
            &&& mk.max_failures == m.max_failures
        }),
    decreases k,
{
    if k > 0 {
        lemma_iterate_preserves_rest(m, (k - 1) as nat);
    }
}

/// From rest, the weighted pass is periodic: after `t` selections (`t` the
/// total weight) the state is exactly what it was.
pub proof fn lemma_weighted_periodic(m: LbModel)
    requires
        lb_wf(m),
        all_healthy(m.backends),
        1 <= m.backends.len(),
        forall|i: int|
            0 <= i < m.backends.len() ==> (#[trigger] m.backends[i]).current_weight == 0,
        1 <= total_healthy_weight(m.backends, m.backends.len() as int),
        (m.backends.len() as int + 1) * total_healthy_weight(
            m.backends,
            m.backends.len() as int,
        ) <= i64::MAX,
    ensures
        iterate_weighted(m, total_healthy_weight(m.backends, m.backends.len() as int) as nat)
            == m,
{
    let n = m.backends.len() as int;
    let t = total_healthy_weight(m.backends, n);
    let k = t as nat;
    lemma_weighted_run(m, k);
    lemma_weighted_fairness(m);
    lemma_iterate_preserves_rest(m, k);
    let mk = iterate_weighted(m, k);
    assert forall|i: int| 0 <= i < n implies mk.backends[i] == m.backends[i] by {
        assert(mk.backends[i].current_weight == 0 && m.backends[i].current_weight == 0);
        assert(mk.backends[i] =~= m.backends[i]);
    }
    assert(mk.backends =~= m.backends);
    assert(mk =~= m);
}

/// Weighted fairness over every window: on a pool run from rest, any `t`
/// consecutive selections — wherever the window starts — pick each backend
/// exactly its weight's worth of times.
pub proof fn lemma_weighted_fairness_any_window(m: LbModel, s: nat)
    requires
        lb_wf(m),
        all_healthy(m.backends),
        1 <= m.backends.len(),
        forall|i: int|
            0 <= i < m.backends.len() ==> (#[trigger] m.backends[i]).current_weight == 0,
        1 <= total_healthy_weight(m.backends, m.backends.len() as int),
        (m.backends.len() as int + 1) * total_healthy_weight(
            m.backends,
            m.backends.len() as int,
        ) <= i64::MAX,
    ensures
        ({
            let n = m.backends.len() as int;
            let t = total_healthy_weight(m.backends, n);
            forall|i: int|
                0 <= i < n ==> pick_count(m, s + t as nat, i) - #[trigger] pick_count(m, s, i)
                    == m.backends[i].weight
        }),
{
    let n = m.backends.len() as int;
    let t = total_healthy_weight(m.backends, n);
    let k = t as nat;
    lemma_weighted_run(m, s);
    lemma_weighted_run(m, s + k);
    lemma_weighted_periodic(m);
    assert forall|i: int|
        0 <= i < n implies pick_count(m, s + k, i) - #[trigger] pick_count(m, s, i)
        == m.backends[i].weight by {
        // the state repeats with period t, so the accumulators at s and
        // s + t agree, and the counting identity cancels to one round's
        // worth of picks
        lemma_iterate_compose(m, k, s, i);
        assert(iterate_weighted(m, k + s) == iterate_weighted(m, s));
        assert(s + k == k + s);
        let cw_s = iterate_weighted(m, s).backends[i].current_weight as int;
        let wi = m.backends[i].weight as int;
        let ca = pick_count(m, s + k, i);
        let cb = pick_count(m, s, i);
        assert(cw_s == (s + k) * wi - ca * t);
        assert(cw_s == s * wi - cb * t);
        assert((s + k) * wi == s * wi + t * wi) by (nonlinear_arith)
            requires
                k == t,
        ;
        assert(ca * t - cb * t == (ca - cb) * t) by (nonlinear_arith);
        assert(ca - cb == wi) by (nonlinear_arith)
            requires
                (ca - cb) * t == t * wi,
                1 <= t,
        ;
    }
}

} // verus!
