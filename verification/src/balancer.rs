//! The load balancer's shared state and every transition on it: construction,
//! the admin mutations, the health-transition rules, session expiry, and the
//! three selection policies. Each executable method is specified against a
//! pure transition function on the mathematical model [`LbModel`]; the
//! transition functions are also what the laws in [`crate::laws`] are proved
//! about.

use vstd::prelude::*;

use crate::arith::{clamp_i128_to_i64, sat64, sat_add_i64};
use crate::pool::{is_healthy, Backend, BackendModel, HealthStatus, SessionEntry, SessionInfo, SessionModel, Strategy};
use crate::text::str_eq_str;

verus! {

/// Mathematical model of the whole balancer state.
#[verifier::ext_equal]
pub struct LbModel {
    /// The pool, in configuration order; the order never changes after
    /// construction and defines round-robin traversal.
    pub backends: Seq<BackendModel>,
    /// Cursor of plain round-robin: index of the backend examined first.
    pub current_idx: int,
    /// Policy in force.
    pub strategy: Strategy,
    /// Sticky-session table, in insertion order, one entry per client.
    pub sessions: Seq<SessionModel>,
    /// TTL of a session entry, in seconds.
    pub session_timeout: u64,
    /// Configured failure threshold. It is stored, but no transition
    /// consults it: a backend stays selectable however many failures it has
    /// accumulated, and recovers on any single success. Honoring the
    /// threshold would be a deliberate policy change, not made here.
    pub max_failures: u32,
}

/// True of a backend whose failure count is coherent: inside `Unhealthy`
/// the count is at least 1.
pub open spec fn wf_backend(b: BackendModel) -> bool {
    b.health matches HealthStatus::Unhealthy(n) ==> n >= 1
}

/// No URL appears twice in the pool.
pub open spec fn urls_distinct(s: Seq<BackendModel>) -> bool {
    forall|i: int, j: int| 0 <= i < j < s.len() ==> s[i].url != s[j].url
}

/// No client appears twice in the session table.
pub open spec fn clients_distinct(s: Seq<SessionModel>) -> bool {
    forall|i: int, j: int| 0 <= i < j < s.len() ==> s[i].client != s[j].client
}

/// Some backend in `s` has this URL.
pub open spec fn has_url(s: Seq<BackendModel>, url: Seq<char>) -> bool {
    exists|i: int| 0 <= i < s.len() && (#[trigger] s[i]).url == url
}

/// The index of the backend with this URL (meaningful when `has_url` holds
/// and the URLs are distinct).
pub open spec fn index_of_url(s: Seq<BackendModel>, url: Seq<char>) -> int {
    choose|i: int| 0 <= i < s.len() && (#[trigger] s[i]).url == url
}

/// Some session entry in `s` belongs to this client.
pub open spec fn has_session(s: Seq<SessionModel>, client: Seq<char>) -> bool {
    exists|i: int| 0 <= i < s.len() && (#[trigger] s[i]).client == client
}

/// The index of this client's session entry (meaningful when `has_session`
/// holds and the clients are distinct).
pub open spec fn session_index(s: Seq<SessionModel>, client: Seq<char>) -> int {
    choose|i: int| 0 <= i < s.len() && (#[trigger] s[i]).client == client
}

/// Every session entry points at a URL that exists in the pool.
pub open spec fn sessions_reference_pool(
    sessions: Seq<SessionModel>,
    backends: Seq<BackendModel>,
) -> bool {
    forall|i: int| 0 <= i < sessions.len() ==> has_url(backends, (#[trigger] sessions[i]).backend_url)
}

/// Well-formedness of the balancer state: distinct URLs, coherent failure
/// counts, cursor in range (0 on an empty pool), one session per client,
/// and no session pointing outside the pool.
pub open spec fn lb_wf(m: LbModel) -> bool {
    &&& urls_distinct(m.backends)
    &&& forall|i: int| 0 <= i < m.backends.len() ==> wf_backend(#[trigger] m.backends[i])
    &&& if m.backends.len() == 0 {
        m.current_idx == 0
    } else {
        0 <= m.current_idx < m.backends.len()
    }
    &&& clients_distinct(m.sessions)
    &&& sessions_reference_pool(m.sessions, m.backends)
}

/// The view of an optional client identity.
pub open spec fn opt_client_view(c: Option<&str>) -> Option<Seq<char>> {
    match c {
        Some(s) => Some(s@),
        None => None,
    }
}

/// The view of an optional returned URL.
pub open spec fn opt_str_view(r: Option<String>) -> Option<Seq<char>> {
    match r {
        Some(s) => Some(s@),
        None => None,
    }
}

/// The failure count after one more observed failure: `Healthy` becomes
/// `Unhealthy(1)`, `Unhealthy(n)` becomes `Unhealthy(n + 1)` (the count
/// stays put once it reaches `u32::MAX`).
pub open spec fn bump_unhealthy(h: HealthStatus) -> HealthStatus {
    match h {
        HealthStatus::Healthy => HealthStatus::Unhealthy(1),
        HealthStatus::Unhealthy(n) => HealthStatus::Unhealthy(
            if n == u32::MAX {
                n
            } else {
                (n + 1) as u32
            },
        ),
    }
}

/// One observed failure against the backend with this URL; a URL outside the
/// pool changes nothing.
pub open spec fn mark_unhealthy_spec(m: LbModel, url: Seq<char>) -> LbModel {
    if has_url(m.backends, url) {
        let i = index_of_url(m.backends, url);
        LbModel {
            backends: m.backends.update(
                i,
                BackendModel { health: bump_unhealthy(m.backends[i].health), ..m.backends[i] },
            ),
            ..m
        }
    } else {
        m
    }
}

/// One observed success against the backend with this URL: it is Healthy
/// afterwards, whatever its failure count was, and its accumulator is kept.
/// A URL outside the pool changes nothing.
pub open spec fn mark_healthy_spec(m: LbModel, url: Seq<char>) -> LbModel {
    if has_url(m.backends, url) {
        let i = index_of_url(m.backends, url);
        LbModel {
            backends: m.backends.update(
                i,
                BackendModel { health: HealthStatus::Healthy, ..m.backends[i] },
            ),
            ..m
        }
    } else {
        m
    }
}

/// `n` consecutive failures recorded against this URL, one after another.
pub open spec fn iterate_mark_unhealthy(m: LbModel, url: Seq<char>, n: nat) -> LbModel
    decreases n,
{
    if n == 0 {
        m
    } else {
        mark_unhealthy_spec(iterate_mark_unhealthy(m, url, (n - 1) as nat), url)
    }
}

/// A new static weight for the backend with this URL; a URL outside the pool
/// changes nothing.
pub open spec fn set_weight_spec(m: LbModel, url: Seq<char>, weight: u32) -> LbModel {
    if has_url(m.backends, url) {
        let i = index_of_url(m.backends, url);
        LbModel {
            backends: m.backends.update(i, BackendModel { weight, ..m.backends[i] }),
            ..m
        }
    } else {
        m
    }
}

/// Scan of plain round-robin: the first Healthy backend at or after `cur`,
/// wrapping around, looking at no more than `k` entries. `cur` must be a
/// valid index of `s`.
pub open spec fn rr_scan(s: Seq<BackendModel>, cur: int, k: nat) -> Option<int>
    decreases k,
{
    if k == 0 {
        None
    } else if is_healthy(s[cur]) {
        Some(cur)
    } else {
        rr_scan(
            s,
            if cur + 1 == s.len() {
                0
            } else {
                cur + 1
            },
            (k - 1) as nat,
        )
    }
}

/// One plain round-robin selection: the first Healthy backend at or after
/// the cursor (wrapping), with the cursor advanced one past the choice. A
/// full fruitless revolution — or an empty pool — selects nothing and puts
/// the cursor back where it started.
pub open spec fn rr_step(m: LbModel) -> (LbModel, Option<Seq<char>>) {
    if m.backends.len() == 0 {
        (m, None)
    } else {
        match rr_scan(m.backends, m.current_idx, m.backends.len() as nat) {
            Some(i) => (
                LbModel {
                    current_idx: if i + 1 == m.backends.len() {
                        0
                    } else {
                        i + 1
                    },
                    ..m
                },
                Some(m.backends[i].url),
            ),
            None => (m, None),
        }
    }
}

/// A backend's accumulator after this round's deposit: its static weight
/// added on top (clamped to `i64`). Only Healthy backends take the deposit.
pub open spec fn acc_cw(b: BackendModel) -> int {
    sat64(b.current_weight + b.weight)
}

/// Sum of the static weights of the Healthy backends among the first `k`.
pub open spec fn total_healthy_weight(s: Seq<BackendModel>, k: int) -> int
    decreases k,
{
    if k <= 0 {
        0
    } else {
        total_healthy_weight(s, k - 1) + if is_healthy(s[k - 1]) {
            s[k - 1].weight as int
        } else {
            0
        }
    }
}

/// True of a backend the weighted pass may hand a round to: Healthy and of
/// positive weight. Weight 0 means "never selected under weighted"; such a
/// backend keeps its place in the pool (plain round-robin still serves it)
/// but neither wins a round nor blocks one.
pub open spec fn weighted_eligible(b: BackendModel) -> bool {
    is_healthy(b) && b.weight > 0
}

/// The winner among the first `k` backends: the eligible backend — Healthy,
/// positive weight — with the greatest deposited accumulator [`acc_cw`],
/// earliest index on a tie; `None` when none of the first `k` is eligible.
pub open spec fn best_upto(s: Seq<BackendModel>, k: int) -> Option<int>
    decreases k,
{
    if k <= 0 {
        None
    } else {
        let prev = best_upto(s, k - 1);
        if !weighted_eligible(s[k - 1]) {
            prev
        } else {
            match prev {
                None => Some(k - 1),
                Some(j) => if acc_cw(s[k - 1]) > acc_cw(s[j]) {
                    Some(k - 1)
                } else {
                    Some(j)
                },
            }
        }
    }
}

/// The pool after the deposit pass: every Healthy backend's accumulator has
/// its weight added (clamped to `i64`); Unhealthy backends are untouched.
pub open spec fn accumulate_healthy(s: Seq<BackendModel>) -> Seq<BackendModel> {
    Seq::new(
        s.len(),
        |i: int|
            if is_healthy(s[i]) {
                BackendModel { current_weight: sat64(s[i].current_weight + s[i].weight) as i64, ..s[i] }
            } else {
                s[i]
            },
    )
}

/// One smooth weighted round-robin selection: deposit each Healthy backend's
/// weight into its accumulator, pick the greatest accumulator among the
/// eligible — Healthy, positive weight — backends (earliest on a tie), and
/// charge the winner the round's total Healthy weight. With no eligible
/// backend nothing changes and nothing is selected: a pool whose only
/// Healthy backends have weight 0 yields `None`.
pub open spec fn weighted_step(m: LbModel) -> (LbModel, Option<Seq<char>>) {
    match best_upto(m.backends, m.backends.len() as int) {
        None => (m, None),
        Some(w) => {
            let acc = accumulate_healthy(m.backends);
            let t = total_healthy_weight(m.backends, m.backends.len() as int);
            let bw = acc[w];
            (
                LbModel {
                    backends: acc.update(
                        w,
                        BackendModel { current_weight: sat64(bw.current_weight - t) as i64, ..bw },
                    ),
                    ..m
                },
                Some(m.backends[w].url),
            )
        },
    }
}

/// What [`best_upto`] hands back is an eligible index in range; `None` only
/// when no index in range is eligible.
pub proof fn lemma_best_upto_props(s: Seq<BackendModel>, k: int)
    ensures
        match best_upto(s, k) {
            None => forall|j: int| 0 <= j < k ==> !weighted_eligible(#[trigger] s[j]),
            Some(w) => 0 <= w < k && weighted_eligible(s[w]),
        },
    decreases k,
{
    if k > 0 {
        lemma_best_upto_props(s, k - 1);
    }
}

/// A session entry is expired at time `now` when at least `timeout` seconds
/// have passed since it was last used. (A clock that appears to have moved
/// backwards never expires an entry.)
pub open spec fn session_expired(s: SessionModel, now: u64, timeout: u64) -> bool {
    now >= s.last_seen && now - s.last_seen >= timeout
}

/// The predicate a session entry must satisfy to survive the expiry sweep.
pub open spec fn keep_pred(now: u64, timeout: u64) -> spec_fn(SessionModel) -> bool {
    |s: SessionModel| !session_expired(s, now, timeout)
}

/// Expiry sweep: every expired session entry is dropped, the rest keep
/// their order.
pub open spec fn cleanup_step(m: LbModel, now: u64) -> LbModel {
    LbModel { sessions: m.sessions.filter(keep_pred(now, m.session_timeout)), ..m }
}

/// The selection a fresh (non-session) pick uses under each policy: plain
/// round-robin under `RoundRobin`, the weighted pass under the other two.
pub open spec fn strategy_pick(m: LbModel) -> (LbModel, Option<Seq<char>>) {
    match m.strategy {
        Strategy::RoundRobin => rr_step(m),
        Strategy::WeightedRoundRobin => weighted_step(m),
        Strategy::StickySession => weighted_step(m),
    }
}

/// A fresh pick for a sticky client: select by policy, and when a backend
/// was found, append a session entry pinning the client to it at `now`. The
/// client must not have an entry already.
pub open spec fn fresh_pick(m: LbModel, client: Seq<char>, now: u64) -> (
    LbModel,
    Option<Seq<char>>,
) {
    let p = strategy_pick(m);
    match p.1 {
        None => (p.0, None),
        Some(url) => (
            LbModel {
                sessions: p.0.sessions.push(
                    SessionModel { client, backend_url: url, last_seen: now },
                ),
                ..p.0
            },
            Some(url),
        ),
    }
}

/// One sticky selection: sweep expired entries; if the client still has an
/// entry whose backend exists and is Healthy, refresh it to `now` and hand
/// that URL back; otherwise drop the stale entry (if any) and make a fresh
/// pick, pinning the client to whatever it returns.
pub open spec fn sticky_step(m: LbModel, client: Seq<char>, now: u64) -> (
    LbModel,
    Option<Seq<char>>,
) {
    let m1 = cleanup_step(m, now);
    if has_session(m1.sessions, client) {
        let k = session_index(m1.sessions, client);
        let e = m1.sessions[k];
        if has_url(m1.backends, e.backend_url) && is_healthy(
            m1.backends[index_of_url(m1.backends, e.backend_url)],
        ) {
            (
                LbModel { sessions: m1.sessions.update(k, SessionModel { last_seen: now, ..e }), ..m1 },
                Some(e.backend_url),
            )
        } else {
            fresh_pick(LbModel { sessions: m1.sessions.remove(k), ..m1 }, client, now)
        }
    } else {
        fresh_pick(m1, client, now)
    }
}

/// One selection under the policy in force. A client identity matters only
/// under the sticky policy; without one, sticky falls back to the weighted
/// pass with no session side effects.
pub open spec fn select_step(m: LbModel, client: Option<Seq<char>>, now: u64) -> (
    LbModel,
    Option<Seq<char>>,
) {
    match m.strategy {
        Strategy::RoundRobin => rr_step(m),
        Strategy::WeightedRoundRobin => weighted_step(m),
        Strategy::StickySession => match client {
            Some(c) => sticky_step(m, c, now),
            None => weighted_step(m),
        },
    }
}

/// What a round-robin scan hands back is a Healthy index in range.
pub proof fn lemma_rr_scan_props(s: Seq<BackendModel>, cur: int, k: nat)
    requires
        0 <= cur < s.len(),
    ensures
        match rr_scan(s, cur, k) {
            Some(i) => 0 <= i < s.len() && is_healthy(s[i]),
            None => true,
        },
    decreases k,
{
    if k > 0 && !is_healthy(s[cur]) {
        lemma_rr_scan_props(
            s,
            if cur + 1 == s.len() {
                0
            } else {
                cur + 1
            },
            (k - 1) as nat,
        );
    }
}

/// What a policy pick hands back is the URL of a Healthy backend, and the
/// pick touches neither the sessions nor the pool's URLs and health states.
pub proof fn lemma_strategy_pick_props(m: LbModel)
    requires
        lb_wf(m),
    ensures
        ({
            let p = strategy_pick(m);
            &&& p.0.sessions == m.sessions
            &&& p.0.strategy == m.strategy
            &&& p.0.session_timeout == m.session_timeout
            &&& p.0.max_failures == m.max_failures
            &&& p.0.backends.len() == m.backends.len()
            &&& forall|i: int|
                0 <= i < m.backends.len() ==> (#[trigger] p.0.backends[i]).url
                    == m.backends[i].url && p.0.backends[i].health == m.backends[i].health
                    && p.0.backends[i].weight == m.backends[i].weight
            &&& lb_wf(p.0)
            &&& match p.1 {
                Some(url) => exists|i: int|
                    0 <= i < m.backends.len() && (#[trigger] m.backends[i]).url == url
                        && is_healthy(m.backends[i]),
                None => true,
            }
        }),
{
    let p = strategy_pick(m);
    match m.strategy {
        Strategy::RoundRobin => {
            if m.backends.len() > 0 {
                lemma_rr_scan_props(m.backends, m.current_idx, m.backends.len() as nat);
            }
        },
        Strategy::WeightedRoundRobin | Strategy::StickySession => {
            lemma_best_upto_props(m.backends, m.backends.len() as int);
        },
    }
    lemma_same_urls_wf(m, p.0);
}

/// The balancer: the pool, the round-robin cursor, the policy, the sticky
/// session table and its TTL. Constructed once, then mutated through the
/// methods below; composition of the pool is fixed after construction.
pub struct LoadBalancer {
    /// Backend servers, in configuration order.
    pub backends: Vec<Backend>,
    current_idx: usize,
    max_failures: u32,
    strategy: Strategy,
    sessions: Vec<SessionEntry>,
    session_timeout: u64,
}

impl View for LoadBalancer {
    type V = LbModel;

    closed spec fn view(&self) -> LbModel {
        LbModel {
            backends: self.backends@.map_values(|b: Backend| b@),
            current_idx: self.current_idx as int,
            strategy: self.strategy,
            sessions: self.sessions@.map_values(|e: SessionEntry| e@),
            session_timeout: self.session_timeout,
            max_failures: self.max_failures,
        }
    }
}

impl LoadBalancer {
    /// Well-formedness of this balancer's state.
    pub open spec fn wf(&self) -> bool {
        lb_wf(self@)
    }

    /// A fresh pool under plain round-robin: every backend Healthy, weight 1,
    /// accumulator 0, cursor at the front, no sessions. The URLs must be
    /// distinct — a URL is a backend's identity.
    pub fn new(backend_urls: Vec<String>, max_failures: u32, session_timeout: u64) -> (r: Self)
        requires
            forall|i: int, j: int|
                0 <= i < j < backend_urls@.len() ==> backend_urls@[i]@ != backend_urls@[j]@,
        ensures
            r.wf(),
            r@.backends.len() == backend_urls@.len(),
            forall|i: int|
                0 <= i < backend_urls@.len() ==> r@.backends[i] == (BackendModel {
                    url: backend_urls@[i]@,
                    health: HealthStatus::Healthy,
                    weight: 1u32,
                    current_weight: 0i64,
                }),
            r@.current_idx == 0,
            r@.strategy == Strategy::RoundRobin,
            r@.sessions == Seq::<SessionModel>::empty(),
            r@.session_timeout == session_timeout,
            r@.max_failures == max_failures,
    {
        let n = backend_urls.len();
        let mut backends: Vec<Backend> = Vec::new();
        let mut i: usize = 0;
        while i < n
            invariant
                0 <= i <= n,
                n == backend_urls@.len(),
                backends@.len() == i,
                forall|j: int|
                    0 <= j < i ==> backends@[j]@ == (BackendModel {
                        url: backend_urls@[j]@,
                        health: HealthStatus::Healthy,
                        weight: 1u32,
                        current_weight: 0i64,
                    }),
            decreases n - i,
        {
            backends.push(Backend {
                url: backend_urls[i].clone(),
                health_status: HealthStatus::Healthy,
                weight: 1,
                current_weight: 0,
            });
            i += 1;
        }
        let r = LoadBalancer {
            backends,
            current_idx: 0,
            max_failures,
            strategy: Strategy::RoundRobin,
            sessions: Vec::new(),
            session_timeout,
        };
        proof {
            assert(r@.sessions =~= Seq::<SessionModel>::empty());
            assert forall|i: int| 0 <= i < backend_urls@.len() implies r@.backends[i]
                == (BackendModel {
                url: backend_urls@[i]@,
                health: HealthStatus::Healthy,
                weight: 1u32,
                current_weight: 0i64,
            }) by {
                assert(r@.backends[i] == r.backends@[i]@);
            }
        }
        r
    }

    /// A fresh pool under weighted round-robin: as [`LoadBalancer::new`], but
    /// each backend carries its configured weight.
    pub fn new_weighted(
        backends_with_weights: Vec<(String, u32)>,
        max_failures: u32,
        session_timeout: u64,
    ) -> (r: Self)
        requires
            forall|i: int, j: int|
                0 <= i < j < backends_with_weights@.len()
                    ==> backends_with_weights@[i].0@ != backends_with_weights@[j].0@,
        ensures
            r.wf(),
            r@.backends.len() == backends_with_weights@.len(),
            forall|i: int|
                0 <= i < backends_with_weights@.len() ==> r@.backends[i] == (BackendModel {
                    url: backends_with_weights@[i].0@,
                    health: HealthStatus::Healthy,
                    weight: backends_with_weights@[i].1,
                    current_weight: 0i64,
                }),
            r@.current_idx == 0,
            r@.strategy == Strategy::WeightedRoundRobin,
            r@.sessions == Seq::<SessionModel>::empty(),
            r@.session_timeout == session_timeout,
            r@.max_failures == max_failures,
    {
        let n = backends_with_weights.len();
        let mut backends: Vec<Backend> = Vec::new();
        let mut i: usize = 0;
        while i < n
            invariant
                0 <= i <= n,
                n == backends_with_weights@.len(),
                backends@.len() == i,
                forall|j: int|
                    0 <= j < i ==> backends@[j]@ == (BackendModel {
                        url: backends_with_weights@[j].0@,
                        health: HealthStatus::Healthy,
                        weight: backends_with_weights@[j].1,
                        current_weight: 0i64,
                    }),
            decreases n - i,
        {
            let url = backends_with_weights[i].0.clone();
            let weight = backends_with_weights[i].1;
            backends.push(Backend { url, health_status: HealthStatus::Healthy, weight, current_weight: 0 });
            i += 1;
        }
        let r = LoadBalancer {
            backends,
            current_idx: 0,
            max_failures,
            strategy: Strategy::WeightedRoundRobin,
            sessions: Vec::new(),
            session_timeout,
        };
        proof {
            assert(r@.sessions =~= Seq::<SessionModel>::empty());
            assert forall|i: int| 0 <= i < backends_with_weights@.len() implies r@.backends[i]
                == (BackendModel {
                url: backends_with_weights@[i].0@,
                health: HealthStatus::Healthy,
                weight: backends_with_weights@[i].1,
                current_weight: 0i64,
            }) by {
                assert(r@.backends[i] == r.backends@[i]@);
            }
        }
        r
    }

    /// Replace the policy. Takes effect on the next selection; cursor,
    /// accumulators and sessions are untouched.
    pub fn set_strategy(&mut self, strategy: Strategy)
        ensures
            final(self)@ == (LbModel { strategy, ..old(self)@ }),
            old(self).wf() ==> final(self).wf(),
    {
        self.strategy = strategy;
    }

    /// Replace the session TTL. Existing entries are judged against the new
    /// TTL on their next read.
    pub fn set_session_timeout(&mut self, timeout: u64)
        ensures
            final(self)@ == (LbModel { session_timeout: timeout, ..old(self)@ }),
            old(self).wf() ==> final(self).wf(),
    {
        self.session_timeout = timeout;
    }

    /// The policy in force.
    pub fn current_strategy(&self) -> (s: Strategy)
        ensures
            s == self@.strategy,
    {
        self.strategy
    }

    /// One plain round-robin selection: walk the pool from the cursor,
    /// wrapping, and hand out the first Healthy backend, leaving the cursor
    /// one past it. Skipped entries are passed over for good — the cursor
    /// does not return to them until the next revolution. A full revolution
    /// without a Healthy backend (or an empty pool) selects nothing and
    /// leaves the cursor where it was.
    pub fn get_next_backend_round_robin(&mut self) -> (r: Option<String>)
        requires
            old(self).wf(),
        ensures
            final(self).wf(),
            final(self)@ == rr_step(old(self)@).0,
            opt_str_view(r) == rr_step(old(self)@).1,
    {
        let ghost m0 = self@;
        let n = self.backends.len();
        if n == 0 {
            return None;
        }
        let start = self.current_idx;
        let mut cur = start;
        let mut steps: usize = 0;
        while steps < n
            invariant
                m0 == old(self)@,
                self@ == m0,
                lb_wf(m0),
                n == m0.backends.len(),
                n == self.backends@.len(),
                0 < n,
                start == m0.current_idx,
                0 <= start < n,
                0 <= cur < n,
                0 <= steps <= n,
                rr_scan(m0.backends, start as int, n as nat) == rr_scan(
                    m0.backends,
                    cur as int,
                    (n - steps) as nat,
                ),
            decreases n - steps,
        {
            let healthy = match self.backends[cur].health_status {
                HealthStatus::Healthy => true,
                _ => false,
            };
            if healthy {
                self.current_idx = if cur + 1 == n {
                    0
                } else {
                    cur + 1
                };
                let url = self.backends[cur].url.clone();
                proof {
                    assert(is_healthy(m0.backends[cur as int]));
                    assert(rr_scan(m0.backends, cur as int, (n - steps) as nat) == Some(
                        cur as int,
                    ));
                    assert(self@ =~= rr_step(m0).0);
                    assert(url@ == m0.backends[cur as int].url);
                    lemma_same_urls_wf(m0, self@);
                }
                return Some(url);
            }
            proof {
                assert(rr_scan(m0.backends, cur as int, (n - steps) as nat) == rr_scan(
                    m0.backends,
                    if cur as int + 1 == n as int {
                        0int
                    } else {
                        cur as int + 1
                    },
                    (n - steps - 1) as nat,
                ));
            }
            cur = if cur + 1 == n {
                0
            } else {
                cur + 1
            };
            steps += 1;
        }
        proof {
            assert(rr_scan(m0.backends, cur as int, (n - steps) as nat) is None);
        }
        None
    }

    /// One smooth weighted round-robin selection. In one pass every Healthy
    /// backend's weight is deposited into its accumulator and the greatest
    /// accumulator among the eligible backends — Healthy, positive weight —
    /// wins (earliest index on a tie); the winner is then charged the
    /// round's total Healthy weight, so that over time each backend is
    /// chosen in proportion to its weight, interleaved rather than in
    /// bursts. A weight-0 backend is never selected here, whatever its
    /// accumulator. Unhealthy backends neither deposit nor win; their
    /// accumulators are preserved for their return. With no eligible
    /// backend, nothing changes and nothing is selected.
    pub fn get_next_backend_weighted(&mut self) -> (r: Option<String>)
        requires
            old(self).wf(),
        ensures
            final(self).wf(),
            final(self)@ == weighted_step(old(self)@).0,
            opt_str_view(r) == weighted_step(old(self)@).1,
    {
        let ghost m0 = self@;
        let n = self.backends.len();
        let mut i: usize = 0;
        let mut best: Option<usize> = None;
        let mut total: i128 = 0;
        while i < n
            invariant
                m0 == old(self)@,
                lb_wf(m0),
                n == m0.backends.len(),
                n == self.backends@.len(),
                0 <= i <= n,
                self@.current_idx == m0.current_idx,
                self@.strategy == m0.strategy,
                self@.sessions == m0.sessions,
                self@.session_timeout == m0.session_timeout,
                self@.max_failures == m0.max_failures,
                forall|j: int| i <= j < n ==> self@.backends[j] == m0.backends[j],
                forall|j: int|
                    0 <= j < i ==> self@.backends[j] == accumulate_healthy(m0.backends)[j],
                total == total_healthy_weight(m0.backends, i as int),
                0 <= total <= (i as int) * 0x1_0000_0000,
                match best_upto(m0.backends, i as int) {
                    None => best is None,
                    Some(j) => best == Some(j as usize) && 0 <= j < i && weighted_eligible(
                        m0.backends[j],
                    ),
                },
            decreases n - i,
        {
            let healthy = match self.backends[i].health_status {
                HealthStatus::Healthy => true,
                _ => false,
            };
            if healthy {
                let w = self.backends[i].weight;
                let cw = self.backends[i].current_weight;
                let ncw = sat_add_i64(cw, w as i64);
                self.backends[i].current_weight = ncw;
                proof {
                    assert(self@.backends[i as int] == accumulate_healthy(m0.backends)[i as int]);
                }
                total = total + w as i128;
                if w > 0 {
                    let challenger_wins: bool = match best {
                        None => true,
                        Some(b) => {
                            proof {
                                assert(weighted_eligible(m0.backends[b as int]));
                                assert(self@.backends[b as int] == accumulate_healthy(
                                    m0.backends,
                                )[b as int]);
                            }
                            ncw > self.backends[b].current_weight
                        },
                    };
                    if challenger_wins {
                        best = Some(i);
                    }
                }
            }
            i += 1;
        }
        proof {
            lemma_best_upto_props(m0.backends, n as int);
        }
        match best {
            None => {
                proof {
                    assert forall|j: int| 0 <= j < n implies self@.backends[j] == m0.backends[j] by {
                        assert(!weighted_eligible(m0.backends[j]));
                        assert(self@.backends[j] == accumulate_healthy(m0.backends)[j]);
                        if is_healthy(m0.backends[j]) {
                            // a Healthy weight-0 backend deposits nothing:
                            // its accumulator is unchanged
                            assert(m0.backends[j].weight == 0);
                            assert(accumulate_healthy(m0.backends)[j].current_weight as int
                                == sat64(m0.backends[j].current_weight + 0));
                        }
                    }
                    assert(self@.backends =~= m0.backends);
                    assert(self@ =~= m0);
                }
                None
            },
            Some(b) => {
                let ghost acc = accumulate_healthy(m0.backends);
                let ghost t = total_healthy_weight(m0.backends, n as int);
                let cur = self.backends[b].current_weight;
                proof {
                    assert(self@.backends[b as int] == acc[b as int]);
                    assert(cur as int == acc[b as int].current_weight as int);
                    assert(total <= (n as int) * 0x1_0000_0000);
                    assert((n as int) * 0x1_0000_0000 <= 0x1_0000_0000_0000_0000 * 0x1_0000_0000)
                        by (nonlinear_arith)
                        requires n as int <= 0x1_0000_0000_0000_0000;
                }
                let diff: i128 = cur as i128 - total;
                let nv = clamp_i128_to_i64(diff);
                self.backends[b].current_weight = nv;
                let url = self.backends[b].url.clone();
                proof {
                    let bw = acc[b as int];
                    assert(nv as int == sat64(bw.current_weight - t));
                    assert(self@.backends =~= acc.update(
                        b as int,
                        BackendModel { current_weight: sat64(bw.current_weight - t) as i64, ..bw },
                    ));
                    assert(self@ =~= weighted_step(m0).0);
                    assert(url@ == m0.backends[b as int].url);
                    assert forall|j: int|
                        0 <= j < self@.backends.len() implies (#[trigger] self@.backends[j]).url
                        == m0.backends[j].url && wf_backend(self@.backends[j]) by {}
                    lemma_same_urls_wf(m0, self@);
                }
                Some(url)
            },
        }
    }

    /// Drop every session entry that has gone `session_timeout` seconds or
    /// longer without being used; the surviving entries keep their order.
    pub fn cleanup_expired_sessions(&mut self, now: u64)
        ensures
            final(self)@ == cleanup_step(old(self)@, now),
            old(self).wf() ==> final(self).wf(),
    {
        let ghost m0 = self@;
        let ghost pred = keep_pred(now, m0.session_timeout);
        let timeout = self.session_timeout;
        let n = self.sessions.len();
        let mut kept: Vec<SessionEntry> = Vec::new();
        let mut i: usize = 0;
        while i < n
            invariant
                m0 == old(self)@,
                self@ == m0,
                pred == keep_pred(now, m0.session_timeout),
                timeout == m0.session_timeout,
                n == self.sessions@.len(),
                n == m0.sessions.len(),
                0 <= i <= n,
                kept@.map_values(|e: SessionEntry| e@) == m0.sessions.take(i as int).filter(pred),
            decreases n - i,
        {
            let last_seen = self.sessions[i].info.last_seen;
            let expired = now >= last_seen && now - last_seen >= timeout;
            proof {
                assert(self@.sessions[i as int] == self.sessions@[i as int]@);
                assert(expired == session_expired(m0.sessions[i as int], now, m0.session_timeout));
            }
            let ghost kept_before = kept@;
            if !expired {
                let e = clone_session_entry(&self.sessions[i]);
                kept.push(e);
            }
            proof {
                reveal(Seq::filter);
                let t1 = m0.sessions.take(i as int + 1);
                assert(t1.drop_last() =~= m0.sessions.take(i as int));
                assert(t1.last() == m0.sessions[i as int]);
                if !session_expired(m0.sessions[i as int], now, m0.session_timeout) {
                    assert(kept@.map_values(|e: SessionEntry| e@) =~= kept_before.map_values(
                        |e: SessionEntry| e@,
                    ).push(m0.sessions[i as int]));
                    assert(t1.filter(pred) == t1.drop_last().filter(pred).push(t1.last()));
                } else {
                    assert(t1.filter(pred) == t1.drop_last().filter(pred));
                }
            }
            i += 1;
        }
        self.sessions = kept;
        proof {
            assert(m0.sessions.take(n as int) =~= m0.sessions);
            assert(self@ =~= cleanup_step(m0, now));
            if lb_wf(m0) {
                lemma_filter_sessions_wf(m0.sessions, pred);
                assert forall|ii: int| 0 <= ii < self@.sessions.len() implies has_url(
                    self@.backends,
                    (#[trigger] self@.sessions[ii]).backend_url,
                ) by {
                    assert(self@.sessions.contains(self@.sessions[ii]));
                    assert(m0.sessions.contains(self@.sessions[ii]));
                    let k = choose|k: int|
                        0 <= k < m0.sessions.len() && m0.sessions[k] == self@.sessions[ii];
                    assert(has_url(m0.backends, m0.sessions[k].backend_url));
                }
                assert(lb_wf(self@));
            }
        }
    }

    /// Index of this client's session entry, if any. Clients are unique
    /// across a well-formed table, so the index found is the index.
    fn find_session_index(&self, client: &str) -> (r: Option<usize>)
        requires
            self.wf(),
        ensures
            match r {
                Some(i) => {
                    &&& 0 <= i < self@.sessions.len()
                    &&& self@.sessions[i as int].client == client@
                    &&& has_session(self@.sessions, client@)
                    &&& session_index(self@.sessions, client@) == i
                },
                None => !has_session(self@.sessions, client@),
            },
    {
        let n = self.sessions.len();
        let mut i: usize = 0;
        while i < n
            invariant
                0 <= i <= n,
                n == self@.sessions.len(),
                n == self.sessions@.len(),
                self.wf(),
                forall|j: int| 0 <= j < i ==> (#[trigger] self@.sessions[j]).client != client@,
            decreases n - i,
        {
            if str_eq_str(self.sessions[i].client.as_str(), client) {
                proof {
                    assert(self@.sessions[i as int].client == client@);
                    let k = session_index(self@.sessions, client@);
                    assert(0 <= k < self@.sessions.len() && self@.sessions[k].client == client@);
                    if k != i {
                        assert(self@.sessions[k].client != self@.sessions[i as int].client);
                    }
                }
                return Some(i);
            }
            i += 1;
        }
        None
    }

    /// One sticky selection for this client; the session table belongs to
    /// the sticky policy alone, so this is only for a balancer whose policy
    /// is sticky ([`LoadBalancer::get_next_backend`] dispatches here under
    /// exactly that condition). Expired sessions are swept first. A client
    /// whose entry still points at an existing Healthy backend keeps that
    /// backend, and the entry's clock is refreshed to `now`. Otherwise any
    /// stale entry is dropped, the weighted pass picks a fresh backend, and
    /// the client is pinned to whatever it returned.
    pub fn get_backend_for_client(&mut self, client_ip: &str, now: u64) -> (r: Option<String>)
        requires
            old(self).wf(),
            old(self)@.strategy == Strategy::StickySession,
        ensures
            final(self).wf(),
            final(self)@ == sticky_step(old(self)@, client_ip@, now).0,
            opt_str_view(r) == sticky_step(old(self)@, client_ip@, now).1,
    {
        let ghost m0 = self@;
        self.cleanup_expired_sessions(now);
        let ghost m1 = self@;
        proof {
            assert(m1 == cleanup_step(m0, now));
        }
        let found = self.find_session_index(client_ip);
        match found {
            Some(k) => {
                let ghost e = m1.sessions[k as int];
                let bi = self.find_backend_index(self.sessions[k].info.backend_url.as_str());
                let mut hit = false;
                match bi {
                    Some(b) => {
                        match self.backends[b].health_status {
                            HealthStatus::Healthy => {
                                hit = true;
                            },
                            _ => {},
                        }
                        proof {
                            assert(hit == is_healthy(m1.backends[b as int]));
                        }
                    },
                    None => {},
                }
                if hit {
                    self.sessions[k].info.last_seen = now;
                    let out = self.sessions[k].info.backend_url.clone();
                    proof {
                        let m2 = LbModel {
                            sessions: m1.sessions.update(
                                k as int,
                                SessionModel { last_seen: now, ..e },
                            ),
                            ..m1
                        };
                        assert(self@.sessions =~= m2.sessions);
                        assert(self@ =~= m2);
                        assert(out@ == e.backend_url);
                        assert(clients_distinct(self@.sessions)) by {
                            assert forall|x: int, y: int|
                                0 <= x < y < self@.sessions.len() implies self@.sessions[x].client
                                != self@.sessions[y].client by {
                                assert(m1.sessions[x].client != m1.sessions[y].client);
                            }
                        }
                        assert(sessions_reference_pool(self@.sessions, self@.backends)) by {
                            assert forall|x: int| 0 <= x < self@.sessions.len() implies has_url(
                                self@.backends,
                                (#[trigger] self@.sessions[x]).backend_url,
                            ) by {
                                assert(has_url(m1.backends, m1.sessions[x].backend_url));
                            }
                        }
                        assert(lb_wf(self@));
                    }
                    return Some(out);
                }
                let _stale = self.sessions.remove(k);
                proof {
                    let removed = m1.sessions.remove(k as int);
                    m1.sessions.remove_ensures(k as int);
                    assert(self@.sessions =~= removed);
                    assert(self@ =~= (LbModel { sessions: removed, ..m1 }));
                    assert(clients_distinct(removed)) by {
                        assert forall|x: int, y: int|
                            0 <= x < y < removed.len() implies removed[x].client
                            != removed[y].client by {
                            let ox = if x < k as int {
                                x
                            } else {
                                x + 1
                            };
                            let oy = if y < k as int {
                                y
                            } else {
                                y + 1
                            };
                            assert(removed[x] == m1.sessions[ox]);
                            assert(removed[y] == m1.sessions[oy]);
                            assert(m1.sessions[ox].client != m1.sessions[oy].client);
                        }
                    }
                    assert(sessions_reference_pool(removed, m1.backends)) by {
                        assert forall|x: int| 0 <= x < removed.len() implies has_url(
                            m1.backends,
                            (#[trigger] removed[x]).backend_url,
                        ) by {
                            let ox = if x < k as int {
                                x
                            } else {
                                x + 1
                            };
                            assert(removed[x] == m1.sessions[ox]);
                            assert(has_url(m1.backends, m1.sessions[ox].backend_url));
                        }
                    }
                    assert(!has_session(removed, client_ip@)) by {
                        assert forall|x: int| 0 <= x < removed.len() implies (
                        #[trigger] removed[x]).client != client_ip@ by {
                            let ox = if x < k as int {
                                x
                            } else {
                                x + 1
                            };
                            assert(removed[x] == m1.sessions[ox]);
                            assert(m1.sessions[ox].client != m1.sessions[k as int].client);
                        }
                    }
                    assert(lb_wf(self@));
                }
            },
            None => {},
        }
        let ghost m2 = self@;
        proof {
            assert(!has_session(m2.sessions, client_ip@));
            lemma_strategy_pick_props(m2);
        }
        let picked = self.get_next_backend_weighted();
        proof {
            assert(m2.strategy == Strategy::StickySession);
            assert(self@ == strategy_pick(m2).0);
            assert(opt_str_view(picked) == strategy_pick(m2).1);
        }
        match &picked {
            Some(u) => {
                let ghost m3 = self@;
                let entry = SessionEntry {
                    client: client_ip.to_owned(),
                    info: SessionInfo { backend_url: u.clone(), last_seen: now },
                };
                self.sessions.push(entry);
                proof {
                    let sm = SessionModel {
                        client: client_ip@,
                        backend_url: u@,
                        last_seen: now,
                    };
                    assert(self@.sessions =~= m3.sessions.push(sm));
                    assert(self@ =~= (LbModel { sessions: m3.sessions.push(sm), ..m3 }));
                    assert(self@ == sticky_step(m0, client_ip@, now).0);
                    assert(clients_distinct(self@.sessions)) by {
                        assert forall|x: int, y: int|
                            0 <= x < y < self@.sessions.len() implies self@.sessions[x].client
                            != self@.sessions[y].client by {
                            if y < self@.sessions.len() - 1 {
                                assert(m3.sessions[x].client != m3.sessions[y].client);
                            } else {
                                assert(m3.sessions[x].client != client_ip@);
                            }
                        }
                    }
                    assert(sessions_reference_pool(self@.sessions, self@.backends)) by {
                        assert forall|x: int| 0 <= x < self@.sessions.len() implies has_url(
                            self@.backends,
                            (#[trigger] self@.sessions[x]).backend_url,
                        ) by {
                            if x < self@.sessions.len() - 1 {
                                assert(has_url(m3.backends, m3.sessions[x].backend_url));
                            } else {
                                let w = choose|i: int|
                                    0 <= i < m2.backends.len() && (#[trigger] m2.backends[i]).url
                                        == u@ && is_healthy(m2.backends[i]);
                                assert(m3.backends[w].url == u@);
                            }
                        }
                    }
                    assert(lb_wf(self@));
                }
            },
            None => {},
        }
        picked
    }

    /// One selection under the policy in force: plain round-robin, the
    /// weighted pass, or — under the sticky policy with a client identity —
    /// the sticky procedure. Sticky without a client identity falls back to
    /// the weighted pass, touching no session state.
    pub fn get_next_backend(&mut self, client_ip: Option<&str>, now: u64) -> (r: Option<String>)
        requires
            old(self).wf(),
        ensures
            final(self).wf(),
            final(self)@ == select_step(old(self)@, opt_client_view(client_ip), now).0,
            opt_str_view(r) == select_step(old(self)@, opt_client_view(client_ip), now).1,
    {
        match self.strategy {
            Strategy::RoundRobin => self.get_next_backend_round_robin(),
            Strategy::WeightedRoundRobin => self.get_next_backend_weighted(),
            Strategy::StickySession => match client_ip {
                Some(c) => self.get_backend_for_client(c, now),
                None => self.get_next_backend_weighted(),
            },
        }
    }

    /// A snapshot of every backend URL, in pool order; what the probe loop
    /// walks while holding no lock on this state.
    pub fn get_all_backends(&self) -> (r: Vec<String>)
        ensures
            r@.len() == self@.backends.len(),
            forall|i: int| 0 <= i < r@.len() ==> (#[trigger] r@[i])@ == self@.backends[i].url,
    {
        let n = self.backends.len();
        let mut r: Vec<String> = Vec::new();
        let mut i: usize = 0;
        while i < n
            invariant
                0 <= i <= n,
                n == self.backends@.len(),
                n == self@.backends.len(),
                r@.len() == i,
                forall|j: int| 0 <= j < i ==> (#[trigger] r@[j])@ == self@.backends[j].url,
            decreases n - i,
        {
            r.push(self.backends[i].url.clone());
            i += 1;
        }
        r
    }

    /// Index of the backend with this URL, if any. URLs are unique across a
    /// well-formed pool, so the index found is the index.
    fn find_backend_index(&self, url: &str) -> (r: Option<usize>)
        requires
            self.wf(),
        ensures
            match r {
                Some(i) => {
                    &&& 0 <= i < self@.backends.len()
                    &&& self@.backends[i as int].url == url@
                    &&& has_url(self@.backends, url@)
                    &&& index_of_url(self@.backends, url@) == i
                },
                None => !has_url(self@.backends, url@),
            },
    {
        let n = self.backends.len();
        let mut i: usize = 0;
        while i < n
            invariant
                0 <= i <= n,
                n == self@.backends.len(),
                self.wf(),
                forall|j: int| 0 <= j < i ==> (#[trigger] self@.backends[j]).url != url@,
            decreases n - i,
        {
            if str_eq_str(self.backends[i].url.as_str(), url) {
                proof {
                    assert(self@.backends[i as int].url == url@);
                    let k = index_of_url(self@.backends, url@);
                    assert(0 <= k < self@.backends.len() && self@.backends[k].url == url@);
                    if k != i {
                        assert(self@.backends[k].url != self@.backends[i as int].url);
                    }
                }
                return Some(i);
            }
            i += 1;
        }
        None
    }

    /// Record a failure against this backend: `Healthy` becomes
    /// `Unhealthy(1)`, `Unhealthy(n)` becomes `Unhealthy(n + 1)`. A URL not
    /// in the pool is a no-op.
    pub fn mark_unhealthy(&mut self, url: &str)
        requires
            old(self).wf(),
        ensures
            final(self).wf(),
            final(self)@ == mark_unhealthy_spec(old(self)@, url@),
    {
        let found = self.find_backend_index(url);
        match found {
            None => {},
            Some(i) => {
                let nh = match self.backends[i].health_status {
                    HealthStatus::Healthy => HealthStatus::Unhealthy(1),
                    HealthStatus::Unhealthy(n) => HealthStatus::Unhealthy(
                        if n == u32::MAX {
                            n
                        } else {
                            n + 1
                        },
                    ),
                };
                self.backends[i].health_status = nh;
                proof {
                    let m0 = old(self)@;
                    let ii = i as int;
                    assert(self@.backends =~= m0.backends.update(
                        ii,
                        BackendModel { health: bump_unhealthy(m0.backends[ii].health), ..m0.backends[ii] },
                    ));
                    assert(self@ =~= mark_unhealthy_spec(m0, url@));
                    lemma_same_urls_wf(m0, self@);
                }
            },
        }
    }

    /// Record a success against this backend: it is Healthy afterwards; its
    /// accumulator is not reset. A URL not in the pool is a no-op.
    pub fn mark_healthy(&mut self, url: &str)
        requires
            old(self).wf(),
        ensures
            final(self).wf(),
            final(self)@ == mark_healthy_spec(old(self)@, url@),
    {
        let found = self.find_backend_index(url);
        match found {
            None => {},
            Some(i) => {
                self.backends[i].health_status = HealthStatus::Healthy;
                proof {
                    let m0 = old(self)@;
                    let ii = i as int;
                    assert(self@.backends =~= m0.backends.update(
                        ii,
                        BackendModel { health: HealthStatus::Healthy, ..m0.backends[ii] },
                    ));
                    assert(self@ =~= mark_healthy_spec(m0, url@));
                    lemma_same_urls_wf(m0, self@);
                }
            },
        }
    }

    /// Set the static weight of this backend; meaningful to the weighted and
    /// sticky policies on their next pass. A URL not in the pool is a no-op.
    pub fn set_weight(&mut self, backend_url: &str, weight: u32)
        requires
            old(self).wf(),
        ensures
            final(self).wf(),
            final(self)@ == set_weight_spec(old(self)@, backend_url@, weight),
    {
        let found = self.find_backend_index(backend_url);
        match found {
            None => {},
            Some(i) => {
                self.backends[i].weight = weight;
                proof {
                    let m0 = old(self)@;
                    let ii = i as int;
                    assert(self@.backends =~= m0.backends.update(
                        ii,
                        BackendModel { weight, ..m0.backends[ii] },
                    ));
                    assert(self@ =~= set_weight_spec(m0, backend_url@, weight));
                    lemma_same_urls_wf(m0, self@);
                }
            },
        }
    }
}

/// An equal copy of a session entry.
fn clone_session_entry(e: &SessionEntry) -> (r: SessionEntry)
    ensures
        r@ == e@,
{
    SessionEntry {
        client: e.client.clone(),
        info: SessionInfo { backend_url: e.info.backend_url.clone(), last_seen: e.info.last_seen },
    }
}

/// Filtering a session table yields a subset of its entries; in particular
/// clients stay distinct.
pub proof fn lemma_filter_sessions_wf(s: Seq<SessionModel>, pred: spec_fn(SessionModel) -> bool)
    ensures
        forall|x: SessionModel| #[trigger] s.filter(pred).contains(x) ==> s.contains(x),
        clients_distinct(s) ==> clients_distinct(s.filter(pred)),
    decreases s.len(),
{
    reveal(Seq::filter);
    if s.len() > 0 {
        let sub = s.drop_last().filter(pred);
        lemma_filter_sessions_wf(s.drop_last(), pred);
        assert forall|x: SessionModel| #[trigger] s.filter(pred).contains(x) implies s.contains(
            x,
        ) by {
            if pred(s.last()) {
                let i = choose|i: int|
                    0 <= i < s.filter(pred).len() && s.filter(pred)[i] == x;
                if i < sub.len() {
                    assert(sub.contains(x));
                    let j = choose|j: int| 0 <= j < s.drop_last().len() && s.drop_last()[j] == x;
                    assert(s[j] == x);
                } else {
                    assert(s[s.len() - 1] == x);
                }
            } else {
                assert(sub.contains(x));
                let j = choose|j: int| 0 <= j < s.drop_last().len() && s.drop_last()[j] == x;
                assert(s[j] == x);
            }
        }
        if clients_distinct(s) {
            assert forall|i: int, j: int|
                0 <= i < s.drop_last().len() && 0 <= j < s.drop_last().len() && i < j implies s.drop_last()[i].client
                != s.drop_last()[j].client by {
                assert(s[i].client != s[j].client);
            }
            if pred(s.last()) {
                let out = sub.push(s.last());
                assert forall|i: int, j: int| 0 <= i < j < out.len() implies out[i].client
                    != out[j].client by {
                    if j < sub.len() {
                        assert(sub[i].client != sub[j].client);
                    } else {
                        assert(sub.contains(sub[i]));
                        assert(s.drop_last().contains(sub[i]));
                        let k = choose|k: int|
                            0 <= k < s.drop_last().len() && s.drop_last()[k] == sub[i];
                        assert(s[k] == sub[i]);
                        assert(s[k].client != s[s.len() - 1].client);
                    }
                }
            }
        }
    }
}

/// The weighted pass changes nothing but accumulators: the sessions, the
/// cursor, the policy, and every backend's URL, health and weight are
/// untouched, and well-formedness is preserved.
pub proof fn lemma_weighted_step_props(m: LbModel)
    requires
        lb_wf(m),
    ensures
        ({
            let p = weighted_step(m);
            &&& p.0.sessions == m.sessions
            &&& p.0.strategy == m.strategy
            &&& p.0.current_idx == m.current_idx
            &&& p.0.session_timeout == m.session_timeout
            &&& p.0.max_failures == m.max_failures
            &&& p.0.backends.len() == m.backends.len()
            &&& forall|i: int|
                0 <= i < m.backends.len() ==> ((#[trigger] p.0.backends[i]).url
                    == m.backends[i].url && p.0.backends[i].health == m.backends[i].health
                    && p.0.backends[i].weight == m.backends[i].weight)
            &&& lb_wf(p.0)
        }),
{
    lemma_best_upto_props(m.backends, m.backends.len() as int);
    let p = weighted_step(m);
    assert forall|i: int| 0 <= i < m.backends.len() implies ((#[trigger] p.0.backends[i]).url
        == m.backends[i].url && p.0.backends[i].health == m.backends[i].health
        && p.0.backends[i].weight == m.backends[i].weight) by {}
    lemma_same_urls_wf(m, p.0);
}

/// A state whose pool keeps the same URLs (and coherent failure counts), the
/// same sessions, and a cursor in range is well-formed whenever the old one
/// was: distinctness and the session references depend on the URLs alone.
pub proof fn lemma_same_urls_wf(a: LbModel, b: LbModel)
    requires
        lb_wf(a),
        b.backends.len() == a.backends.len(),
        forall|i: int|
            0 <= i < a.backends.len() ==> (#[trigger] b.backends[i]).url == a.backends[i].url,
        forall|i: int| 0 <= i < b.backends.len() ==> wf_backend(#[trigger] b.backends[i]),
        b.sessions == a.sessions,
        if b.backends.len() == 0 {
            b.current_idx == 0
        } else {
            0 <= b.current_idx < b.backends.len()
        },
    ensures
        lb_wf(b),
{
    assert forall|i: int, j: int| 0 <= i < j < b.backends.len() implies b.backends[i].url
        != b.backends[j].url by {
        assert(a.backends[i].url != a.backends[j].url);
    }
    assert forall|i: int| 0 <= i < b.sessions.len() implies has_url(
        b.backends,
        (#[trigger] b.sessions[i]).backend_url,
    ) by {
        assert(has_url(a.backends, a.sessions[i].backend_url));
        let k = choose|k: int|
            0 <= k < a.backends.len() && (#[trigger] a.backends[k]).url
                == a.sessions[i].backend_url;
        assert(b.backends[k].url == b.sessions[i].backend_url);
    }
}

} // verus!
