//! The data the pool is made of: a backend with its weight, health state and
//! smoothed-round-robin accumulator, the session entry of a sticky client,
//! and the policy tag. Each executable type has a mathematical model used by
//! the contracts: URLs and client identities become sequences of characters,
//! a backend becomes a [`BackendModel`], a session entry a [`SessionModel`].

use vstd::prelude::*;

verus! {

/// Health of one backend: `Healthy`, or `Unhealthy(n)` after `n` consecutive
/// failures. Within `Unhealthy` the count is always at least 1; that is part
/// of the pool's well-formedness ([`crate::balancer::lb_wf`]).
#[derive(Clone, Copy, Debug, PartialEq, Eq, Structural)]
pub enum HealthStatus {
    Healthy,
    Unhealthy(u32),
}

/// The selection policy in force. Selection reads it on entry; the admin
/// surface replaces it atomically.
#[derive(Clone, Copy, Debug, PartialEq, Eq, Structural)]
pub enum Strategy {
    RoundRobin,
    WeightedRoundRobin,
    StickySession,
}

/// One upstream backend. `url` is its identity (unique across the pool),
/// `weight` matters only to the weighted and sticky policies (weight 0 means
/// "never chosen by weighted"), and `current_weight` is the smooth weighted
/// round-robin accumulator, mutated only by weighted selection.
pub struct Backend {
    pub url: String,
    pub health_status: HealthStatus,
    pub weight: u32,
    pub current_weight: i64,
}

/// Mathematical model of a [`Backend`]: the URL as a sequence of characters,
/// the other fields as themselves.
#[verifier::ext_equal]
pub struct BackendModel {
    pub url: Seq<char>,
    pub health: HealthStatus,
    pub weight: u32,
    pub current_weight: i64,
}

impl View for Backend {
    type V = BackendModel;

    open spec fn view(&self) -> BackendModel {
        BackendModel {
            url: self.url@,
            health: self.health_status,
            weight: self.weight,
            current_weight: self.current_weight,
        }
    }
}

/// What the session table remembers for one sticky client: the backend it
/// was pinned to and the time (in seconds, on the caller's monotonic clock)
/// of the last selection that used the entry.
pub struct SessionInfo {
    pub backend_url: String,
    pub last_seen: u64,
}

/// A session-table row: the client identity and its [`SessionInfo`].
pub struct SessionEntry {
    pub client: String,
    pub info: SessionInfo,
}

/// Mathematical model of a [`SessionEntry`].
#[verifier::ext_equal]
pub struct SessionModel {
    pub client: Seq<char>,
    pub backend_url: Seq<char>,
    pub last_seen: u64,
}

impl View for SessionEntry {
    type V = SessionModel;

    open spec fn view(&self) -> SessionModel {
        SessionModel {
            client: self.client@,
            backend_url: self.info.backend_url@,
            last_seen: self.info.last_seen,
        }
    }
}

/// True of a backend the selector may hand out.
pub open spec fn is_healthy(b: BackendModel) -> bool {
    b.health is Healthy
}

} // verus!
