//! Core of a reverse-proxy load balancer: a backend pool with per-backend
//! weight and health state, three selection policies (round-robin, smooth
//! weighted round-robin, sticky sessions), the health-transition rules fed by
//! probes and forwarding outcomes, and the classifier for the reserved admin
//! requests.
//!
//! Everything here is pure state-transition logic. The surrounding process
//! (HTTP listener, request forwarding, the probe loop's timer and socket work)
//! lives outside this crate and hands in plain values: the current monotonic
//! time in seconds, probe status codes, request paths and query strings.

pub mod arith;
pub mod pool;
pub mod text;
pub mod balancer;
pub mod dispatch;
pub mod laws;
