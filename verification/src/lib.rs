//! Proximity-aware signaling relay: the in-memory world state, the
//! hysteresis proximity engine, the notification planner, the relay
//! router and the liveness sweeper, all verified.
//!
//! Clients roam a tiled world split into maps, channels and cohorts;
//! the server keeps each one's position, tells it which peers are
//! nearby under a predicate with hysteresis, and relays opaque
//! signaling payloads between peers. `world` holds the coherent store,
//! `proximity` the nearby predicate, `planner` the update transition,
//! `session` the per-connection dispatch, `cleanup` and `sweeper` the
//! teardown and liveness passes, `codec` the outbound wire text, and
//! `laws` the quantified properties proved of all of it.

use vstd::prelude::*;

pub mod cleanup;
pub mod codec;
pub mod kv;
pub mod laws;
pub mod messages;
pub mod outside;
pub mod planner;
pub mod position;
pub mod proximity;
pub mod session;
pub mod sweeper;
pub mod world;

verus! {

/// Squared introduction radius: a peer outside a client's cached
/// nearby set becomes nearby once the squared distance is at most this.
pub const INTRODUCTION_RADIUS_SQUARED: i128 = 400;

/// Squared disconnection radius: a peer inside a client's cached
/// nearby set stays nearby until the squared distance exceeds this.
pub const DISCONNECTION_RADIUS_SQUARED: i128 = 625;

/// A client whose latest position update is older than this many
/// milliseconds is evicted by the sweeper.
pub const TIMEOUT_MS: u64 = 15000;

/// How often, in milliseconds, the sweeper runs its timeout and
/// reintroduction passes.
pub const SWEEP_INTERVAL_MS: u64 = 5000;

/// Capacity of each connection's bounded outbound queue.
pub const OUTBOUND_QUEUE_CAPACITY: usize = 100;

} // verus!
