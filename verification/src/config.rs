//! Static configuration of the connectivity manager.

use vstd::prelude::*;

verus! {

/// Knobs of the connectivity manager, immutable after start. Intervals and
/// durations are in milliseconds.
#[derive(Clone, Copy, Debug, PartialEq, Eq, Structural)]
pub struct ConnectivityConfig {
    /// How many neighbour connections the manager aims to keep.
    pub desired_neighbouring_pool_size: usize,
    /// How old the neighbour pool may grow before a refresh.
    pub neighbouring_pool_refresh_interval_ms: u64,
    /// How many random connections the manager aims to keep.
    pub desired_random_pool_size: usize,
    /// How old the random pool may grow before a refresh.
    pub random_pool_refresh_interval_ms: u64,
    /// Minimum sample size when serving propagation selections from pools.
    pub propagation_random_sample_size: usize,
    /// How many failed attempts a peer may have before the cooldown applies.
    pub broadcast_cooldown_max_attempts: usize,
    /// How long a peer past the attempt limit must stay quiet to be
    /// selectable again.
    pub broadcast_cooldown_period_ms: u64,
    /// How long a peer banned through the manager stays banned.
    pub default_ban_duration_ms: u64,
}

impl Default for ConnectivityConfig {
    /// Eight neighbours refreshed every ten minutes, five random peers
    /// refreshed every two hours, a propagation sample floor of two.
    fn default() -> (r: ConnectivityConfig)
        ensures
            r.desired_neighbouring_pool_size == 8,
            r.neighbouring_pool_refresh_interval_ms == 600000,
            r.desired_random_pool_size == 5,
            r.random_pool_refresh_interval_ms == 7200000,
            r.propagation_random_sample_size == 2,
            r.broadcast_cooldown_max_attempts == 5,
            r.broadcast_cooldown_period_ms == 1800000,
            r.default_ban_duration_ms == 21600000,
    {
        ConnectivityConfig {
            desired_neighbouring_pool_size: 8,
            neighbouring_pool_refresh_interval_ms: 600000,
            desired_random_pool_size: 5,
            random_pool_refresh_interval_ms: 7200000,
            propagation_random_sample_size: 2,
            broadcast_cooldown_max_attempts: 5,
            broadcast_cooldown_period_ms: 1800000,
            default_ban_duration_ms: 21600000,
        }
    }
}

} // verus!
