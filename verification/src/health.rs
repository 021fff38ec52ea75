//! Health checks: what a probe of a backend changes in the pool.

use vstd::prelude::*;

use crate::pool::{BackendPool, with_health};

verus! {

/// Records the outcome of probing a backend: every backend with that
/// identifier becomes healthy when the probe connected, else unhealthy.
pub fn record_probe(pool: &mut BackendPool, backend_id: String, healthy: bool)
    ensures
        final(pool).identity() == old(pool).identity(),
        final(pool)@ == with_health(old(pool)@, backend_id@, healthy),
{
    if healthy {
        pool.mark_healthy(backend_id);
    } else {
        pool.mark_unhealthy(backend_id);
    }
}

} // verus!
