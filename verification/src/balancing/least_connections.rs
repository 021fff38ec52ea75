//! Least connections: the backend with the fewest active connections is taken.

use vstd::prelude::*;

use crate::balancing::{BalanceError, BalancingStrategy};
use crate::config::{BackendCandidate, BackendConfig};

verus! {

/// Picks the candidate with the fewest active connections; of several with
/// that count, the first.
#[derive(Debug, Default)]
pub struct LeastConnections;

/// Whether position `i` holds the first candidate with the fewest active connections.
pub open spec fn is_least_loaded(candidates: Seq<BackendCandidate>, i: int) -> bool {
    &&& 0 <= i < candidates.len()
    &&& forall|j: int|
        0 <= j < candidates.len() ==> candidates[i].active_connections <= (#[trigger] candidates[j]).active_connections
    &&& forall|j: int|
        0 <= j < i ==> (#[trigger] candidates[j]).active_connections > candidates[i].active_connections
}

/// The position of the first candidate with the fewest active connections.
pub open spec fn least_loaded_index(candidates: Seq<BackendCandidate>) -> int {
    choose|i: int| is_least_loaded(candidates, i)
}

impl LeastConnections {
    /// Without candidates it fails; else it picks the first candidate with
    /// the fewest active connections.
    pub open spec fn pick(&self, candidates: Seq<BackendCandidate>) -> Result<BackendConfig, BalanceError> {
        if candidates.len() == 0 {
            Err(BalanceError::NoBackendsAvailable)
        } else {
            Ok(candidates[least_loaded_index(candidates)].backend)
        }
    }

    /// The strategy has no state.
    pub open spec fn advances_to(&self, candidates: Seq<BackendCandidate>, next: Self) -> bool {
        next == *self
    }

    /// The least-connections strategy.
    pub fn new() -> (r: Self)
        ensures
            r == LeastConnections,
    {
        LeastConnections
    }
}

impl BalancingStrategy for LeastConnections {
    /// Picks the backend of the first candidate with the fewest active connections.
    fn select_backend(&mut self, candidates: &[BackendCandidate]) -> (r: Result<
        BackendConfig,
        BalanceError,
    >)
        ensures
            r == old(self).pick(candidates@),
            old(self).advances_to(candidates@, *final(self)),
            r matches Ok(b) ==> exists|i: int|
                is_least_loaded(candidates@, i) && b == (#[trigger] candidates@[i]).backend,
    {
        if candidates.len() == 0 {
            return Err(BalanceError::NoBackendsAvailable);
        }
        let mut best: usize = 0;
        let mut i: usize = 1;
        while i < candidates.len()
            invariant
                0 < candidates@.len(),
                0 <= best < i <= candidates@.len(),
                forall|j: int|
                    0 <= j < i ==> candidates@[best as int].active_connections <= (#[trigger] candidates@[j]).active_connections,
                forall|j: int|
                    0 <= j < best ==> (#[trigger] candidates@[j]).active_connections > candidates@[best as int].active_connections,
            decreases candidates@.len() - i,
        {
            if candidates[i].active_connections < candidates[best].active_connections {
                best = i;
            }
            i = i + 1;
        }
        assert(is_least_loaded(candidates@, best as int));
        proof {
            lemma_least_loaded_unique(candidates@, least_loaded_index(candidates@), best as int);
        }
        Ok(candidates[best].backend.clone())
    }
}

/// The first least-loaded position is unique.
pub proof fn lemma_least_loaded_unique(candidates: Seq<BackendCandidate>, i: int, k: int)
    requires
        is_least_loaded(candidates, i),
        is_least_loaded(candidates, k),
    ensures
        i == k,
{
    if i < k {
        assert(candidates[i].active_connections > candidates[k].active_connections);
    } else if k < i {
        assert(candidates[k].active_connections > candidates[i].active_connections);
    }
}

/// Every non-empty list of candidates has a first candidate with the fewest
/// active connections.
pub proof fn lemma_least_loaded_exists(candidates: Seq<BackendCandidate>)
    requires
        candidates.len() > 0,
    ensures
        exists|i: int| is_least_loaded(candidates, i),
    decreases candidates.len(),
{
    if candidates.len() == 1 {
        assert(is_least_loaded(candidates, 0));
    } else {
        let rest = candidates.drop_last();
        lemma_least_loaded_exists(rest);
        let k = choose|k: int| is_least_loaded(rest, k);
        let last = candidates.len() - 1;
        assert(forall|j: int| 0 <= j < rest.len() ==> rest[j] == candidates[j]);
        if candidates[last].active_connections < candidates[k].active_connections {
            assert(is_least_loaded(candidates, last));
        } else {
            assert(is_least_loaded(candidates, k));
        }
    }
}

/// A least-connections selection among non-empty candidates takes the
/// backend of the first candidate whose active connections are no more than
/// any other's; among no candidates it fails. The strategy does not change.
pub proof fn lemma_least_connections_selection(
    lc: LeastConnections,
    candidates: Seq<BackendCandidate>,
    next: LeastConnections,
)
    ensures
        candidates.len() > 0 ==> exists|i: int|
            #![trigger candidates[i]]
            0 <= i < candidates.len() && (forall|j: int|
                0 <= j < candidates.len() ==> candidates[i].active_connections
                    <= #[trigger] candidates[j].active_connections) && (forall|j: int|
                0 <= j < i ==> #[trigger] candidates[j].active_connections
                    > candidates[i].active_connections) && lc.pick(candidates) == Ok::<
                BackendConfig,
                BalanceError,
            >(candidates[i].backend),
        candidates.len() == 0 ==> lc.pick(candidates) == Err::<BackendConfig, BalanceError>(
            BalanceError::NoBackendsAvailable,
        ),
        lc.advances_to(candidates, next) ==> next == lc,
{
    if candidates.len() > 0 {
        lemma_least_loaded_exists(candidates);
        let i = least_loaded_index(candidates);
        assert(is_least_loaded(candidates, i));
        assert(candidates[i] == candidates[i]);
    }
}

} // verus!
