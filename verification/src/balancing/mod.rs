//! Balancing strategies: how a backend is picked among the candidates.

pub mod least_connections;
pub mod round_robin;

pub use least_connections::LeastConnections;
pub use round_robin::RoundRobin;

use vstd::prelude::*;

use crate::config::{BackendCandidate, BackendConfig};

verus! {

/// Why no backend could be picked.
#[derive(Debug, Clone, Copy, PartialEq, Eq, Structural)]
pub enum BalanceError {
    NoBackendsAvailable,
}

/// Whether `b` is the backend of one of the candidates.
pub open spec fn is_candidate_backend(candidates: Seq<BackendCandidate>, b: BackendConfig) -> bool {
    exists|i: int| 0 <= i < candidates.len() && b == (#[trigger] candidates[i]).backend
}

/// A way of picking the backend for a new connection.
pub trait BalancingStrategy: Send {
    /// Picks one of the candidates' backends; fails exactly when there is no
    /// candidate.
    fn select_backend(&mut self, candidates: &[BackendCandidate]) -> (r: Result<
        BackendConfig,
        BalanceError,
    >)
        ensures
            r is Err <==> candidates@.len() == 0,
            r matches Err(e) ==> e == BalanceError::NoBackendsAvailable,
            r matches Ok(b) ==> is_candidate_backend(candidates@, b),
    ;
}

/// The strategy a service was configured with.
#[derive(Debug)]
pub enum ConfiguredStrategy {
    RoundRobin(RoundRobin),
    LeastConnections(LeastConnections),
}

impl ConfiguredStrategy {
    /// What a selection among `candidates` returns: the pick of the
    /// configured strategy.
    pub open spec fn pick(&self, candidates: Seq<BackendCandidate>) -> Result<BackendConfig, BalanceError> {
        match *self {
            ConfiguredStrategy::RoundRobin(rr) => rr.pick(candidates),
            ConfiguredStrategy::LeastConnections(lc) => lc.pick(candidates),
        }
    }

    /// Whether `next` is the strategy after a selection among `candidates`:
    /// it keeps its kind and advances as that kind does.
    pub open spec fn advances_to(&self, candidates: Seq<BackendCandidate>, next: Self) -> bool {
        match (*self, next) {
            (ConfiguredStrategy::RoundRobin(rr), ConfiguredStrategy::RoundRobin(rr_next)) => rr.advances_to(
                candidates,
                rr_next,
            ),
            (ConfiguredStrategy::LeastConnections(lc), ConfiguredStrategy::LeastConnections(lc_next)) => lc.advances_to(
                candidates,
                lc_next,
            ),
            _ => false,
        }
    }
}

impl ConfiguredStrategy {
    /// What a selection among `candidates` would return, without making it.
    pub(crate) fn peek(&self, candidates: &[BackendCandidate]) -> (r: Result<BackendConfig, BalanceError>)
        ensures
            r == self.pick(candidates@),
    {
        match self {
            ConfiguredStrategy::RoundRobin(rr) => rr.peek(candidates),
            ConfiguredStrategy::LeastConnections(lc) => {
                let mut probe = LeastConnections::new();
                probe.select_backend(candidates)
            },
        }
    }
}

impl BalancingStrategy for ConfiguredStrategy {
    /// Picks a backend the way the configured strategy does.
    fn select_backend(&mut self, candidates: &[BackendCandidate]) -> (r: Result<
        BackendConfig,
        BalanceError,
    >)
        ensures
            r == old(self).pick(candidates@),
            old(self).advances_to(candidates@, *final(self)),
    {
        match self {
            ConfiguredStrategy::RoundRobin(rr) => rr.select_backend(candidates),
            ConfiguredStrategy::LeastConnections(lc) => lc.select_backend(candidates),
        }
    }
}

/// The configured round-robin selects as a round-robin does, for any number
/// of candidates: among non-empty candidates it takes the candidate at the
/// cursor modulo their number and stays a round-robin whose cursor moved on by
/// one (to zero after the largest `usize`); among none it fails and keeps its
/// cursor.
pub proof fn lemma_configured_round_robin(rr: RoundRobin, candidates: Seq<BackendCandidate>, next: ConfiguredStrategy)
    ensures
        candidates.len() > 0 ==> ConfiguredStrategy::RoundRobin(rr).pick(candidates) == Ok::<
            BackendConfig,
            BalanceError,
        >(candidates[(rr.cursor() as int) % (candidates.len() as int)].backend),
        candidates.len() == 0 ==> ConfiguredStrategy::RoundRobin(rr).pick(candidates) == Err::<
            BackendConfig,
            BalanceError,
        >(BalanceError::NoBackendsAvailable),
        ConfiguredStrategy::RoundRobin(rr).advances_to(candidates, next) ==> (next matches ConfiguredStrategy::RoundRobin(
            after,
        ) && after.cursor() == (if candidates.len() == 0 {
            rr.cursor() as int
        } else if rr.cursor() == usize::MAX {
            0
        } else {
            rr.cursor() + 1
        })),
{
    if let ConfiguredStrategy::RoundRobin(after) = next {
        round_robin::lemma_round_robin_selection(rr, candidates, after);
    }
    round_robin::lemma_round_robin_selection(rr, candidates, rr);
}

/// The configured least-connections selects as least-connections does, for
/// any number of candidates: among non-empty candidates it takes the backend
/// of the first candidate whose active connections are no more than any
/// other's; among none it fails; it stays as it is.
pub proof fn lemma_configured_least_connections(
    lc: LeastConnections,
    candidates: Seq<BackendCandidate>,
    next: ConfiguredStrategy,
)
    ensures
        candidates.len() > 0 ==> exists|i: int|
            #![trigger candidates[i]]
            0 <= i < candidates.len() && (forall|j: int|
                0 <= j < candidates.len() ==> candidates[i].active_connections
                    <= #[trigger] candidates[j].active_connections) && (forall|j: int|
                0 <= j < i ==> #[trigger] candidates[j].active_connections
                    > candidates[i].active_connections) && ConfiguredStrategy::LeastConnections(lc).pick(
                candidates,
            ) == Ok::<BackendConfig, BalanceError>(candidates[i].backend),
        candidates.len() == 0 ==> ConfiguredStrategy::LeastConnections(lc).pick(candidates) == Err::<
            BackendConfig,
            BalanceError,
        >(BalanceError::NoBackendsAvailable),
        ConfiguredStrategy::LeastConnections(lc).advances_to(candidates, next) ==> next
            == ConfiguredStrategy::LeastConnections(lc),
{
    least_connections::lemma_least_connections_selection(lc, candidates, lc);
}

} // verus!
