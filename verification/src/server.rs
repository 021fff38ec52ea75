//! The server's decisions: which strategy a service runs, whether it can
//! start, and what happens to each accepted client connection.

use vstd::prelude::*;

use crate::balancing::{
    BalanceError,
    BalancingStrategy,
    ConfiguredStrategy,
    LeastConnections,
    RoundRobin,
    is_candidate_backend,
};
use crate::config::{BackendConfig, ServiceConfig, StrategyKind};
use crate::pool::{
    BackendGuard,
    BackendPool,
    acquire_succeeds,
    acquired,
    acquire_fits,
    healthy_candidates_of,
    is_healthy_backend,
    lemma_healthy_candidates_members,
};

verus! {

/// The load balancer's decisions.
pub struct LoadBalancer;

/// Why a service cannot be started.
#[derive(Debug, Clone, Copy, PartialEq, Eq, Structural)]
pub enum StartupError {
    /// The service has no backend to send connections to.
    NoBackends,
}

/// What becomes of an accepted client connection.
pub enum Admission {
    /// No healthy backend: the client is turned away.
    Rejected(BalanceError),
    /// The client is proxied to the backend, on the slot the guard holds.
    Admitted(BackendConfig, BackendGuard),
    /// The picked backend could not take the connection: the client is turned away.
    BackendUnavailable(BackendConfig),
}

/// The strategy's pick that an admission decision rests on.
pub open spec fn admission_pick(r: Admission) -> Result<BackendConfig, BalanceError> {
    match r {
        Admission::Rejected(e) => Err(e),
        Admission::Admitted(b, _) => Ok(b),
        Admission::BackendUnavailable(b) => Ok(b),
    }
}

impl LoadBalancer {
    /// The strategy of the given kind, in its initial state.
    pub fn strategy_for(strategy: StrategyKind) -> (r: ConfiguredStrategy)
        ensures
            (match strategy {
                StrategyKind::RoundRobin => r matches ConfiguredStrategy::RoundRobin(rr) && rr.cursor() == 0,
                StrategyKind::LeastConnections => r is LeastConnections,
            }),
    {
        match strategy {
            StrategyKind::RoundRobin => ConfiguredStrategy::RoundRobin(RoundRobin::new()),
            StrategyKind::LeastConnections => ConfiguredStrategy::LeastConnections(
                LeastConnections::new(),
            ),
        }
    }

    /// A service can start only with at least one backend.
    pub fn check_backends(service: &ServiceConfig) -> (r: Result<(), StartupError>)
        ensures
            r is Err <==> service.backend_list@.len() == 0,
            r matches Err(e) ==> e == StartupError::NoBackends,
    {
        if service.backend_list.len() == 0 {
            Err(StartupError::NoBackends)
        } else {
            Ok(())
        }
    }

    /// Lets the strategy pick among the pool's healthy backends: the result
    /// is the strategy's pick among them, and the strategy advances as that
    /// selection does.
    pub fn select_backend_for_client(
        pool: &BackendPool,
        strategy: &mut ConfiguredStrategy,
    ) -> (r: Result<BackendConfig, BalanceError>)
        ensures
            r is Err <==> healthy_candidates_of(pool@).len() == 0,
            r matches Err(e) ==> e == BalanceError::NoBackendsAvailable,
            r matches Ok(b) ==> is_candidate_backend(healthy_candidates_of(pool@), b),
            r matches Ok(b) ==> is_healthy_backend(pool@, b),
            r == old(strategy).pick(healthy_candidates_of(pool@)),
            old(strategy).advances_to(healthy_candidates_of(pool@), *final(strategy)),
    {
        let candidates = pool.healthy_candidates();
        let r = strategy.select_backend(candidates.as_slice());
        proof {
            lemma_healthy_candidates_members(pool@);
            if r is Ok {
                let b = r->Ok_0;
                let i = choose|i: int|
                    0 <= i < candidates@.len() && b == (#[trigger] candidates@[i]).backend;
                let j = choose|j: int|
                    0 <= j < pool@.len() && pool@[j].healthy && #[trigger] healthy_candidates_of(pool@)[i]
                        == crate::pool::candidate_of(pool@[j]);
                assert(pool@[j].config == b);
            }
        }
        r
    }

    /// Whether admitting a client now stays within the connection counter of
    /// the backend the strategy would pick: what `admit_connection` requires.
    pub fn admission_fits(pool: &BackendPool, strategy: &ConfiguredStrategy) -> (r: bool)
        ensures
            r == (strategy.pick(healthy_candidates_of(pool@)) matches Ok(b) ==> acquire_fits(
                pool@,
                b.backend_id@,
            )),
    {
        let candidates = pool.healthy_candidates();
        match strategy.peek(candidates.as_slice()) {
            Ok(backend) => pool.acquire_fits(backend.backend_id.as_str()),
            Err(_) => true,
        }
    }

    /// Decides what becomes of a newly accepted client: the strategy picks
    /// among the healthy backends, as its selection says, and a connection
    /// slot of the picked backend is taken; without a
    /// healthy backend, or where the slot cannot be taken, the client is
    /// turned away and the pool is left as it is.
    pub fn admit_connection(pool: &mut BackendPool, strategy: &mut ConfiguredStrategy) -> (r:
        Admission)
        requires
            old(strategy).pick(healthy_candidates_of(old(pool)@)) matches Ok(b) ==> acquire_fits(
                old(pool)@,
                b.backend_id@,
            ),
        ensures
            admission_pick(r) == old(strategy).pick(healthy_candidates_of(old(pool)@)),
            old(strategy).advances_to(healthy_candidates_of(old(pool)@), *final(strategy)),
            r is Rejected <==> healthy_candidates_of(old(pool)@).len() == 0,
            final(pool).identity() == old(pool).identity(),
            (match r {
                Admission::Rejected(e) => {
                    &&& e == BalanceError::NoBackendsAvailable
                    &&& final(pool)@ == old(pool)@
                },
                Admission::Admitted(b, g) => {
                    &&& is_healthy_backend(old(pool)@, b)
                    &&& g@ == b.backend_id@
                    &&& g.pool() == old(pool).identity()
                    &&& acquire_succeeds(old(pool)@, b.backend_id@)
                    &&& final(pool)@ == acquired(old(pool)@, b.backend_id@)
                },
                Admission::BackendUnavailable(b) => {
                    &&& is_healthy_backend(old(pool)@, b)
                    &&& !acquire_succeeds(old(pool)@, b.backend_id@)
                    &&& final(pool)@ == old(pool)@
                },
            }),
    {
        let backend = match Self::select_backend_for_client(pool, strategy) {
            Ok(backend) => backend,
            Err(e) => return Admission::Rejected(e),
        };
        match pool.try_acquire(backend.backend_id.as_str()) {
            Some(guard) => Admission::Admitted(backend, guard),
            None => Admission::BackendUnavailable(backend),
        }
    }
}

} // verus!
