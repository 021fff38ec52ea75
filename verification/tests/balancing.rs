use load_balancer::balancing::{BalanceError, BalancingStrategy, LeastConnections, RoundRobin};
use load_balancer::config::{BackendCandidate, BackendConfig};

fn candidate(id: u64, port: u16, active_connections: usize) -> BackendCandidate {
    BackendCandidate {
        backend: BackendConfig::new(format!("127.0.0.1:{port}"), id.to_string(), None),
        active_connections,
    }
}

fn idle_candidate(id: u64, port: u16) -> BackendCandidate {
    candidate(id, port, 0)
}

// Round-robin strategies are offered the healthy backends as candidates
// without connections.
fn backend(id: u64, port: u16) -> BackendCandidate {
    idle_candidate(id, port)
}

struct FirstBackendStrategy;

impl BalancingStrategy for FirstBackendStrategy {
    fn select_backend(
        &mut self,
        candidates: &[BackendCandidate],
    ) -> Result<BackendConfig, BalanceError> {
        candidates
            .first()
            .map(|candidate| candidate.backend.clone())
            .ok_or(BalanceError::NoBackendsAvailable)
    }
}

#[test]
fn selects_backend_with_fewest_active_connections() {
    let mut strategy = LeastConnections::new();
    let candidates = vec![
        candidate(1, 8081, 4),
        candidate(2, 8082, 1),
        candidate(3, 8083, 7),
    ];

    let selected = strategy.select_backend(&candidates).unwrap();

    assert_eq!(selected.backend_id, "2");
}

#[test]
fn tie_selects_first_candidate_with_lowest_connection_count() {
    let mut strategy = LeastConnections::new();
    let candidates = vec![
        candidate(1, 8081, 2),
        candidate(2, 8082, 2),
        candidate(3, 8083, 5),
    ];

    let selected = strategy.select_backend(&candidates).unwrap();

    assert_eq!(selected.backend_id, "1");
}

#[test]
fn least_connections_returns_error_when_no_candidates_exist() {
    let mut strategy = LeastConnections::new();
    let candidates = Vec::new();

    let result = strategy.select_backend(&candidates);

    assert!(matches!(result, Err(BalanceError::NoBackendsAvailable)));
}

#[test]
fn strategy_selects_backend_from_candidates() {
    let candidates = vec![idle_candidate(1, 8081), idle_candidate(2, 8082)];
    let mut strategy = FirstBackendStrategy;

    let selected = strategy.select_backend(&candidates).unwrap();

    assert_eq!(selected.backend_id, "1");
}

#[test]
fn strategy_returns_error_when_no_candidates_exist() {
    let candidates = Vec::new();
    let mut strategy = FirstBackendStrategy;

    let result = strategy.select_backend(&candidates);

    assert!(matches!(result, Err(BalanceError::NoBackendsAvailable)));
}

#[test]
fn strategy_can_be_used_as_trait_object() {
    let candidates = vec![idle_candidate(1, 8081)];
    let mut strategy: Box<dyn BalancingStrategy> = Box::new(FirstBackendStrategy);

    let selected = strategy.select_backend(&candidates).unwrap();

    assert_eq!(selected.backend_id, "1");
}

#[test]
pub fn selects_backends_in_round_robin_order() {
    let mut round_robin = RoundRobin::new();
    let backends = vec![backend(1, 8081), backend(2, 8082)];

    assert_eq!(
        round_robin.select_backend(&backends).unwrap().backend_id,
        "1",
    );

    assert_eq!(
        round_robin.select_backend(&backends).unwrap().backend_id,
        "2",
    );

    assert_eq!(
        round_robin.select_backend(&backends).unwrap().backend_id,
        "1",
    );
}

#[test]
pub fn selects_only_from_provided_healthy_candidates() {
    let mut round_robin = RoundRobin::new();
    let backends = vec![backend(1, 8081), backend(3, 8083)];
    assert_eq!(
        round_robin.select_backend(&backends).unwrap().backend_id,
        "1"
    );
    assert_eq!(
        round_robin.select_backend(&backends).unwrap().backend_id,
        "3"
    );
}

#[test]
pub fn round_robin_returns_error_when_no_candidates_exist() {
    let mut round_robin = RoundRobin::new();
    let backends = Vec::new();

    let result = round_robin.select_backend(&backends);

    assert!(matches!(result, Err(BalanceError::NoBackendsAvailable)));
}

#[test]
fn round_robin_visits_every_candidate_once_per_round() {
    let mut round_robin = RoundRobin::new();
    let backends = vec![backend(1, 8081), backend(2, 8082), backend(3, 8083)];
    let mut picked = Vec::new();
    for _ in 0..6 {
        picked.push(round_robin.select_backend(&backends).unwrap().backend_id);
    }
    assert_eq!(picked, vec!["1", "2", "3", "1", "2", "3"]);
}

#[test]
fn round_robin_follows_a_shrinking_candidate_list() {
    let mut round_robin = RoundRobin::new();
    let three = vec![backend(1, 8081), backend(2, 8082), backend(3, 8083)];
    let two = vec![backend(1, 8081), backend(3, 8083)];
    assert_eq!(round_robin.select_backend(&three).unwrap().backend_id, "1");
    assert_eq!(round_robin.select_backend(&three).unwrap().backend_id, "2");
    // The third turn among two candidates is position 2 % 2 = 0.
    assert_eq!(round_robin.select_backend(&two).unwrap().backend_id, "1");
    assert_eq!(round_robin.select_backend(&two).unwrap().backend_id, "3");
}

#[test]
fn round_robin_error_does_not_advance_the_turn() {
    let mut round_robin = RoundRobin::new();
    let backends = vec![backend(1, 8081), backend(2, 8082)];
    let empty: Vec<BackendCandidate> = Vec::new();
    assert!(round_robin.select_backend(&empty).is_err());
    assert_eq!(round_robin.select_backend(&backends).unwrap().backend_id, "1");
}

#[test]
fn least_connections_single_candidate_is_selected() {
    let mut strategy = LeastConnections::new();
    let candidates = vec![candidate(9, 8089, 100)];
    assert_eq!(strategy.select_backend(&candidates).unwrap().backend_id, "9");
}

#[test]
fn least_connections_prefers_last_when_it_is_strictly_least() {
    let mut strategy = LeastConnections::new();
    let candidates = vec![
        candidate(1, 8081, 3),
        candidate(2, 8082, 3),
        candidate(3, 8083, 0),
    ];
    let selected = strategy.select_backend(&candidates).unwrap();
    assert_eq!(selected.backend_id, "3");
    assert_eq!(selected.backend_address, "127.0.0.1:8083");
}
