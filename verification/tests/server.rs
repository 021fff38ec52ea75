use load_balancer::balancing::{BalanceError, BalancingStrategy, ConfiguredStrategy};
use load_balancer::config::{BackendCandidate, BackendConfig, ServiceConfig, StrategyKind};
use load_balancer::pool::BackendPool;
use load_balancer::server::{Admission, LoadBalancer, StartupError};

fn backend(id: u64, port: u16) -> BackendConfig {
    BackendConfig::new(format!("127.0.0.1:{port}"), id.to_string(), None)
}

#[test]
fn configured_strategy_controls_selection_logic() {
    let candidates = vec![
        BackendCandidate {
            backend: backend(1, 8081),
            active_connections: 10,
        },
        BackendCandidate {
            backend: backend(2, 8082),
            active_connections: 1,
        },
    ];

    let mut round_robin = LoadBalancer::strategy_for(StrategyKind::RoundRobin);
    assert_eq!(
        round_robin.select_backend(&candidates).unwrap().backend_id,
        "1"
    );

    let mut least_connections = LoadBalancer::strategy_for(StrategyKind::LeastConnections);
    assert_eq!(
        least_connections
            .select_backend(&candidates)
            .unwrap()
            .backend_id,
        "2"
    );
}

#[test]
fn strategy_for_builds_the_configured_kind() {
    assert!(matches!(
        LoadBalancer::strategy_for(StrategyKind::RoundRobin),
        ConfiguredStrategy::RoundRobin(_)
    ));
    assert!(matches!(
        LoadBalancer::strategy_for(StrategyKind::LeastConnections),
        ConfiguredStrategy::LeastConnections(_)
    ));
}

#[test]
fn service_without_backends_cannot_start() {
    let empty = ServiceConfig::new("api".to_string(), "127.0.0.1:9001".to_string(), None);
    assert_eq!(LoadBalancer::check_backends(&empty), Err(StartupError::NoBackends));
    let one = ServiceConfig::new(
        "api".to_string(),
        "127.0.0.1:9001".to_string(),
        Some(vec![backend(1, 8081)]),
    );
    assert_eq!(LoadBalancer::check_backends(&one), Ok(()));
}

#[test]
fn clients_are_routed_round_robin_across_healthy_backends() {
    let mut pool = BackendPool::new(vec![backend(1, 8081), backend(2, 8082)]);
    let mut strategy = LoadBalancer::strategy_for(StrategyKind::RoundRobin);

    let first = match LoadBalancer::admit_connection(&mut pool, &mut strategy) {
        Admission::Admitted(backend, guard) => {
            assert_eq!(backend.backend_id, "1");
            guard
        }
        _ => panic!("the client was not admitted"),
    };
    let second = match LoadBalancer::admit_connection(&mut pool, &mut strategy) {
        Admission::Admitted(backend, guard) => {
            assert_eq!(backend.backend_id, "2");
            guard
        }
        _ => panic!("the client was not admitted"),
    };
    assert_eq!(pool.active_connections("1"), Some(1));
    assert_eq!(pool.active_connections("2"), Some(1));
    pool.release(first);
    pool.release(second);
    assert_eq!(pool.active_connections("1"), Some(0));
    assert_eq!(pool.active_connections("2"), Some(0));
}

#[test]
fn client_is_rejected_when_no_backend_is_healthy_and_served_after_recovery() {
    let mut pool = BackendPool::new(vec![backend(1, 8081)]);
    pool.mark_unhealthy("1".to_string());
    let mut strategy = LoadBalancer::strategy_for(StrategyKind::RoundRobin);

    assert!(matches!(
        LoadBalancer::admit_connection(&mut pool, &mut strategy),
        Admission::Rejected(BalanceError::NoBackendsAvailable)
    ));
    assert_eq!(pool.active_connections("1"), Some(0));

    pool.mark_healthy("1".to_string());
    match LoadBalancer::admit_connection(&mut pool, &mut strategy) {
        Admission::Admitted(backend, _guard) => assert_eq!(backend.backend_id, "1"),
        _ => panic!("the client was not admitted"),
    }
    assert_eq!(pool.active_connections("1"), Some(1));
}

#[test]
fn least_connections_routes_to_the_idle_backend() {
    let mut pool = BackendPool::new(vec![backend(1, 8081), backend(2, 8082)]);
    let _busy = pool.try_acquire("1").unwrap();
    let mut strategy = LoadBalancer::strategy_for(StrategyKind::LeastConnections);
    match LoadBalancer::admit_connection(&mut pool, &mut strategy) {
        Admission::Admitted(backend, _guard) => assert_eq!(backend.backend_id, "2"),
        _ => panic!("the client was not admitted"),
    }
}

#[test]
fn select_backend_for_client_only_offers_healthy_backends() {
    let mut pool = BackendPool::new(vec![backend(1, 8081), backend(2, 8082)]);
    pool.mark_unhealthy("1".to_string());
    let mut strategy = LoadBalancer::strategy_for(StrategyKind::RoundRobin);
    for _ in 0..3 {
        let selected = LoadBalancer::select_backend_for_client(&pool, &mut strategy).unwrap();
        assert_eq!(selected.backend_id, "2");
    }
}

#[test]
fn admission_fits_a_fresh_pool_and_an_empty_one() {
    let pool = BackendPool::new(vec![backend(1, 8081), backend(2, 8082)]);
    let strategy = LoadBalancer::strategy_for(StrategyKind::RoundRobin);
    assert!(LoadBalancer::admission_fits(&pool, &strategy));
    let empty = BackendPool::new(Vec::new());
    assert!(LoadBalancer::admission_fits(&empty, &strategy));
}
