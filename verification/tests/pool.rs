use load_balancer::config::BackendConfig;
use load_balancer::health::record_probe;
use load_balancer::pool::BackendPool;

fn backend(id: u64, port: u16) -> BackendConfig {
    BackendConfig::new(format!("127.0.0.1:{port}"), id.to_string(), None)
}

#[test]
fn empty_pool_returns_no_healthy_backends() {
    let pool = BackendPool::new(Vec::new());

    assert!(pool.healthy_backends().is_empty());
}

#[test]
fn new_pool_marks_configured_backends_as_healthy() {
    let pool = BackendPool::new(vec![backend(1, 8081), backend(2, 8082)]);

    let healthy_backends = pool.healthy_backends();

    assert_eq!(healthy_backends.len(), 2);
    assert_eq!(healthy_backends[0].backend_id, "1");
    assert_eq!(healthy_backends[1].backend_id, "2");
}

#[test]
fn unhealthy_backend_is_excluded_from_healthy_backends() {
    let mut pool = BackendPool::new(vec![backend(1, 8081), backend(2, 8082)]);

    pool.mark_unhealthy("1".to_string());

    let healthy_backends = pool.healthy_backends();

    assert_eq!(healthy_backends.len(), 1);
    assert_eq!(healthy_backends[0].backend_id, "2");
}

#[test]
fn backend_can_be_marked_healthy_after_being_unhealthy() {
    let mut pool = BackendPool::new(vec![backend(1, 8081)]);

    pool.mark_unhealthy("1".to_string());
    assert!(pool.healthy_backends().is_empty());

    pool.mark_healthy("1".to_string());

    let healthy_backends = pool.healthy_backends();
    assert_eq!(healthy_backends.len(), 1);
    assert_eq!(healthy_backends[0].backend_id, "1");
}

#[test]
fn active_connection_count_can_increment_and_decrement() {
    let mut pool = BackendPool::new(vec![backend(1, 8081)]);

    assert_eq!(pool.active_connections("1"), Some(0));

    pool.increment_connections("1".to_string());
    pool.increment_connections("1".to_string());
    assert_eq!(pool.active_connections("1"), Some(2));

    pool.decrement_connections("1".to_string());
    assert_eq!(pool.active_connections("1"), Some(1));
}

#[test]
fn decrementing_zero_active_connections_does_not_underflow() {
    let mut pool = BackendPool::new(vec![backend(1, 8081)]);

    pool.decrement_connections("1".to_string());

    assert_eq!(pool.active_connections("1"), Some(0));
}

#[test]
fn healthy_candidates_include_active_connection_counts() {
    let mut pool = BackendPool::new(vec![backend(1, 8081), backend(2, 8082)]);

    let _first_guard = pool.try_acquire("1").unwrap();
    let _second_guard = pool.try_acquire("1").unwrap();
    let _third_guard = pool.try_acquire("2").unwrap();

    let candidates = pool.healthy_candidates();

    assert_eq!(candidates.len(), 2);
    assert_eq!(candidates[0].backend.backend_id, "1");
    assert_eq!(candidates[0].active_connections, 2);
    assert_eq!(candidates[1].backend.backend_id, "2");
    assert_eq!(candidates[1].active_connections, 1);
}

#[test]
fn try_acquire_increments_active_connections_until_guard_is_dropped() {
    let mut pool = BackendPool::new(vec![backend(1, 8081)]);

    assert_eq!(pool.active_connections("1"), Some(0));

    {
        let guard = pool.try_acquire("1").unwrap();
        assert_eq!(pool.active_connections("1"), Some(1));
        pool.release(guard);
    }

    assert_eq!(pool.active_connections("1"), Some(0));
}

#[test]
fn try_acquire_returns_none_for_unhealthy_backend() {
    let mut pool = BackendPool::new(vec![backend(1, 8081)]);

    pool.mark_unhealthy("1".to_string());
    let guard = pool.try_acquire("1");
    assert!(guard.is_none());
    assert_eq!(pool.active_connections("1"), Some(0));
}

#[test]
fn try_acquire_returns_none_for_unknown_backend() {
    let mut pool = BackendPool::new(vec![backend(1, 8081)]);

    assert!(pool.try_acquire("missing").is_none());
}

#[test]
fn active_connections_of_unknown_backend_is_none() {
    let pool = BackendPool::new(vec![backend(1, 8081)]);
    assert_eq!(pool.active_connections("2"), None);
}

#[test]
fn guard_names_the_acquired_backend() {
    let mut pool = BackendPool::new(vec![backend(1, 8081), backend(2, 8082)]);
    let guard = pool.try_acquire("2").unwrap();
    assert_eq!(guard.backend_id(), "2");
    assert_eq!(pool.active_connections("1"), Some(0));
    assert_eq!(pool.active_connections("2"), Some(1));
}

#[test]
fn release_gives_back_only_the_held_slot() {
    let mut pool = BackendPool::new(vec![backend(1, 8081), backend(2, 8082)]);
    let first = pool.try_acquire("1").unwrap();
    let second = pool.try_acquire("1").unwrap();
    let other = pool.try_acquire("2").unwrap();
    pool.release(first);
    assert_eq!(pool.active_connections("1"), Some(1));
    assert_eq!(pool.active_connections("2"), Some(1));
    pool.release(second);
    pool.release(other);
    assert_eq!(pool.active_connections("1"), Some(0));
    assert_eq!(pool.active_connections("2"), Some(0));
}

#[test]
fn release_after_backend_count_was_cleared_stays_at_zero() {
    let mut pool = BackendPool::new(vec![backend(1, 8081)]);
    let guard = pool.try_acquire("1").unwrap();
    pool.decrement_connections("1".to_string());
    pool.release(guard);
    assert_eq!(pool.active_connections("1"), Some(0));
}

#[test]
fn duplicate_identifiers_are_all_marked_but_acquired_at_the_first() {
    let mut pool = BackendPool::new(vec![backend(1, 8081), backend(1, 8082), backend(2, 8083)]);
    pool.mark_unhealthy("1".to_string());
    assert_eq!(pool.healthy_backends().len(), 1);
    pool.mark_healthy("1".to_string());
    assert_eq!(pool.healthy_backends().len(), 3);
    let _guard = pool.try_acquire("1").unwrap();
    let candidates = pool.healthy_candidates();
    assert_eq!(candidates[0].active_connections, 1);
    assert_eq!(candidates[1].active_connections, 0);
    pool.increment_connections("1".to_string());
    let candidates = pool.healthy_candidates();
    assert_eq!(candidates[0].active_connections, 2);
    assert_eq!(candidates[1].active_connections, 1);
    assert_eq!(candidates[2].active_connections, 0);
}

#[test]
fn backends_lists_every_backend_whatever_its_health() {
    let mut pool = BackendPool::new(vec![backend(1, 8081), backend(2, 8082)]);
    pool.mark_unhealthy("1".to_string());
    let all = pool.backends();
    assert_eq!(all.len(), 2);
    assert_eq!(all[0].backend_id, "1");
    assert_eq!(all[1].backend_address, "127.0.0.1:8082");
}

#[test]
fn probe_results_set_health() {
    let mut pool = BackendPool::new(vec![backend(1, 8081), backend(2, 8082)]);
    record_probe(&mut pool, "1".to_string(), false);
    let healthy = pool.healthy_backends();
    assert_eq!(healthy.len(), 1);
    assert_eq!(healthy[0].backend_id, "2");
    record_probe(&mut pool, "1".to_string(), true);
    record_probe(&mut pool, "2".to_string(), true);
    assert_eq!(pool.healthy_backends().len(), 2);
}

#[test]
fn marking_unknown_backend_changes_nothing() {
    let mut pool = BackendPool::new(vec![backend(1, 8081)]);
    pool.mark_unhealthy("9".to_string());
    pool.increment_connections("9".to_string());
    assert_eq!(pool.healthy_backends().len(), 1);
    assert_eq!(pool.active_connections("1"), Some(0));
}

#[test]
fn counts_follow_the_guards_held_through_health_changes() {
    let mut pool = BackendPool::new(vec![backend(1, 8081), backend(2, 8082)]);
    let a1 = pool.try_acquire("1").unwrap();
    let a2 = pool.try_acquire("1").unwrap();
    let b1 = pool.try_acquire("2").unwrap();
    pool.mark_unhealthy("1".to_string());
    assert_eq!(pool.active_connections("1"), Some(2));
    assert!(pool.try_acquire("1").is_none());
    pool.release(a1);
    assert_eq!(pool.active_connections("1"), Some(1));
    pool.mark_healthy("1".to_string());
    pool.release(a2);
    pool.release(b1);
    assert_eq!(pool.active_connections("1"), Some(0));
    assert_eq!(pool.active_connections("2"), Some(0));
}

#[test]
fn acquire_fits_below_the_counter_limit() {
    let mut pool = BackendPool::new(vec![backend(1, 8081)]);
    assert!(pool.acquire_fits("1"));
    assert!(pool.acquire_fits("missing"));
    let _guard = pool.try_acquire("1").unwrap();
    assert!(pool.acquire_fits("1"));
}
