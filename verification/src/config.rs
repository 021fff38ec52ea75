//! Configuration of the services, their backends and health checks.

use vstd::prelude::*;

verus! {

/// The strategy a service uses to pick a backend for a new connection.
#[derive(Debug, Clone, Copy, PartialEq, Eq, Structural)]
pub enum StrategyKind {
    RoundRobin,
    LeastConnections,
}

/// How often backends are probed, and how long a probe may take.
#[derive(Debug, Clone, Copy)]
pub struct HealthCheckConfig {
    pub interval_seconds: u64,
    pub timeout_seconds: u64,
}

/// One backend of a service. The address is kept as the text of the
/// configuration (`host:port`); it is resolved where a connection is opened.
#[derive(Debug)]
pub struct BackendConfig {
    pub backend_address: String,
    pub backend_id: String,
    pub weight: Option<u32>,
}

impl Clone for BackendConfig {
    fn clone(&self) -> (r: Self)
        ensures
            r == *self,
    {
        BackendConfig {
            backend_address: self.backend_address.clone(),
            backend_id: self.backend_id.clone(),
            weight: self.weight,
        }
    }
}

impl BackendConfig {
    /// Builds a backend from its address, its identifier and its weight.
    pub fn new(backend_address: String, backend_id: String, weight: Option<u32>) -> (r: Self)
        ensures
            r.backend_address == backend_address,
            r.backend_id == backend_id,
            r.weight == weight,
    {
        BackendConfig { backend_address, backend_id, weight }
    }
}

/// A backend offered to a balancing strategy, with its current number of
/// active connections.
#[derive(Debug)]
pub struct BackendCandidate {
    pub backend: BackendConfig,
    pub active_connections: usize,
}

impl Clone for BackendCandidate {
    fn clone(&self) -> (r: Self)
        ensures
            r == *self,
    {
        BackendCandidate {
            backend: self.backend.clone(),
            active_connections: self.active_connections,
        }
    }
}

/// One balanced service: where it listens, its backends, how it picks one,
/// and how its backends are probed.
#[derive(Debug)]
pub struct ServiceConfig {
    pub name: String,
    pub listener_address: String,
    pub backend_list: Vec<BackendConfig>,
    pub strategy: StrategyKind,
    pub health_check_interval: HealthCheckConfig,
}

/// The interval of the health checks of a service built by `ServiceConfig::new`.
pub const DEFAULT_HEALTH_INTERVAL_SECONDS: u64 = 10;

/// The probe timeout of a service built by `ServiceConfig::new`.
pub const DEFAULT_HEALTH_TIMEOUT_SECONDS: u64 = 5;

impl ServiceConfig {
    /// Builds a round-robin service with the default health checks; a
    /// missing backend list stands for an empty one.
    pub fn new(
        name: String,
        listener_address: String,
        backend_list: Option<Vec<BackendConfig>>,
    ) -> (r: Self)
        ensures
            r.name == name,
            r.listener_address == listener_address,
            r.backend_list@ == (match backend_list {
                Some(list) => list@,
                None => Seq::<BackendConfig>::empty(),
            }),
            r.strategy == StrategyKind::RoundRobin,
            r.health_check_interval.interval_seconds == DEFAULT_HEALTH_INTERVAL_SECONDS,
            r.health_check_interval.timeout_seconds == DEFAULT_HEALTH_TIMEOUT_SECONDS,
    {
        let backend_list = match backend_list {
            Some(list) => list,
            None => Vec::new(),
        };
        ServiceConfig {
            name,
            listener_address,
            backend_list,
            strategy: StrategyKind::RoundRobin,
            health_check_interval: HealthCheckConfig {
                interval_seconds: DEFAULT_HEALTH_INTERVAL_SECONDS,
                timeout_seconds: DEFAULT_HEALTH_TIMEOUT_SECONDS,
            },
        }
    }
}

/// The whole configuration: the services to balance.
#[derive(Debug)]
pub struct LoadBalancerConfig {
    pub services: Vec<ServiceConfig>,
}

impl LoadBalancerConfig {
    /// A configuration that holds exactly the given service.
    pub fn new(service_config: ServiceConfig) -> (r: Self)
        ensures
            r.services@ == seq![service_config],
    {
        let mut services = Vec::new();
        services.push(service_config);
        LoadBalancerConfig { services }
    }
}

} // verus!
