//! A TCP load balancer's decision core: backend configuration, the backend
//! pool with its health flags and connection counts, the balancing
//! strategies, and the per-connection admission decision of the server.

pub mod balancing;
pub mod cli;
pub mod config;
pub mod health;
pub mod pool;
pub mod server;
