//! A dynamic backend pool for a reverse proxy: backend identity, ordered
//! backend sets, health, selection algorithms, DNS discovery and the
//! load balancer that ties them together, plus a small module registry.
pub mod backend;
pub mod balancer;
pub mod dns;
pub mod error;
pub mod pool;
pub mod registry;
pub mod selection;
