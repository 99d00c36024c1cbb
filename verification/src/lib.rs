//! Sponsor allocation engine: a size-bounded pool of sponsor candidates,
//! round-robin and performance-based allocation strategies, and a service
//! that keeps the pool in step with account events and reports each change
//! as outbox events.
//!
//! Accounts are identified by the 128 bits of their UUID.

pub mod error;
pub mod events;
pub mod laws;
pub mod model;
pub mod pool;
pub mod pool_laws;
pub mod service;
pub mod storage;
pub mod strategy;
mod text;

pub use error::SponsorAllocationError;
pub use events::SponsorEvent;
pub use pool::{PoolStats, SponsorCandidate, SponsorPool};
pub use service::SponsorService;
pub use strategy::{AllocationStrategy, PerformanceBasedStrategy, RoundRobinStrategy};
