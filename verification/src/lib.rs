//! Token bucket rate limiting.
//!
//! A [`RateLimiter`] is a bucket of tokens that threads share without locks. Each request takes
//! tokens; the bucket refills at a steady rate, up to its capacity. An [`IpRateLimiterManager`]
//! keeps a limiter for each client address; a [`ConcurrentIpManager`] is one that threads share.
//!
//! What a limiter does is stated access by access in [`runs`]. What follows from it is proved in
//! [`model`], for a limiter that one thread uses, and in [`execution`], for any number of threads
//! and every memory ordering. [`guarantees`] and [`bounds`] say in plain figures what users and
//! their clients can count on.

pub mod address;
pub mod bounds;
pub mod bucket;
pub mod builder;
pub mod cells;
pub mod clients;
pub mod clock;
pub mod config;
pub mod effects;
pub mod eviction;
pub mod execution;
pub mod guarantees;
pub mod history;
pub mod limiter;
pub mod lock;
pub mod manager;
pub mod metrics;
pub mod model;
pub mod prelude;
pub mod runs;
pub mod shared;
pub mod table;

pub use address::IpAddress;
pub use builder::RateLimiterBuilder;
pub use clock::{cpu_relax, current_time_ms, current_time_ns, current_time_us};
pub use config::{MemoryOrdering, RateLimiterConfig, MAX_REFILL_PERIODS};
pub use limiter::RateLimiter;
pub use manager::{IpRateLimiterManager, ManagerStats};
pub use metrics::{HealthStatus, RateLimiterMetrics, Ratio};
pub use shared::ConcurrentIpManager;

use vstd::prelude::*;

verus! {

/// A limiter that threads share.
pub type SharedRateLimiter = std::sync::Arc<RateLimiter>;

/// A manager that threads share.
pub type SharedIpManager = std::sync::Arc<ConcurrentIpManager>;


/// Version of the library.
pub const VERSION: &'static str = "0.1.2";

/// Oldest Rust version that builds the library.
pub const MSRV: &'static str = "1.70.0";

} // verus!
