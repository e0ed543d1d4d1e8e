//! The types that most programs need, for import in one go.

pub use crate::{
    ConcurrentIpManager, HealthStatus, IpAddress, IpRateLimiterManager, ManagerStats,
    MemoryOrdering, RateLimiter, RateLimiterConfig, RateLimiterMetrics, SharedIpManager,
    SharedRateLimiter,
};
