//! Building a limiter setting by setting.

use crate::clock::TimeBase;
use crate::config::{MemoryOrdering, RateLimiterConfig};
use crate::limiter::RateLimiter;
use vstd::prelude::*;

verus! {

/// Collects the settings of a limiter.
#[derive(Debug)]
pub struct RateLimiterBuilder {
    config: RateLimiterConfig,
}

impl Clone for RateLimiterBuilder {
    fn clone(&self) -> (r: Self)
        ensures
            r == *self,
    {
        RateLimiterBuilder { config: self.config.clone() }
    }
}

impl RateLimiterBuilder {
    /// The settings collected so far.
    pub closed spec fn settings(self) -> RateLimiterConfig {
        self.config
    }

    /// Starts from the default configuration.
    pub fn new() -> (r: Self)
        ensures
            r.settings() == (RateLimiterConfig {
                max_tokens: 50,
                refill_rate: 10,
                refill_interval_ms: 1000,
                ordering: MemoryOrdering::AcquireRelease,
            }),
    {
        RateLimiterBuilder { config: RateLimiterConfig::default() }
    }

    /// Sets the capacity of the bucket.
    pub fn max_tokens(self, tokens: u64) -> (r: Self)
        ensures
            r.settings() == (RateLimiterConfig { max_tokens: tokens, ..self.settings() }),
    {
        let mut config: RateLimiterConfig = self.config;
        config.max_tokens = tokens;
        RateLimiterBuilder { config }
    }

    /// Sets the tokens added per period.
    pub fn refill_rate(self, rate: u32) -> (r: Self)
        ensures
            r.settings() == (RateLimiterConfig { refill_rate: rate, ..self.settings() }),
    {
        let mut config: RateLimiterConfig = self.config;
        config.refill_rate = rate;
        RateLimiterBuilder { config }
    }

    /// Sets the length of a period in milliseconds.
    pub fn refill_interval_ms(self, ms: u64) -> (r: Self)
        ensures
            r.settings() == (RateLimiterConfig { refill_interval_ms: ms, ..self.settings() }),
    {
        let mut config: RateLimiterConfig = self.config;
        config.refill_interval_ms = ms;
        RateLimiterBuilder { config }
    }

    /// Sets the memory ordering.
    pub fn memory_ordering(self, ordering: MemoryOrdering) -> (r: Self)
        ensures
            r.settings() == (RateLimiterConfig { ordering, ..self.settings() }),
    {
        let mut config: RateLimiterConfig = self.config;
        config.ordering = ordering;
        RateLimiterBuilder { config }
    }

    /// Builds the limiter from valid settings.
    pub fn build(self) -> (r: RateLimiter)
        requires
            self.settings().is_valid(),
        ensures
            r.config() == self.settings(),
            r.started_full(),
            call_ensures(TimeBase::new, (), r.clock()),
    {
        RateLimiter::with_config(self.config)
    }

    /// Builds the limiter, or names the first problem of the settings.
    pub fn try_build(self) -> (r: Result<RateLimiter, &'static str>)
        ensures
            r is Ok <==> self.settings().is_valid(),
            r matches Ok(limiter) ==> limiter.config() == self.settings()
                && limiter.started_full() && call_ensures(TimeBase::new, (), limiter.clock()),
            r matches Err(text) ==> text@ == self.settings().problem(
                usize::BITS as int,
            )->0.message(),
    {
        match self.config.validate() {
            Ok(_) => Ok(RateLimiter::with_config(self.config)),
            Err(text) => Err(text),
        }
    }
}

impl Default for RateLimiterBuilder {
    fn default() -> (r: Self)
        ensures
            r.settings() == (RateLimiterConfig {
                max_tokens: 50,
                refill_rate: 10,
                refill_interval_ms: 1000,
                ordering: MemoryOrdering::AcquireRelease,
            }),
    {
        RateLimiterBuilder::new()
    }
}

/// A builder starts from a burst of fifty and ten tokens per second, and each call sets one figure
/// and leaves the others. What is built has the settings, and is built exactly from valid ones.
pub proof fn law_builder_sets_one_by_one(
    start: RateLimiterBuilder,
    from: RateLimiterBuilder,
    tokens: u64,
    rate: u32,
    ms: u64,
    ordering: MemoryOrdering,
    a: RateLimiterBuilder,
    b: RateLimiterBuilder,
    c: RateLimiterBuilder,
    d: RateLimiterBuilder,
    built: Result<RateLimiter, &'static str>,
)
    requires
        call_ensures(RateLimiterBuilder::new, (), start),
        call_ensures(RateLimiterBuilder::max_tokens, (from, tokens), a),
        call_ensures(RateLimiterBuilder::refill_rate, (from, rate), b),
        call_ensures(RateLimiterBuilder::refill_interval_ms, (from, ms), c),
        call_ensures(RateLimiterBuilder::memory_ordering, (from, ordering), d),
        call_ensures(RateLimiterBuilder::try_build, (from,), built),
    ensures
        start.settings().max_tokens == 50 && start.settings().refill_rate == 10
            && start.settings().refill_interval_ms == 1_000
            && start.settings().ordering is AcquireRelease,
        a.settings() == (RateLimiterConfig { max_tokens: tokens, ..from.settings() }),
        b.settings() == (RateLimiterConfig { refill_rate: rate, ..from.settings() }),
        c.settings() == (RateLimiterConfig { refill_interval_ms: ms, ..from.settings() }),
        d.settings() == (RateLimiterConfig { ordering, ..from.settings() }),
        built is Ok <==> from.settings().is_valid(),
        built matches Ok(limiter) ==> limiter.config() == from.settings() && limiter.initial().tokens
            == from.settings().max_tokens,
{
}

} // verus!
