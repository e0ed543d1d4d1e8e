//! Settings of a limiter and the memory ordering strategies.
//!
//! A configuration is plain data. It becomes a limiter only once
//! [`RateLimiterConfig::validate`] has accepted it.

use crate::metrics::{ratio, Ratio};
use std::sync::atomic::Ordering;
use vstd::prelude::*;

verus! {

/// Most refill periods that one refill pays out.
///
/// A limiter that was idle for an hour does not receive an hour's worth of tokens at once.
pub const MAX_REFILL_PERIODS: u64 = 100;

/// How strongly the atomic accesses of a limiter are ordered between threads.
#[derive(Debug, Clone, Copy, PartialEq, Eq, Structural)]
pub enum MemoryOrdering {
    /// Fastest, with the weakest guarantees between threads.
    Relaxed,
    /// Balanced speed and synchronisation (the default).
    AcquireRelease,
    /// One total order over all accesses.
    Sequential,
}

impl MemoryOrdering {
    /// Ordering used to read a cell.
    pub fn load(&self) -> (r: Ordering)
        ensures
            r == (match *self {
                MemoryOrdering::Relaxed => Ordering::Relaxed,
                MemoryOrdering::AcquireRelease => Ordering::Acquire,
                MemoryOrdering::Sequential => Ordering::SeqCst,
            }),
    {
        match self {
            MemoryOrdering::Relaxed => Ordering::Relaxed,
            MemoryOrdering::AcquireRelease => Ordering::Acquire,
            MemoryOrdering::Sequential => Ordering::SeqCst,
        }
    }

    /// Ordering used to overwrite a cell.
    pub fn store(&self) -> (r: Ordering)
        ensures
            r == (match *self {
                MemoryOrdering::Relaxed => Ordering::Relaxed,
                MemoryOrdering::AcquireRelease => Ordering::Release,
                MemoryOrdering::Sequential => Ordering::SeqCst,
            }),
    {
        match self {
            MemoryOrdering::Relaxed => Ordering::Relaxed,
            MemoryOrdering::AcquireRelease => Ordering::Release,
            MemoryOrdering::Sequential => Ordering::SeqCst,
        }
    }

    /// Ordering used to read and update a cell in one step.
    pub fn rmw(&self) -> (r: Ordering)
        ensures
            r == (match *self {
                MemoryOrdering::Relaxed => Ordering::Relaxed,
                MemoryOrdering::AcquireRelease => Ordering::AcqRel,
                MemoryOrdering::Sequential => Ordering::SeqCst,
            }),
    {
        match self {
            MemoryOrdering::Relaxed => Ordering::Relaxed,
            MemoryOrdering::AcquireRelease => Ordering::AcqRel,
            MemoryOrdering::Sequential => Ordering::SeqCst,
        }
    }

    /// Ordering used to read the current value when a compare-and-swap fails.
    pub fn cas_failure(&self) -> (r: Ordering)
        ensures
            r == (match *self {
                MemoryOrdering::Relaxed => Ordering::Relaxed,
                MemoryOrdering::AcquireRelease => Ordering::Acquire,
                MemoryOrdering::Sequential => Ordering::SeqCst,
            }),
    {
        match self {
            MemoryOrdering::Relaxed => Ordering::Relaxed,
            MemoryOrdering::AcquireRelease => Ordering::Acquire,
            MemoryOrdering::Sequential => Ordering::SeqCst,
        }
    }
}

impl Default for MemoryOrdering {
    fn default() -> (r: Self)
        ensures
            r == MemoryOrdering::AcquireRelease,
    {
        MemoryOrdering::AcquireRelease
    }
}

/// What makes a configuration unusable.
pub enum ConfigProblem {
    /// The bucket could never hold a token.
    NoCapacity,
    /// The bucket would never be refilled.
    NoRefill,
    /// The bucket is larger than the token counter of a 32-bit platform.
    CapacityTooWide,
    /// A full backlog of refill periods overflows the token counter of a 32-bit platform.
    RefillTooWide,
    /// Refill periods have no length.
    NoInterval,
    /// One refill pays out more than the bucket can hold.
    RefillAboveCapacity,
}

impl ConfigProblem {
    /// The text that reports the problem.
    pub open spec fn message(self) -> Seq<char> {
        match self {
            ConfigProblem::NoCapacity => "max_tokens must be greater than 0"@,
            ConfigProblem::NoRefill => "refill_rate must be greater than 0"@,
            ConfigProblem::CapacityTooWide =>
                "max_tokens exceeds platform limit (u32::MAX on 32-bit systems)"@,
            ConfigProblem::RefillTooWide =>
                "refill_rate * MAX_REFILL_PERIODS would overflow on 32-bit systems"@,
            ConfigProblem::NoInterval => "refill_interval_ms must be greater than 0"@,
            ConfigProblem::RefillAboveCapacity => "refill_rate should not exceed max_tokens"@,
        }
    }
}

/// Settings of one limiter.
#[derive(Debug)]
pub struct RateLimiterConfig {
    /// Most tokens that the bucket holds: the size of a burst.
    pub max_tokens: u64,
    /// Tokens added per refill period.
    pub refill_rate: u32,
    /// Length of a refill period in milliseconds.
    pub refill_interval_ms: u64,
    /// Ordering of the atomic accesses.
    pub ordering: MemoryOrdering,
}

impl Clone for RateLimiterConfig {
    fn clone(&self) -> (r: Self)
        ensures
            r == *self,
    {
        RateLimiterConfig {
            max_tokens: self.max_tokens,
            refill_rate: self.refill_rate,
            refill_interval_ms: self.refill_interval_ms,
            ordering: self.ordering,
        }
    }
}

impl Default for RateLimiterConfig {
    /// A burst of 50 and 10 tokens per second.
    fn default() -> (r: Self)
        ensures
            r == (RateLimiterConfig {
                max_tokens: 50,
                refill_rate: 10,
                refill_interval_ms: 1000,
                ordering: MemoryOrdering::AcquireRelease,
            }),
    {
        RateLimiterConfig {
            max_tokens: 50,
            refill_rate: 10,
            refill_interval_ms: 1000,
            ordering: MemoryOrdering::AcquireRelease,
        }
    }
}

impl RateLimiterConfig {
    /// The first problem of the configuration on a platform with the given pointer width,
    /// in the order in which the settings are examined.
    pub open spec fn problem(self, pointer_width: int) -> Option<ConfigProblem> {
        if self.max_tokens == 0 {
            Some(ConfigProblem::NoCapacity)
        } else if self.refill_rate == 0 {
            Some(ConfigProblem::NoRefill)
        } else if pointer_width != 64 && self.max_tokens > u32::MAX {
            Some(ConfigProblem::CapacityTooWide)
        } else if pointer_width != 64 && self.refill_rate * MAX_REFILL_PERIODS > u32::MAX {
            Some(ConfigProblem::RefillTooWide)
        } else if self.refill_interval_ms == 0 {
            Some(ConfigProblem::NoInterval)
        } else if self.refill_rate > self.max_tokens {
            Some(ConfigProblem::RefillAboveCapacity)
        } else {
            None
        }
    }

    /// Whether a limiter can be built from the configuration on this platform.
    pub open spec fn is_valid(self) -> bool {
        self.problem(usize::BITS as int) is None
    }

    /// A configuration with the default memory ordering.
    pub fn new(max_tokens: u64, refill_rate: u32, refill_interval_ms: u64) -> (r: Self)
        ensures
            r == (RateLimiterConfig {
                max_tokens,
                refill_rate,
                refill_interval_ms,
                ordering: MemoryOrdering::AcquireRelease,
            }),
    {
        RateLimiterConfig {
            max_tokens,
            refill_rate,
            refill_interval_ms,
            ordering: MemoryOrdering::default(),
        }
    }

    /// The given rate per second, with a burst of twice the rate.
    pub fn per_second(requests_per_second: u32) -> (r: Self)
        ensures
            r == (RateLimiterConfig {
                max_tokens: (2 * requests_per_second) as u64,
                refill_rate: requests_per_second,
                refill_interval_ms: 1000,
                ordering: MemoryOrdering::AcquireRelease,
            }),
    {
        RateLimiterConfig {
            max_tokens: requests_per_second as u64 * 2,
            refill_rate: requests_per_second,
            refill_interval_ms: 1000,
            ordering: MemoryOrdering::default(),
        }
    }

    /// The given rate per minute, with a burst of the same size.
    pub fn per_minute(requests_per_minute: u32) -> (r: Self)
        ensures
            r == (RateLimiterConfig {
                max_tokens: requests_per_minute as u64,
                refill_rate: requests_per_minute,
                refill_interval_ms: 60_000,
                ordering: MemoryOrdering::AcquireRelease,
            }),
    {
        RateLimiterConfig {
            max_tokens: requests_per_minute as u64,
            refill_rate: requests_per_minute,
            refill_interval_ms: 60_000,
            ordering: MemoryOrdering::default(),
        }
    }

    /// The same settings with another memory ordering.
    pub fn with_ordering(self, ordering: MemoryOrdering) -> (r: Self)
        ensures
            r == (RateLimiterConfig { ordering, ..self }),
    {
        let mut config: RateLimiterConfig = self;
        config.ordering = ordering;
        config
    }

    /// The same settings with a burst of `multiplier` times the refill rate.
    pub fn with_burst_multiplier(self, multiplier: u32) -> (r: Self)
        ensures
            r == (RateLimiterConfig { max_tokens: (self.refill_rate * multiplier) as u64, ..self }),
    {
        let mut config: RateLimiterConfig = self;
        assert(0 <= config.refill_rate * multiplier <= u32::MAX * u32::MAX) by (nonlinear_arith)
            requires
                config.refill_rate <= u32::MAX,
                multiplier <= u32::MAX,
        ;
        config.max_tokens = config.refill_rate as u64 * multiplier as u64;
        config
    }

    /// Tokens per second that the limiter sustains; none if periods have no length.
    pub fn effective_rate_per_second(&self) -> (r: Ratio)
        ensures
            r == (if self.refill_interval_ms == 0 {
                ratio(0, 1)
            } else {
                ratio(self.refill_rate * 1000, self.refill_interval_ms as int)
            }),
    {
        if self.refill_interval_ms == 0 {
            Ratio { part: 0, whole: 1 }
        } else {
            Ratio {
                part: self.refill_rate as i128 * 1000,
                whole: self.refill_interval_ms as u128,
            }
        }
    }

    /// Accepts the settings, or names the first problem that they have on this platform.
    pub fn validate(&self) -> (r: Result<(), &'static str>)
        ensures
            r is Ok <==> self.is_valid(),
            r matches Err(text) ==> text@ == self.problem(usize::BITS as int)->0.message(),
    {
        self.validate_for(usize::BITS)
    }

    /// [`RateLimiterConfig::validate`] for a platform with the given pointer width.
    pub fn validate_for(&self, pointer_width: u32) -> (r: Result<(), &'static str>)
        ensures
            r is Ok <==> self.problem(pointer_width as int) is None,
            r matches Err(text) ==> text@ == self.problem(pointer_width as int)->0.message(),
    {
        if self.max_tokens == 0 {
            return Err("max_tokens must be greater than 0");
        }
        if self.refill_rate == 0 {
            return Err("refill_rate must be greater than 0");
        }
        if pointer_width != 64 {
            if self.max_tokens > u32::MAX as u64 {
                return Err("max_tokens exceeds platform limit (u32::MAX on 32-bit systems)");
            }
            if self.refill_rate as u64 * MAX_REFILL_PERIODS > u32::MAX as u64 {
                return Err("refill_rate * MAX_REFILL_PERIODS would overflow on 32-bit systems");
            }
        }
        if self.refill_interval_ms == 0 {
            return Err("refill_interval_ms must be greater than 0");
        }
        if self.refill_rate as u64 > self.max_tokens {
            return Err("refill_rate should not exceed max_tokens");
        }
        Ok(())
    }
}

/// The presets for a positive rate make valid settings, wherever a refill of all periods fits the
/// token counter, and so do the defaults.
pub proof fn law_presets_are_valid(rate: u32)
    requires
        rate > 0,
        usize::BITS == 64 || rate * MAX_REFILL_PERIODS <= u32::MAX,
    ensures
        (RateLimiterConfig {
            max_tokens: (2 * rate) as u64,
            refill_rate: rate,
            refill_interval_ms: 1000,
            ordering: MemoryOrdering::AcquireRelease,
        }).is_valid(),
        (RateLimiterConfig {
            max_tokens: rate as u64,
            refill_rate: rate,
            refill_interval_ms: 60_000,
            ordering: MemoryOrdering::AcquireRelease,
        }).is_valid(),
        (RateLimiterConfig {
            max_tokens: 50,
            refill_rate: 10,
            refill_interval_ms: 1000,
            ordering: MemoryOrdering::AcquireRelease,
        }).is_valid(),
{
}

/// Settings that are valid for 32 bits are valid for 64 bits too.
pub proof fn law_narrow_settings_fit_everywhere(config: RateLimiterConfig)
    requires
        config.problem(32) is None,
    ensures
        config.problem(64) is None,
        config.is_valid(),
{
}

/// Neither the memory ordering nor the length of a period, unless it is zero, decides whether
/// settings are valid.
pub proof fn law_ordering_never_invalidates(
    config: RateLimiterConfig,
    ordering: MemoryOrdering,
    interval_ms: u64,
)
    requires
        config.is_valid(),
        interval_ms > 0,
    ensures
        (RateLimiterConfig { ordering, refill_interval_ms: interval_ms, ..config }).is_valid(),
{
}

/// Settings are accepted exactly when there is a capacity, a rate and an interval, a refill of one
/// interval fits the bucket, and, where pointers do not have 64 bits, the capacity and a refill of a
/// hundred intervals fit 32 bits.
pub proof fn law_valid_settings(
    config: RateLimiterConfig,
    pointer_width: u32,
    answer: Result<(), &'static str>,
    here: Result<(), &'static str>,
)
    requires
        call_ensures(RateLimiterConfig::validate_for, (&config, pointer_width), answer),
        call_ensures(RateLimiterConfig::validate, (&config,), here),
    ensures
        answer is Ok <==> {
            &&& config.max_tokens >= 1
            &&& config.refill_rate >= 1
            &&& config.refill_interval_ms >= 1
            &&& config.refill_rate <= config.max_tokens
            &&& pointer_width == 64 || config.max_tokens <= 0xffff_ffff && config.refill_rate * 100
                <= 0xffff_ffff
        },
        here is Ok <==> config.is_valid(),
        config.is_valid() <==> {
            &&& config.max_tokens >= 1
            &&& config.refill_rate >= 1
            &&& config.refill_interval_ms >= 1
            &&& config.refill_rate <= config.max_tokens
            &&& usize::BITS == 64 || config.max_tokens <= 0xffff_ffff && config.refill_rate * 100
                <= 0xffff_ffff
        },
        answer matches Err(text) ==> {
            ||| config.max_tokens == 0 && text@ == "max_tokens must be greater than 0"@
            ||| config.max_tokens > 0 && config.refill_rate == 0 && text@
                == "refill_rate must be greater than 0"@
            ||| config.max_tokens > 0xffff_ffff && config.refill_rate > 0 && pointer_width != 64
                && text@ == "max_tokens exceeds platform limit (u32::MAX on 32-bit systems)"@
            ||| 0 < config.max_tokens <= 0xffff_ffff && config.refill_rate * 100 > 0xffff_ffff
                && pointer_width != 64 && text@
                == "refill_rate * MAX_REFILL_PERIODS would overflow on 32-bit systems"@
            ||| config.max_tokens > 0 && config.refill_rate > 0 && config.refill_interval_ms == 0
                && text@ == "refill_interval_ms must be greater than 0"@
            ||| config.refill_rate > config.max_tokens > 0 && config.refill_interval_ms > 0 && text@
                == "refill_rate should not exceed max_tokens"@
        },
{
}

/// The presets: a rate per second with a burst of twice the rate, a rate per minute with a burst of
/// the same size, and given figures; a burst can be set to a multiple of the rate. All but the last
/// order accesses by acquire and release; another ordering changes nothing else.
pub proof fn law_presets(
    rate: u32,
    multiplier: u32,
    ordering: MemoryOrdering,
    max_tokens: u64,
    interval_ms: u64,
    second: RateLimiterConfig,
    minute: RateLimiterConfig,
    given: RateLimiterConfig,
    burst: RateLimiterConfig,
    ordered: RateLimiterConfig,
)
    requires
        call_ensures(RateLimiterConfig::per_second, (rate,), second),
        call_ensures(RateLimiterConfig::per_minute, (rate,), minute),
        call_ensures(RateLimiterConfig::new, (max_tokens, rate, interval_ms), given),
        call_ensures(RateLimiterConfig::with_burst_multiplier, (given, multiplier), burst),
        call_ensures(RateLimiterConfig::with_ordering, (given, ordering), ordered),
    ensures
        second.max_tokens == 2 * rate && second.refill_rate == rate && second.refill_interval_ms
            == 1_000 && second.ordering is AcquireRelease,
        minute.max_tokens == rate && minute.refill_rate == rate && minute.refill_interval_ms
            == 60_000 && minute.ordering is AcquireRelease,
        given.max_tokens == max_tokens && given.refill_rate == rate && given.refill_interval_ms
            == interval_ms && given.ordering is AcquireRelease,
        burst.max_tokens == rate * multiplier && burst.refill_rate == rate
            && burst.refill_interval_ms == interval_ms && burst.ordering == given.ordering,
        ordered.max_tokens == max_tokens && ordered.refill_rate == rate
            && ordered.refill_interval_ms == interval_ms && ordered.ordering == ordering,
{
    assert(0 <= rate * multiplier <= u32::MAX * u32::MAX) by (nonlinear_arith)
        requires
            0 <= rate <= u32::MAX,
            0 <= multiplier <= u32::MAX,
    ;
}

/// The sustained rate: as many tokens per second as the refill rate comes to in a thousand
/// milliseconds; none if periods have no length.
pub proof fn law_sustained_rate(config: RateLimiterConfig, per_second: Ratio)
    requires
        call_ensures(RateLimiterConfig::effective_rate_per_second, (&config,), per_second),
    ensures
        per_second.whole > 0,
        config.refill_interval_ms == 0 ==> per_second.part == 0,
        config.refill_interval_ms > 0 ==> per_second.part * config.refill_interval_ms
            == config.refill_rate * 1_000 * per_second.whole,
{
}

/// Which standard ordering each strategy stands for.
pub proof fn law_orderings(
    strategy: MemoryOrdering,
    load: Ordering,
    store: Ordering,
    exchange: Ordering,
    failure: Ordering,
)
    requires
        call_ensures(MemoryOrdering::load, (&strategy,), load),
        call_ensures(MemoryOrdering::store, (&strategy,), store),
        call_ensures(MemoryOrdering::rmw, (&strategy,), exchange),
        call_ensures(MemoryOrdering::cas_failure, (&strategy,), failure),
    ensures
        strategy is Relaxed ==> load is Relaxed && store is Relaxed && exchange is Relaxed
            && failure is Relaxed,
        strategy is AcquireRelease ==> load is Acquire && store is Release && exchange is AcqRel
            && failure is Acquire,
        strategy is Sequential ==> load is SeqCst && store is SeqCst && exchange is SeqCst
            && failure is SeqCst,
{
}

/// Unless told otherwise a limiter has a burst of fifty and gets ten tokens per second, and orders
/// its accesses by acquire and release.
pub proof fn law_defaults(config: RateLimiterConfig, strategy: MemoryOrdering)
    requires
        call_ensures(RateLimiterConfig::default, (), config),
        call_ensures(MemoryOrdering::default, (), strategy),
    ensures
        config.max_tokens == 50,
        config.refill_rate == 10,
        config.refill_interval_ms == 1_000,
        config.ordering is AcquireRelease,
        strategy is AcquireRelease,
{
}

} // verus!
