use rater::{MemoryOrdering, Ratio, RateLimiterConfig};
use std::sync::atomic::Ordering;

fn value(ratio: Ratio) -> f64 {
    ratio.part as f64 / ratio.whole as f64
}

#[test]
fn test_memory_ordering() {
    let ordering = MemoryOrdering::AcquireRelease;
    assert_eq!(ordering.load(), Ordering::Acquire);
    assert_eq!(ordering.store(), Ordering::Release);
    assert_eq!(ordering.rmw(), Ordering::AcqRel);
    assert_eq!(ordering.cas_failure(), Ordering::Acquire);
}

#[test]
fn test_memory_ordering_all_variants() {
    let relaxed = MemoryOrdering::Relaxed;
    assert_eq!(relaxed.load(), Ordering::Relaxed);
    assert_eq!(relaxed.store(), Ordering::Relaxed);
    assert_eq!(relaxed.rmw(), Ordering::Relaxed);
    assert_eq!(relaxed.cas_failure(), Ordering::Relaxed);

    let sequential = MemoryOrdering::Sequential;
    assert_eq!(sequential.load(), Ordering::SeqCst);
    assert_eq!(sequential.store(), Ordering::SeqCst);
    assert_eq!(sequential.rmw(), Ordering::SeqCst);
    assert_eq!(sequential.cas_failure(), Ordering::SeqCst);
}

#[test]
fn test_config_validation() {
    let valid = RateLimiterConfig::default();
    assert!(valid.validate().is_ok());

    let invalid = RateLimiterConfig {
        max_tokens: 0,
        ..Default::default()
    };
    assert!(invalid.validate().is_err());

    let invalid_refill = RateLimiterConfig {
        max_tokens: 10,
        refill_rate: 20,
        ..Default::default()
    };
    assert!(invalid_refill.validate().is_err());
}

#[test]
fn test_config_builders() {
    let config = RateLimiterConfig::per_second(100);
    assert_eq!(config.max_tokens, 200);
    assert_eq!(config.refill_rate, 100);
    assert_eq!(value(config.effective_rate_per_second()), 100.0);
}

#[test]
fn test_32bit_validation() {
    let config = RateLimiterConfig {
        max_tokens: (u32::MAX as u64) + 1,
        ..Default::default()
    };
    assert!(config.validate_for(32).is_err());
    assert!(config.validate_for(64).is_ok());
}

#[test]
fn test_32bit_overflow_validation() {
    let config = RateLimiterConfig {
        max_tokens: 1000,
        refill_rate: u32::MAX / 10,
        refill_interval_ms: 1000,
        ordering: MemoryOrdering::default(),
    };
    assert!(config.validate_for(32).is_err());
}

#[test]
fn test_config_with_burst_multiplier() {
    let config = RateLimiterConfig::per_second(10).with_burst_multiplier(5);

    assert_eq!(config.max_tokens, 50);
    assert_eq!(config.refill_rate, 10);
}

#[test]
fn test_config_per_minute() {
    let config = RateLimiterConfig::per_minute(120);

    assert_eq!(config.max_tokens, 120);
    assert_eq!(config.refill_rate, 120);
    assert_eq!(config.refill_interval_ms, 60_000);
    assert_eq!(value(config.effective_rate_per_second()), 2.0);
}

#[test]
fn test_config_with_ordering() {
    let config = RateLimiterConfig::default().with_ordering(MemoryOrdering::Sequential);

    assert_eq!(config.ordering, MemoryOrdering::Sequential);
}

#[test]
fn test_config_validation_edge_cases() {
    let config = RateLimiterConfig {
        max_tokens: 10,
        refill_rate: 5,
        refill_interval_ms: 0,
        ordering: MemoryOrdering::default(),
    };
    assert!(config.validate().is_err());
    assert_eq!(value(config.effective_rate_per_second()), 0.0);
}

#[test]
fn test_default_memory_ordering() {
    assert_eq!(MemoryOrdering::default(), MemoryOrdering::AcquireRelease);
}

#[test]
fn every_problem_is_named() {
    let config = |max_tokens, refill_rate, refill_interval_ms| {
        RateLimiterConfig::new(max_tokens, refill_rate, refill_interval_ms)
    };
    assert_eq!(
        config(0, 10, 1000).validate(),
        Err("max_tokens must be greater than 0")
    );
    assert_eq!(
        config(50, 0, 1000).validate(),
        Err("refill_rate must be greater than 0")
    );
    assert_eq!(
        config(50, 10, 0).validate(),
        Err("refill_interval_ms must be greater than 0")
    );
    assert_eq!(
        config(5, 10, 1000).validate(),
        Err("refill_rate should not exceed max_tokens")
    );
    assert_eq!(
        config(1 << 32, 10, 1000).validate_for(32),
        Err("max_tokens exceeds platform limit (u32::MAX on 32-bit systems)")
    );
    assert_eq!(
        config(u32::MAX as u64, 1 << 31, 1000).validate_for(32),
        Err("refill_rate * MAX_REFILL_PERIODS would overflow on 32-bit systems")
    );
    assert_eq!(config(u32::MAX as u64, 42_949_672, 1000).validate_for(32), Ok(()));
    assert_eq!(config(100, 20, 1000).validate(), Ok(()));
}

#[test]
fn a_cloned_config_has_the_same_settings() {
    let config = RateLimiterConfig::new(7, 3, 250).with_ordering(MemoryOrdering::Relaxed);
    let copy = config.clone();
    assert_eq!(copy.max_tokens, 7);
    assert_eq!(copy.refill_rate, 3);
    assert_eq!(copy.refill_interval_ms, 250);
    assert_eq!(copy.ordering, MemoryOrdering::Relaxed);
}
