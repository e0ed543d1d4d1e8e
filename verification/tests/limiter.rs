use rater::cells::{TokenCounter, Trace};
use rater::clock::TimeBase;
use rater::{
    ConcurrentIpManager, HealthStatus, MemoryOrdering, RateLimiter, RateLimiterConfig,
    SharedIpManager, SharedRateLimiter,
};
use std::sync::atomic::Ordering;
use std::sync::Arc;
use std::time::{Duration, Instant};

fn slow(max_tokens: u64, refill_rate: u32) -> RateLimiter {
    RateLimiter::with_config(RateLimiterConfig {
        max_tokens,
        refill_rate,
        refill_interval_ms: 600_000,
        ordering: MemoryOrdering::AcquireRelease,
    })
}

#[test]
fn test_basic_acquisition() {
    let limiter = slow(10, 1);
    for _ in 0..10 {
        assert!(limiter.try_acquire());
    }
    assert!(!limiter.try_acquire());
}

#[test]
fn test_bulk_acquisition() {
    let limiter = slow(10, 1);

    assert!(limiter.try_acquire_n(5));
    assert!(limiter.try_acquire_n(3));
    assert!(!limiter.try_acquire_n(5));
    assert!(limiter.try_acquire_n(2));
}

#[test]
fn test_overflow_protection() {
    let limiter = RateLimiter::new(u64::MAX, u32::MAX);
    limiter.add_tokens(u64::MAX);
    assert_eq!(limiter.available_tokens(), u64::MAX);
}

#[test]
fn test_add_tokens() {
    let limiter = slow(10, 1);

    for _ in 0..5 {
        assert!(limiter.try_acquire());
    }

    limiter.add_tokens(3);
    assert_eq!(limiter.available_tokens(), 8);

    limiter.add_tokens(20);
    assert_eq!(limiter.available_tokens(), 10);
}

#[test]
fn test_acquire_zero_tokens() {
    let limiter = slow(10, 1);

    assert!(limiter.try_acquire_n(0));

    for _ in 0..10 {
        assert!(limiter.try_acquire());
    }

    assert!(limiter.try_acquire_n(0));
}

#[test]
fn test_32bit_token_ops() {
    let mut trace = Trace::new();
    let counter = TokenCounter::narrow(u32::MAX as u64 + 1);

    assert_eq!(counter.load(Ordering::Relaxed, &mut trace), u32::MAX as u64);

    counter.store(u32::MAX as u64 + 100, Ordering::Relaxed, &mut trace);
    assert_eq!(counter.load(Ordering::Relaxed, &mut trace), u32::MAX as u64);
}

#[test]
fn token_counters_exchange_the_expected_count() {
    let (success, failure) = (Ordering::AcqRel, Ordering::Relaxed);
    let mut trace = Trace::new();
    for counter in [TokenCounter::new(7), TokenCounter::narrow(7)] {
        assert_eq!(counter.compare_exchange(6, 5, success, failure, &mut trace), Err(7));
        assert_eq!(counter.compare_exchange(7, 5, success, failure, &mut trace), Ok(7));
        assert_eq!(counter.compare_exchange_weak(7, 4, success, failure, &mut trace), Err(5));
        while counter.compare_exchange_weak(5, 4, success, failure, &mut trace) != Ok(5) {}
        assert_eq!(counter.load(Ordering::Acquire, &mut trace), 4);
    }
}

#[test]
fn test_debug_impl() {
    let limiter = RateLimiter::new(10, 5);
    let debug_str = format!("{:?}", limiter);

    assert!(debug_str.contains("RateLimiter"));
    assert!(debug_str.contains("max_tokens: 10"));
    assert!(debug_str.contains("refill_rate: 5"));
}

#[test]
fn test_sequential_ordering_mode() {
    let limiter = RateLimiter::with_config(RateLimiterConfig {
        max_tokens: 10,
        refill_rate: 5,
        refill_interval_ms: 1000,
        ordering: MemoryOrdering::Sequential,
    });

    for _ in 0..10 {
        assert!(limiter.try_acquire());
    }
    assert!(!limiter.try_acquire());
}

#[test]
fn test_get_max_tokens() {
    let limiter = RateLimiter::new(42, 5);
    assert_eq!(limiter.get_max_tokens(), 42);
}

#[test]
fn test_get_last_access_ms_updates() {
    let limiter = RateLimiter::new(100, 10);
    let before = limiter.get_last_access_ms();

    assert!(limiter.try_acquire_n(1));

    let after = limiter.get_last_access_ms();
    assert!(after >= before);
}

#[test]
fn test_add_tokens_when_empty() {
    let limiter = slow(10, 1);

    for _ in 0..10 {
        limiter.try_acquire();
    }
    assert_eq!(limiter.available_tokens(), 0);

    limiter.add_tokens(5);
    assert_eq!(limiter.available_tokens(), 5);
}

#[test]
fn test_add_tokens_zero() {
    let limiter = RateLimiter::new(10, 1);
    let before = limiter.available_tokens();
    limiter.add_tokens(0);
    assert_eq!(limiter.available_tokens(), before);
}

#[test]
fn test_try_acquire_n_exactly_max() {
    let limiter = slow(10, 1);

    assert!(limiter.try_acquire_n(10));
    assert_eq!(limiter.available_tokens(), 0);

    assert!(!limiter.try_acquire());
}

fn wait_ms(duration_ms: u64) {
    let start = Instant::now();
    while start.elapsed() < Duration::from_millis(duration_ms) {}
}

#[test]
fn test_basic_functionality() {
    let limiter = RateLimiter::new(10, 1);

    for _ in 0..10 {
        assert!(limiter.try_acquire());
    }

    assert!(!limiter.try_acquire());

    let metrics = limiter.metrics();
    assert_eq!(metrics.total_acquired, 10);
    assert_eq!(metrics.total_rejected, 1);
}

#[test]
fn test_reset() {
    let limiter = slow(10, 1);

    for _ in 0..5 {
        assert!(limiter.try_acquire());
    }
    for _ in 0..3 {
        assert!(!limiter.try_acquire_n(10));
    }

    let metrics_before = limiter.metrics();
    assert!(metrics_before.total_acquired > 0);
    assert!(metrics_before.total_rejected > 0);

    limiter.reset();

    assert_eq!(limiter.available_tokens(), 10);
    let metrics_after = limiter.metrics();
    assert_eq!(metrics_after.total_acquired, 0);
    assert_eq!(metrics_after.total_rejected, 0);
    assert_eq!(metrics_after.consecutive_rejections, 0);
}

#[test]
fn test_sustained_pressure() {
    let limiter = slow(5, 1);

    for _ in 0..5 {
        assert!(limiter.try_acquire());
    }

    for _ in 0..15 {
        assert!(!limiter.try_acquire());
    }

    let metrics = limiter.metrics();
    assert!(metrics.consecutive_rejections > 10);
    assert!(limiter.is_under_sustained_pressure());
}

#[test]
fn test_max_wait_time_tracking() {
    let limiter = RateLimiter::new(100, 10);

    assert!(limiter.try_acquire_n(50));
    assert!(limiter.try_acquire_n(30));

    let _metrics = limiter.metrics();
}

#[test]
fn test_acquire_more_than_max() {
    let limiter = slow(10, 1);

    assert!(!limiter.try_acquire_n(11));

    let metrics = limiter.metrics();
    assert_eq!(metrics.total_rejected, 1);
}

#[test]
fn test_aba_fix_no_silent_drain() {
    let limiter = slow(3, 1);

    assert!(limiter.try_acquire_n(2));

    assert!(!limiter.try_acquire_n(3));

    assert_eq!(limiter.available_tokens(), 1);
    assert!(limiter.try_acquire());

    let metrics = limiter.metrics();
    assert_eq!(metrics.total_acquired, 2);
    assert_eq!(metrics.total_rejected, 1);
}

#[test]
fn test_metrics_count_attempts_not_tokens() {
    let limiter = RateLimiter::new(100, 10);

    assert!(limiter.try_acquire_n(50));
    assert!(limiter.try_acquire_n(30));
    assert!(limiter.try_acquire());

    let metrics = limiter.metrics();
    assert_eq!(metrics.total_acquired, 3);
}

#[test]
fn test_relaxed_ordering_mode() {
    let limiter = RateLimiter::with_config(RateLimiterConfig {
        max_tokens: 20,
        refill_rate: 5,
        refill_interval_ms: 1000,
        ordering: MemoryOrdering::Relaxed,
    });

    for _ in 0..20 {
        assert!(limiter.try_acquire());
    }
    assert!(!limiter.try_acquire());

    let metrics = limiter.metrics();
    assert_eq!(metrics.total_acquired, 20);
    assert_eq!(metrics.total_rejected, 1);
}

#[test]
fn test_pressure_ratio_calculation() {
    let limiter = slow(5, 1);

    for _ in 0..5 {
        limiter.try_acquire();
    }
    for _ in 0..5 {
        limiter.try_acquire();
    }

    let metrics = limiter.metrics();
    let ratio = metrics.pressure_ratio.part as f64 / metrics.pressure_ratio.whole as f64;
    assert!(ratio > 0.4 && ratio < 0.6, "Expected ~0.5, got {}", ratio);
}

#[test]
fn test_reset_clears_all_state() {
    let limiter = slow(10, 5);

    for _ in 0..10 {
        limiter.try_acquire();
    }
    for _ in 0..5 {
        limiter.try_acquire();
    }

    limiter.reset();

    assert_eq!(limiter.available_tokens(), 10);
    let m = limiter.metrics();
    assert_eq!(m.total_acquired, 0);
    assert_eq!(m.total_rejected, 0);
    assert_eq!(m.total_refills, 0);
    assert_eq!(m.consecutive_rejections, 0);
    assert_eq!(m.max_wait_time_ns, 0);
}

#[test]
fn test_health_transitions() {
    let limiter = RateLimiter::new(10, 1);

    assert_eq!(limiter.metrics().health_status(), HealthStatus::Healthy);

    for _ in 0..10 {
        limiter.try_acquire();
    }

    let status_after_drain = limiter.metrics().health_status();
    assert!(
        status_after_drain == HealthStatus::Degraded || status_after_drain == HealthStatus::Healthy,
        "Expected Degraded or Healthy after drain, got {:?}",
        status_after_drain,
    );

    for _ in 0..20 {
        limiter.try_acquire();
    }

    assert_eq!(limiter.metrics().health_status(), HealthStatus::Critical);

    limiter.reset();
    assert_eq!(limiter.metrics().health_status(), HealthStatus::Healthy);
}

#[test]
fn test_refill_mechanism() {
    let limiter = RateLimiter::new(10, 5);

    for _ in 0..10 {
        assert!(limiter.try_acquire());
    }
    assert!(!limiter.try_acquire());

    wait_ms(1100);

    assert!(limiter.try_acquire_n(5));
}

#[test]
fn test_multiple_refill_periods() {
    let limiter = RateLimiter::with_config(RateLimiterConfig {
        max_tokens: 20,
        refill_rate: 5,
        refill_interval_ms: 100,
        ordering: MemoryOrdering::AcquireRelease,
    });

    assert!(limiter.try_acquire_n(20));
    assert!(!limiter.try_acquire());

    wait_ms(450);

    assert_eq!(limiter.available_tokens(), 20);
}

#[test]
fn test_is_inactive() {
    let limiter = RateLimiter::new(10, 1);

    assert!(!limiter.is_inactive(1000));

    let _ = limiter.available_tokens();

    wait_ms(200);

    assert!(limiter.is_inactive(100));

    assert!(!limiter.is_inactive(1000));
}

#[test]
fn test_adaptive_refill_under_pressure() {
    let limiter = RateLimiter::new(10, 10);

    for _ in 0..10 {
        limiter.try_acquire();
    }
    for _ in 0..20 {
        limiter.try_acquire();
    }

    wait_ms(1100);

    let tokens = limiter.available_tokens();
    assert!(tokens <= 10);
    assert_eq!(tokens, 8);
}

#[test]
fn test_last_access_update_throttling() {
    let limiter = RateLimiter::new(100, 10);

    let start_access = limiter.get_last_access_ms();

    for _ in 0..50 {
        assert!(limiter.try_acquire());
        wait_ms(1);
    }

    let end_access = limiter.get_last_access_ms();
    assert!(end_access >= start_access);
}

#[test]
fn test_rejection_resets_consecutive_on_acquire() {
    let limiter = RateLimiter::new(5, 1);

    for _ in 0..5 {
        limiter.try_acquire();
    }

    for _ in 0..8 {
        assert!(!limiter.try_acquire());
    }
    assert!(limiter.metrics().consecutive_rejections >= 8);

    wait_ms(1100);
    assert!(limiter.try_acquire());

    assert_eq!(limiter.metrics().consecutive_rejections, 0);
}

#[test]
fn test_refill_caps_at_max() {
    let limiter = RateLimiter::with_config(RateLimiterConfig {
        max_tokens: 10,
        refill_rate: 10,
        refill_interval_ms: 50,
        ordering: MemoryOrdering::AcquireRelease,
    });

    for _ in 0..5 {
        limiter.try_acquire();
    }

    wait_ms(200);

    assert_eq!(limiter.available_tokens(), 10);
}

#[test]
fn test_refill_timing_accuracy() {
    let limiter = RateLimiter::with_config(RateLimiterConfig {
        max_tokens: 10,
        refill_rate: 10,
        refill_interval_ms: 100,
        ordering: MemoryOrdering::AcquireRelease,
    });

    for _ in 0..10 {
        assert!(limiter.try_acquire());
    }

    assert_eq!(limiter.available_tokens(), 0);

    wait_ms(150);

    let available = limiter.available_tokens();
    assert!(
        available >= 5 && available <= 10,
        "Expected 5..=10 tokens after refill, got {}",
        available
    );
}

#[test]
fn test_burst_then_steady_state() {
    let limiter = RateLimiter::with_config(RateLimiterConfig {
        max_tokens: 50,
        refill_rate: 10,
        refill_interval_ms: 100,
        ordering: MemoryOrdering::AcquireRelease,
    });

    let mut burst_acquired = 0;
    for _ in 0..50 {
        if limiter.try_acquire() {
            burst_acquired += 1;
        }
    }
    assert_eq!(burst_acquired, 50);

    assert!(!limiter.try_acquire());

    wait_ms(150);

    let available = limiter.available_tokens();
    assert!(
        available >= 5 && available <= 50,
        "Expected some tokens after refill, got {}",
        available
    );
}

#[test]
fn test_prelude_imports() {
    let _limiter = rater::prelude::RateLimiter::new(10, 1);
    let _config = rater::prelude::RateLimiterConfig::default();
    let _ordering = rater::prelude::MemoryOrdering::AcquireRelease;
    let _status = rater::prelude::HealthStatus::Healthy;
}

#[test]
fn test_shared_types() {
    let limiter = RateLimiter::new(10, 1);
    let _shared: SharedRateLimiter = Arc::new(limiter);

    let manager = ConcurrentIpManager::new(RateLimiterConfig::default());
    let _shared_manager: SharedIpManager = Arc::new(manager);
}

#[test]
fn tokens_and_requests_balance() {
    let limiter = slow(20, 5);
    let mut obtained = 0;
    let mut granted = 0;
    let mut refused = 0;
    for n in [3u64, 0, 7, 25, 1, 6, 9, 1] {
        if limiter.try_acquire_n(n) {
            obtained += n;
            granted += (n > 0) as u64;
        } else {
            refused += 1;
        }
    }
    assert_eq!(obtained, 18);
    assert_eq!(limiter.available_tokens(), 20 - obtained);
    limiter.add_tokens(1);
    assert_eq!(limiter.available_tokens(), 20 - obtained + 1);
    let metrics = limiter.metrics();
    assert_eq!((metrics.total_acquired, metrics.total_rejected), (granted, refused));
    assert_eq!((granted, refused), (5, 2));
}

#[test]
fn a_refill_is_paid_out_once() {
    let limiter = RateLimiter::with_config(RateLimiterConfig {
        max_tokens: 100,
        refill_rate: 7,
        refill_interval_ms: 1_000,
        ordering: MemoryOrdering::Sequential,
    });
    assert!(limiter.try_acquire_n(100));
    wait_ms(1_050);
    assert_eq!(limiter.available_tokens(), 7);
    assert_eq!(limiter.available_tokens(), 7);
    assert_eq!(limiter.metrics().total_refills, 1);
}

#[test]
fn traced_methods_do_the_same() {
    let limiter = slow(5, 1);
    let mut trace = Trace::new();
    assert!(limiter.try_acquire_traced(&mut trace));
    assert!(limiter.try_acquire_n_traced(2, &mut trace));
    assert!(!limiter.try_acquire_n_traced(3, &mut trace));
    assert_eq!(limiter.available_tokens_traced(&mut trace), 2);
    limiter.add_tokens_traced(1, &mut trace);
    assert_eq!(limiter.available_tokens_traced(&mut trace), 3);
    assert!(!limiter.is_inactive_traced(1_000, &mut trace));
    assert!(!limiter.is_under_sustained_pressure_traced(&mut trace));
    assert_eq!(limiter.metrics_traced(&mut trace).total_acquired, 2);
    assert!(limiter.get_last_access_ms_traced(&mut trace) > 0);
    limiter.reset_traced(&mut trace);
    assert_eq!(limiter.available_tokens(), 5);
}

#[test]
fn a_long_pause_pays_the_limit_of_periods_once() {
    let limiter = RateLimiter::with_config(RateLimiterConfig {
        max_tokens: 1_000_000,
        refill_rate: 1_000,
        refill_interval_ms: 20,
        ordering: MemoryOrdering::AcquireRelease,
    });
    assert!(limiter.try_acquire_n(1_000_000));
    wait_ms(2_200);
    assert_eq!(limiter.available_tokens(), 100_000);
    assert!(limiter.available_tokens() < 150_000);
    assert!(limiter.available_tokens() < 150_000);
}

#[test]
fn a_new_limiter_was_last_used_when_it_was_made() {
    let clock = TimeBase::new();
    let before = clock.now_ms();
    let limiter = RateLimiter::with_clock(RateLimiterConfig::per_second(10), clock);
    let after = clock.now_ms();
    let made_ms = limiter.creation().now_ms();
    assert!(before <= made_ms && made_ms <= after);
    assert_eq!(limiter.get_last_access_ms(), made_ms);
    let metrics = limiter.metrics();
    assert_eq!((metrics.current_tokens, metrics.max_tokens), (20, 20));
    assert_eq!((metrics.total_acquired, metrics.total_rejected, metrics.total_refills), (0, 0, 0));
    assert_eq!(metrics.pressure_ratio.part, 0);
}

#[test]
fn a_limiter_is_made_at_the_given_moment() {
    let clock = TimeBase::new();
    let mut trace = Trace::new();
    let moment = trace.read_clock(&clock);
    assert!(moment.base().now_ms() >= moment.now_ms());
    assert!(clock.now_ms() >= moment.now_ms());
    wait_ms(120);
    let limiter = RateLimiter::made_at(RateLimiterConfig::per_second(10), moment, (4, 7));
    assert_eq!(limiter.get_last_access_ms(), moment.now_ms());
    assert!(limiter.is_inactive(100));
}

#[test]
fn a_limiter_reads_the_clock_that_it_was_given() {
    let clock = TimeBase::from_readings(Instant::now(), None);
    let limiter = RateLimiter::with_clock(RateLimiterConfig::per_second(10), clock);
    assert!(limiter.get_last_access_ms() < 10_000);
    wait_ms(200);
    assert!(limiter.try_acquire());
    assert!(limiter.get_last_access_ms() >= 200);
    assert!(limiter.get_last_access_ms() < 20_000);
    limiter.reset();
    assert!(limiter.get_last_access_ms() < 20_000);
    assert!(!limiter.is_inactive(10_000));
}

#[test]
fn bounded_attempts_take_all_or_nothing() {
    let limiter = slow(10, 1);
    let mut trace = Trace::new();
    assert!(limiter.try_acquire_with_bounded_cas(7, &mut trace));
    assert!(!limiter.try_acquire_with_bounded_cas(4, &mut trace));
    assert!(limiter.try_acquire_with_bounded_cas(3, &mut trace));
    let metrics = limiter.metrics();
    assert_eq!((metrics.current_tokens, metrics.total_acquired, metrics.total_rejected), (0, 2, 1));
}
