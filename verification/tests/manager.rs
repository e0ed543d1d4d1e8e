use rater::eviction::Reading;
use rater::manager::{
    is_oversized, usage_alert, Wakeup, CLEANUP_TARGET, CLEANUP_THRESHOLD, MAX_TRACKED_IPS,
};
use rater::cells::Trace;
use rater::clock::TimeBase;
use rater::lock::{CleanupGuard, LockRecord};
use rater::{
    ConcurrentIpManager, IpAddress, IpRateLimiterManager, ManagerStats, MemoryOrdering, Ratio,
    RateLimiterConfig,
};
use std::sync::atomic::{AtomicBool, Ordering};
use std::sync::Arc;
use std::time::{Duration, Instant};

fn value(ratio: Ratio) -> f64 {
    ratio.part as f64 / ratio.whole as f64
}

fn wait_ms(duration_ms: u64) {
    let start = Instant::now();
    while start.elapsed() < Duration::from_millis(duration_ms) {}
}

fn numbered(i: usize) -> IpAddress {
    IpAddress::v4(
        (i / 16777216) as u8,
        ((i / 65536) % 256) as u8,
        ((i / 256) % 256) as u8,
        (i % 256) as u8,
    )
}

#[test]
fn test_basic_ip_limiting() {
    let mut manager = IpRateLimiterManager::new(RateLimiterConfig {
        max_tokens: 5,
        refill_rate: 1,
        refill_interval_ms: 1000,
        ordering: MemoryOrdering::AcquireRelease,
    });

    let ip1 = IpAddress::v4(192, 168, 1, 1);
    let ip2 = IpAddress::v4(192, 168, 1, 2);

    for _ in 0..5 {
        assert!(manager.try_acquire(ip1));
        assert!(manager.try_acquire(ip2));
    }

    assert!(!manager.try_acquire(ip1));
    assert!(!manager.try_acquire(ip2));

    assert_eq!(manager.active_ips(), 2);
}

#[test]
fn test_manager_cleanup() {
    let mut manager =
        IpRateLimiterManager::with_cleanup_settings(RateLimiterConfig::default(), 1000, 50);

    for i in 0..10 {
        manager.try_acquire(IpAddress::v4(192, 168, 1, i));
    }

    assert_eq!(manager.active_ips(), 10);

    wait_ms(100);

    manager.cleanup();

    assert!(manager.active_ips() < 10);
}

#[test]
fn test_manager_stats() {
    let mut manager = IpRateLimiterManager::new(RateLimiterConfig::default());

    for i in 0..5 {
        manager.try_acquire(IpAddress::v4(10, 0, 0, i));
    }

    let stats = manager.stats();
    assert_eq!(stats.active_ips, 5);
    assert_eq!(stats.total_created, 5);
    assert_eq!(stats.total_cleaned, 0);
    assert!(value(stats.capacity_used) > 0.0);
    assert!(!stats.is_near_capacity());
    assert_eq!(stats.available_slots(), MAX_TRACKED_IPS - 5);
    assert_eq!(stats.net_active(), 5);
}

#[test]
fn test_clear() {
    let mut manager = IpRateLimiterManager::new(RateLimiterConfig::default());

    for i in 0..10 {
        manager.try_acquire(IpAddress::v4(172, 16, 0, i));
    }

    assert_eq!(manager.active_ips(), 10);

    manager.clear();

    assert_eq!(manager.active_ips(), 0);
    assert_eq!(manager.stats().total_cleaned, 10);
}

#[test]
fn test_shrink_to_fit() {
    let mut manager = IpRateLimiterManager::new(RateLimiterConfig::default());

    for i in 0..100 {
        manager.get_limiter(IpAddress::v4(192, 168, 1, i));
    }

    manager.clear();

    for i in 0..5 {
        manager.get_limiter(IpAddress::v4(10, 0, 0, i));
    }

    manager.shrink_to_fit();

    assert_eq!(manager.active_ips(), 5);
}

#[test]
fn test_cleanup_with_active_limiters() {
    let mut manager =
        IpRateLimiterManager::with_cleanup_settings(RateLimiterConfig::default(), 1000, 100);

    for i in 0..10 {
        let ip = IpAddress::v4(192, 168, 2, i);
        if i < 5 {
            manager.try_acquire(ip);
        } else {
            manager.get_limiter(ip);
        }
    }

    wait_ms(150);

    for i in 0..5 {
        manager.try_acquire(IpAddress::v4(192, 168, 2, i));
    }

    manager.cleanup();

    assert!(manager.active_ips() >= 5);
    assert!(manager.active_ips() < 10);
}

#[test]
fn test_manager_stats_calculations() {
    let mut manager = IpRateLimiterManager::new(RateLimiterConfig::default());

    for i in 0..20 {
        manager.get_limiter(IpAddress::v4(10, 20, 30, i));
    }

    manager.clear();

    let stats = manager.stats();
    assert_eq!(stats.total_created, 20);
    assert_eq!(stats.total_cleaned, 20);
    assert!(value(stats.cleanup_ratio()) > 0.0);

    assert!(!stats.is_near_capacity());
}

#[test]
fn test_try_acquire_n() {
    let mut manager = IpRateLimiterManager::new(RateLimiterConfig {
        max_tokens: 10,
        refill_rate: 1,
        refill_interval_ms: 1000,
        ordering: MemoryOrdering::AcquireRelease,
    });

    let ip = IpAddress::v4(127, 0, 0, 1);

    assert!(manager.try_acquire_n(ip, 5));
    assert!(manager.try_acquire_n(ip, 3));

    assert!(!manager.try_acquire_n(ip, 5));
}

#[test]
fn test_cleanup_guard_drop() {
    let flag = AtomicBool::new(true);

    {
        let _guard = CleanupGuard { flag: &flag };
        assert!(flag.load(Ordering::Acquire));
    }

    assert!(!flag.load(Ordering::Acquire));
}

#[test]
fn test_ip_manager_lifecycle() {
    let manager = Arc::new(ConcurrentIpManager::with_cleanup_settings(
        RateLimiterConfig::per_second(10),
        1000,
        100,
    ));

    for i in 0..50 {
        assert!(manager.try_acquire(IpAddress::v4(192, 168, 1, i)));
    }
    assert_eq!(manager.active_ips(), 50);

    wait_ms(150);

    let active_ips = 10;
    for i in 0..active_ips {
        manager.try_acquire_n(IpAddress::v4(192, 168, 1, i as u8), 1);
    }

    manager.cleanup();

    let remaining = manager.active_ips();
    println!("Remaining IPs after cleanup: {}", remaining);

    assert!(
        remaining >= active_ips,
        "Should have kept at least {} active IPs, but only {} remain",
        active_ips,
        remaining
    );
    assert!(
        remaining < 50,
        "Should have cleaned up some IPs (had 50, now have {})",
        remaining
    );

    let stats = manager.stats();
    assert_eq!(stats.total_created, 50);
    assert!(stats.total_cleaned > 0);
    assert!(stats.total_cleaned == 50 - remaining as u64);
}

#[test]
fn a_full_table_turns_new_clients_away() {
    let mut manager = IpRateLimiterManager::new(RateLimiterConfig::default());
    for i in 0..MAX_TRACKED_IPS {
        assert!(manager.get_limiter(numbered(i)).is_some());
    }
    assert_eq!(manager.active_ips(), MAX_TRACKED_IPS);
    assert!(manager.stats().is_near_capacity());
    assert_eq!(manager.stats().available_slots(), 0);

    let newcomer = IpAddress::v4(255, 2, 3, 4);
    assert!(manager.get_limiter(newcomer).is_none());
    assert!(!manager.try_acquire(newcomer));
    assert!(!manager.try_acquire_n(newcomer, 0));
    assert!(manager.try_acquire(numbered(7)));
    assert_eq!(manager.active_ips(), MAX_TRACKED_IPS);
    assert_eq!(manager.stats().total_cleaned, 0);
}

#[test]
fn an_eviction_brings_the_table_down_to_its_target() {
    let mut manager =
        IpRateLimiterManager::with_cleanup_settings(RateLimiterConfig::default(), 1000, 50);
    for i in 0..CLEANUP_THRESHOLD {
        manager.get_limiter(numbered(i));
    }
    assert_eq!(manager.active_ips(), CLEANUP_THRESHOLD);

    wait_ms(1100);

    assert!(manager.get_limiter(IpAddress::v4(255, 255, 255, 255)).is_some());
    assert_eq!(manager.active_ips(), CLEANUP_TARGET + 1);
    assert_eq!(manager.stats().total_cleaned, (CLEANUP_THRESHOLD - CLEANUP_TARGET) as u64);
    assert_eq!(manager.stats().total_created, CLEANUP_THRESHOLD as u64 + 1);
}

#[test]
fn an_eviction_spares_clients_of_the_last_second() {
    let mut manager =
        IpRateLimiterManager::with_cleanup_settings(RateLimiterConfig::default(), 1000, 50);
    for i in 0..CLEANUP_THRESHOLD {
        manager.get_limiter(numbered(i));
    }
    let readings = manager.inspect(&mut Trace::new());
    assert_eq!(readings.len(), CLEANUP_THRESHOLD);
    let recent: Vec<Reading> = readings
        .iter()
        .map(|r| Reading { key: r.key, last_ms: 5_000, now_ms: 5_999 })
        .collect();
    manager.evict(&recent);
    assert_eq!(manager.active_ips(), CLEANUP_THRESHOLD);

    let idle: Vec<Reading> = readings
        .iter()
        .map(|r| Reading { key: r.key, last_ms: 5_000 + r.key.1 as u64, now_ms: 20_000 })
        .collect();
    manager.evict(&idle);
    assert_eq!(manager.active_ips(), CLEANUP_TARGET);
    for i in 0..CLEANUP_THRESHOLD {
        let kept = manager.known_limiter(numbered(i)).is_some();
        assert_eq!(kept, i >= CLEANUP_THRESHOLD - CLEANUP_TARGET);
    }
}

#[test]
fn readings_decide_what_a_cleanup_removes() {
    let mut manager =
        IpRateLimiterManager::with_cleanup_settings(RateLimiterConfig::default(), 1000, 200);
    for i in 0..3 {
        manager.get_limiter(numbered(i));
    }
    let readings = vec![
        Reading { key: numbered(0).key(), last_ms: 1000, now_ms: 1200 },
        Reading { key: numbered(1).key(), last_ms: 1000, now_ms: 1201 },
        Reading { key: numbered(9).key(), last_ms: 0, now_ms: 9999 },
    ];
    manager.remove_inactive(&readings);
    assert!(manager.known_limiter(numbered(0)).is_some());
    assert!(manager.known_limiter(numbered(1)).is_none());
    assert!(manager.known_limiter(numbered(2)).is_some());
    assert_eq!(manager.active_ips(), 2);
    assert_eq!(manager.stats().total_cleaned, 1);
}

#[test]
fn a_client_keeps_its_limiter() {
    let mut manager = IpRateLimiterManager::new(RateLimiterConfig::default());
    let first = manager.get_limiter(IpAddress::V6(1)).unwrap();
    let other = manager.get_limiter(IpAddress::V4(1)).unwrap();
    let again = manager.get_limiter(IpAddress::V6(1)).unwrap();
    assert!(Arc::ptr_eq(&first, &again));
    assert!(!Arc::ptr_eq(&first, &other));
    assert!(first.try_acquire_n(50));
    assert!(!again.try_acquire());
    assert!(other.try_acquire());
    assert_eq!(manager.active_ips(), 2);
}

#[test]
fn settings_are_kept() {
    let manager =
        IpRateLimiterManager::with_cleanup_settings(RateLimiterConfig::default(), 123, 456);
    assert_eq!(manager.cleanup_interval_ms(), 123);
    assert_eq!(manager.inactive_duration_ms(), 456);
    let standard = IpRateLimiterManager::new(RateLimiterConfig::default());
    assert_eq!(standard.cleanup_interval_ms(), 60_000);
    assert_eq!(standard.inactive_duration_ms(), 300_000);
    for parallelism in [0, 1, 2, 3, 64, 1_000, usize::MAX] {
        let mut wide = ConcurrentIpManager::with_parallelism(
            RateLimiterConfig::default(),
            7,
            8,
            parallelism,
        );
        assert_eq!((wide.cleanup_interval_ms(), wide.inactive_duration_ms()), (7, 8));
        assert!(wide.try_acquire(IpAddress::V4(3)));
        wide = ConcurrentIpManager::new(RateLimiterConfig::default());
        assert_eq!(wide.active_ips(), 0);
    }
}

#[test]
fn a_shared_manager_serves_many_clients() {
    let manager = ConcurrentIpManager::new(RateLimiterConfig {
        max_tokens: 3,
        refill_rate: 1,
        refill_interval_ms: 600_000,
        ordering: MemoryOrdering::AcquireRelease,
    });
    for i in 0..20 {
        for _ in 0..3 {
            assert!(manager.try_acquire(IpAddress::v4(10, 0, 0, i)));
        }
        assert!(!manager.try_acquire(IpAddress::v4(10, 0, 0, i)));
    }
    assert_eq!(manager.active_ips(), 20);
    manager.shrink_to_fit();
    manager.cleanup();
    assert_eq!(manager.stats().net_active(), 20);
    manager.clear();
    assert_eq!(manager.active_ips(), 0);
    assert_eq!(value(manager.stats().cleanup_ratio()), 1.0);
    assert!(manager.get_limiter(IpAddress::V6(5)).is_some());
}

#[test]
fn a_shared_manager_makes_room_and_lowers_its_flag() {
    let manager = ConcurrentIpManager::with_cleanup_settings(RateLimiterConfig::default(), 1000, 0);
    for i in 0..CLEANUP_THRESHOLD {
        manager.get_limiter(numbered(i));
    }
    wait_ms(1100);
    assert!(manager.get_limiter(IpAddress::v4(255, 255, 255, 250)).is_some());
    assert_eq!(manager.active_ips(), CLEANUP_TARGET + 1);
    manager.cleanup();
    assert!(manager.active_ips() <= 1);
}

#[test]
fn near_capacity_is_above_eight_tenths() {
    let stats = |active_ips: usize| ManagerStats {
        active_ips,
        total_created: 10,
        total_cleaned: 20,
        capacity_used: Ratio { part: active_ips as i128, whole: 10_000 },
        max_capacity: 10_000,
    };
    assert!(!stats(8_000).is_near_capacity());
    assert!(stats(8_001).is_near_capacity());
    assert_eq!(stats(0).net_active(), 0);
    assert_eq!(value(stats(0).clone().cleanup_ratio()), 2.0);
    let none = ManagerStats { total_created: 0, ..stats(0) };
    assert_eq!(value(none.cleanup_ratio()), 0.0);
}

#[test]
fn high_usage_raises_an_alert() {
    assert_eq!(usage_alert(0), None);
    assert_eq!(usage_alert(CLEANUP_THRESHOLD), None);
    assert_eq!(usage_alert(CLEANUP_THRESHOLD + 1), Some(90));
    assert_eq!(usage_alert(9_999), Some(99));
    assert_eq!(usage_alert(MAX_TRACKED_IPS), Some(100));
}

#[test]
fn only_a_passed_interval_calls_for_cleanup() {
    assert!(Wakeup::IntervalPassed.calls_for_cleanup());
    assert!(!Wakeup::StopRequested.calls_for_cleanup());
    assert!(!Wakeup::OwnerGone.calls_for_cleanup());
}

#[test]
fn only_large_tables_are_oversized() {
    assert!(!is_oversized(1024, 0));
    assert!(is_oversized(1025, 0));
    assert!(!is_oversized(4_000, 1_000));
    assert!(is_oversized(4_001, 1_000));
    assert!(!is_oversized(usize::MAX, usize::MAX));
}

#[test]
fn a_full_table_makes_room_for_a_new_client() {
    let mut manager =
        IpRateLimiterManager::with_cleanup_settings(RateLimiterConfig::default(), 1000, 50);
    for i in 0..MAX_TRACKED_IPS {
        assert!(manager.get_limiter(numbered(i)).is_some());
        assert!(manager.active_ips() <= MAX_TRACKED_IPS);
    }

    wait_ms(1100);

    let before = manager.active_ips();
    let newcomer = IpAddress::v4(255, 2, 3, 4);
    assert!(manager.get_limiter(newcomer).is_some());
    assert!(manager.known_limiter(newcomer).is_some());
    let kept = if before >= CLEANUP_THRESHOLD { CLEANUP_TARGET } else { before };
    assert_eq!(manager.active_ips(), kept + 1);
}

#[test]
fn an_eviction_of_a_full_table_lets_a_new_client_in() {
    let mut manager = IpRateLimiterManager::new(RateLimiterConfig::default());
    for i in 0..MAX_TRACKED_IPS {
        manager.get_limiter(numbered(i));
    }
    let newcomer = IpAddress::v4(255, 2, 3, 4);
    assert!(manager.get_limiter(newcomer).is_none());

    let idle: Vec<Reading> = manager
        .inspect(&mut Trace::new())
        .iter()
        .map(|r| Reading { key: r.key, last_ms: 0, now_ms: 150_000 })
        .collect();
    manager.evict(&idle);
    assert_eq!(manager.active_ips(), CLEANUP_TARGET);
    assert!(manager.get_limiter(newcomer).is_some());
    assert_eq!(manager.active_ips(), CLEANUP_TARGET + 1);
}

#[test]
fn a_request_leaves_other_clients_alone() {
    let mut manager = IpRateLimiterManager::new(RateLimiterConfig {
        max_tokens: 5,
        refill_rate: 1,
        refill_interval_ms: 600_000,
        ordering: MemoryOrdering::AcquireRelease,
    });
    let (ip1, ip2) = (IpAddress::V4(1), IpAddress::V4(2));
    let second = manager.get_limiter(ip2).unwrap();
    let last_ms = second.get_last_access_ms();
    let mut trace = Trace::new();
    for _ in 0..5 {
        assert!(manager.try_acquire_traced(ip1, &mut trace));
    }
    assert!(!manager.try_acquire_traced(ip1, &mut trace));
    assert!(!manager.try_acquire_n_traced(ip1, 2, &mut trace));
    let metrics = second.metrics();
    assert_eq!((metrics.current_tokens, metrics.total_acquired, metrics.total_rejected), (5, 0, 0));
    assert_eq!(second.get_last_access_ms(), last_ms);
    assert!(Arc::ptr_eq(&second, &manager.get_limiter_traced(ip2, &mut trace).unwrap()));
    assert!(manager.try_acquire_n(ip2, 5));
    assert_eq!(manager.active_ips(), 2);
}

#[test]
fn a_look_sees_every_client() {
    let mut manager = IpRateLimiterManager::new(RateLimiterConfig::default());
    for i in 0..3 {
        manager.get_limiter(numbered(i));
    }
    let mut trace = Trace::new();
    let at_once = manager.inspect(&mut trace);
    assert_eq!(at_once.len(), 3);
    for reading in &at_once {
        assert_eq!(reading.now_ms, at_once[0].now_ms);
        let number = reading.key.1 as usize;
        let limiter = manager.known_limiter(numbered(number)).unwrap();
        assert_eq!(reading.last_ms, limiter.get_last_access_ms());
        assert!(reading.idle_ms() < 1000);
    }
    assert_eq!(manager.inspect_each(&mut trace).len(), 3);
    manager.cleanup_traced(&mut trace);
    assert_eq!(manager.active_ips(), 3);
}

#[test]
fn recorded_turns_do_the_same() {
    let manager = ConcurrentIpManager::with_cleanup_settings(RateLimiterConfig::default(), 10, 20);
    let (mut record, mut trace) = (LockRecord::new(), Trace::new());
    let first = manager.get_limiter_traced(IpAddress::V4(9), &mut record, &mut trace).unwrap();
    let again = manager.get_limiter_traced(IpAddress::V4(9), &mut record, &mut trace).unwrap();
    assert!(Arc::ptr_eq(&first, &again));
    assert!(manager.try_acquire_n_traced(IpAddress::V4(9), 50, &mut record, &mut trace));
    assert!(!manager.try_acquire_n_traced(IpAddress::V4(9), 1, &mut record, &mut trace));
    assert_eq!(manager.active_ips_traced(&mut record), 1);
    assert_eq!(manager.stats_traced(&mut record).total_created, 1);
    manager.shrink_to_fit_traced(&mut record);
    wait_ms(30);
    manager.cleanup_traced(&mut record, &mut trace);
    assert_eq!(manager.active_ips(), 0);
    manager.get_limiter(IpAddress::V6(9));
    manager.clear_traced(&mut record);
    assert_eq!(manager.stats().total_cleaned, 2);
}

#[test]
fn making_room_does_not_stop_later_cleanups() {
    let manager = ConcurrentIpManager::with_cleanup_settings(RateLimiterConfig::default(), 10, 0);
    for i in 0..CLEANUP_THRESHOLD {
        assert!(manager.get_limiter(numbered(i)).is_some());
    }
    let (mut record, mut trace) = (LockRecord::new(), Trace::new());
    let newcomer = manager.get_limiter_traced(IpAddress::V6(1), &mut record, &mut trace);
    assert!(newcomer.is_some());
    assert!(manager.active_ips() > CLEANUP_TARGET);
    wait_ms(5);
    manager.cleanup();
    assert_eq!(manager.active_ips(), 0);
}

#[test]
fn a_released_guard_lowers_its_flag() {
    let flag = AtomicBool::new(true);
    let mut record = LockRecord::new();
    CleanupGuard { flag: &flag }.release(&mut record);
    assert!(!flag.load(Ordering::Acquire));
}

#[test]
fn new_clients_are_stamped_by_the_clock_of_the_manager() {
    let clock = TimeBase::from_readings(Instant::now(), None);
    let shared =
        ConcurrentIpManager::with_clock(RateLimiterConfig::default(), 60_000, 300_000, 4, clock);
    let limiter = shared.get_limiter(IpAddress::V4(1)).unwrap();
    assert!(limiter.get_last_access_ms() < 10_000);
    assert_eq!(limiter.get_last_access_ms(), limiter.creation().now_ms());
    let mut own =
        IpRateLimiterManager::with_clock(RateLimiterConfig::default(), 60_000, 300_000, 4, clock);
    own.get_limiter(IpAddress::V4(1));
    let readings = own.inspect(&mut Trace::new());
    assert_eq!(readings.len(), 1);
    assert!(readings[0].now_ms < 10_000);
    assert!(readings[0].last_ms <= readings[0].now_ms);
}
