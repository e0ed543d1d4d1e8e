use rater::cells::CacheAligned;
use rater::clock::{advance_ms, advance_ns, advance_us, TimeBase};
use rater::{cpu_relax, current_time_ms, current_time_ns, current_time_us};
use std::sync::atomic::{AtomicU64, Ordering};
use std::time::{Duration, Instant};

const CACHE_LINE_SIZE: usize = 64;

#[test]
fn test_cache_line_size() {
    let size = CACHE_LINE_SIZE;
    assert!(size >= 32);
    assert!(size <= 256);
    assert!(size.is_power_of_two());
}

#[test]
fn test_cache_aligned() {
    let aligned = CacheAligned::new(AtomicU64::new(42));

    assert_eq!(aligned.0.load(Ordering::Relaxed), 42);
}

#[test]
fn test_cache_aligned_methods() {
    let mut aligned = CacheAligned::new(42u64);

    assert_eq!(aligned.0, 42);
    aligned.0 = 100;
    assert_eq!(aligned.0, 100);

    let inner = aligned.0;
    assert_eq!(inner, 100);
}

#[test]
fn test_cache_aligned_default() {
    let aligned: CacheAligned<u64> = CacheAligned::default();
    assert_eq!(aligned.0, 0);
}

#[test]
fn test_cache_aligned_clone() {
    let original = CacheAligned::new(42u64);
    let cloned = original.clone();
    assert_eq!(cloned.0, 42);
}

#[test]
fn test_cache_aligned_size() {
    let size = std::mem::size_of::<CacheAligned<AtomicU64>>();
    assert!(
        size >= CACHE_LINE_SIZE,
        "CacheAligned should be at least {} bytes, got {}",
        CACHE_LINE_SIZE,
        size
    );
}

#[test]
fn test_cpu_relax() {
    for _ in 0..100 {
        cpu_relax();
    }
}

#[test]
fn test_time_no_overflow() {
    let ms = current_time_ms();
    let us = current_time_us();
    let ns = current_time_ns();

    assert_ne!(ms, u64::MAX);
    assert_ne!(us, u64::MAX);
    assert_ne!(ns, u64::MAX);

    assert!(ms > 1_577_836_800_000);
    assert!(us > 1_577_836_800_000_000);
    assert!(ns > 1_577_836_800_000_000_000);
}

#[test]
fn test_time_precision_relationships() {
    let ms = current_time_ms();
    let us = current_time_us();
    let ns = current_time_ns();

    let us_from_ms = ms * 1000;
    assert!(
        us >= us_from_ms && us < us_from_ms + 10_000,
        "us={} vs ms*1000={}",
        us,
        us_from_ms
    );

    let ns_from_us = us * 1000;
    assert!(
        ns >= ns_from_us && ns < ns_from_us + 10_000_000,
        "ns={} vs us*1000={}",
        ns,
        ns_from_us
    );
}

#[test]
fn test_time_helpers_are_public() {
    let ms = rater::current_time_ms();
    let us = rater::current_time_us();
    let ns = rater::current_time_ns();

    assert!(ms > 0);
    assert!(us > 0);
    assert!(ns > 0);
    assert!(us > ms);
    assert!(ns > us);
}

#[test]
fn test_cpu_relax_is_public() {
    rater::cpu_relax();
}

#[test]
fn time_moves_on_by_the_elapsed_time() {
    assert_eq!(advance_ms(1_000, 2_999_999), 1_002);
    assert_eq!(advance_us(1_000, 2_999_999), 3_999);
    assert_eq!(advance_ns(1_000, 2_999_999), 3_999_999);
}

#[test]
fn milliseconds_wrap_and_finer_units_saturate() {
    assert_eq!(advance_ms(u64::MAX, 2_000_000), 1);
    assert_eq!(advance_us(u64::MAX, 2_000), u64::MAX);
    assert_eq!(advance_ns(u64::MAX, 0), u64::MAX);
    assert_eq!(advance_us(0, (u64::MAX as u128 + 6) * 1_000), 5);
}

#[test]
fn a_time_base_never_runs_backwards() {
    let base = TimeBase::new();
    let first = base.now_ns();
    let second = base.now_ns();
    assert!(second >= first);
    assert!(base.now_us() >= base.now_ms());
}

fn wait_ms(duration_ms: u64) {
    let start = Instant::now();
    while start.elapsed() < Duration::from_millis(duration_ms) {}
}

#[test]
fn test_time_functions() {
    let ms1 = current_time_ms();
    let us1 = current_time_us();
    let ns1 = current_time_ns();

    wait_ms(10);

    let ms2 = current_time_ms();
    let us2 = current_time_us();
    let ns2 = current_time_ns();

    assert!(ms2 >= ms1);
    assert!(us2 > us1);
    assert!(ns2 > ns1);

    assert!(us1 >= ms1 * 1000);
    assert!(ns1 >= us1 * 1000);
}

#[test]
fn test_time_monotonicity() {
    let mut last_ms = 0;
    let mut last_us = 0;
    let mut last_ns = 0;

    for _ in 0..10 {
        let ms = current_time_ms();
        let us = current_time_us();
        let ns = current_time_ns();

        assert!(ms >= last_ms);
        assert!(us >= last_us);
        assert!(ns >= last_ns);

        last_ms = ms;
        last_us = us;
        last_ns = ns;

        wait_ms(1);
    }
}

#[test]
fn test_time_elapsed_accuracy() {
    let before_ms = current_time_ms();
    wait_ms(50);
    let after_ms = current_time_ms();

    let elapsed = after_ms - before_ms;
    assert!(
        (40..=100).contains(&elapsed),
        "Expected ~50ms elapsed, got {}ms",
        elapsed
    );
}

#[test]
fn a_base_starts_at_the_readings() {
    let now = Instant::now();
    let day_ns: u64 = 86_400 * 1_000_000_000;
    let base = TimeBase::from_readings(now, Some(day_ns as u128 + 1_234_567));
    assert!(base.now_us() >= 86_400_001_234);
    assert!(base.now_us() < 86_400_001_234 + 10_000_000);
    assert!(base.now_ms() >= 86_400_001);
    let before_epoch = TimeBase::from_readings(now, None);
    assert!(before_epoch.now_ns() < 10_000_000_000);
}
