use rater::bucket::{
    due_periods, next_refill_time, passed_more_than, pauses_after, reduced_rate, time_since,
    tokens_to_add, top_up,
};
use rater::eviction::{rank, Reading};
use rater::{IpAddress, RateLimiterConfig};

#[test]
fn whole_periods_are_due() {
    assert_eq!(due_periods(999, 1000), 0);
    assert_eq!(due_periods(1000, 1000), 1);
    assert_eq!(due_periods(3500, 1000), 3);
    assert_eq!(due_periods(u64::MAX, 1000), 100);
    assert_eq!(due_periods(100_000, 1000), 100);
    assert_eq!(due_periods(99_999, 1000), 99);
}

#[test]
fn refill_time_moves_by_whole_periods() {
    assert_eq!(next_refill_time(10_000, 13_500, 1000), 13_000);
    assert_eq!(next_refill_time(2_000, 1_999, 1000), 2_000);
    assert_eq!(next_refill_time(u64::MAX - 99, 100, 150), u64::MAX - 99);
    assert_eq!(next_refill_time(u64::MAX - 99, u64::MAX, 50), u64::MAX - 49);
    assert_eq!(next_refill_time(0, 3_600_999, 1000), 3_600_000);
}

#[test]
fn refills_earn_the_rate() {
    assert_eq!(tokens_to_add(10, 3, 1000), 30);
    assert_eq!(tokens_to_add(10, 3, 20), 20);
    assert_eq!(tokens_to_add(u32::MAX, 100, u64::MAX), 429_496_729_500);
    assert_eq!(tokens_to_add(7, 1_000, u64::MAX), 7_000);
    assert_eq!(tokens_to_add(u32::MAX, u64::MAX, u64::MAX), u64::MAX);
}

#[test]
fn buckets_fill_up_to_their_capacity() {
    assert_eq!(top_up(3, 4, 10), 7);
    assert_eq!(top_up(8, 4, 10), 10);
    assert_eq!(top_up(10, 0, 10), 10);
    assert_eq!(top_up(u64::MAX - 1, u64::MAX, u64::MAX), u64::MAX);
}

#[test]
fn the_rate_adapts_to_pressure() {
    assert_eq!(reduced_rate(100, 0, 0), 100);
    assert_eq!(reduced_rate(100, 49, 51), 80);
    assert_eq!(reduced_rate(100, 50, 50), 90);
    assert_eq!(reduced_rate(100, 69, 31), 90);
    assert_eq!(reduced_rate(100, 70, 30), 100);
    assert_eq!(reduced_rate(u32::MAX, 0, u64::MAX), 3_435_973_836);
    assert_eq!(reduced_rate(u32::MAX, u64::MAX, u64::MAX), 3_865_470_565);
}

#[test]
fn a_reading_that_was_overtaken_shows_no_time_passed() {
    assert_eq!(time_since(1100, 1000), 100);
    assert_eq!(time_since(1000, 1000), 0);
    assert_eq!(time_since(1999, 2000), 0);
    assert_eq!(due_periods(time_since(1999, 2000), 1000), 0);
    assert!(!passed_more_than(1100, 1000, 100));
    assert!(passed_more_than(1101, 1000, 100));
    assert!(!passed_more_than(999, 1000, 0));
    assert!(!passed_more_than(50, u64::MAX - 50, 100));
}

#[test]
fn pauses_double_up_to_sixteen() {
    let pauses: Vec<u32> = (1..=10).map(pauses_after).collect();
    assert_eq!(pauses, vec![1, 1, 1, 1, 2, 4, 8, 16, 16, 16]);
}

fn reading(number: u128, last_ms: u64, now_ms: u64) -> Reading {
    Reading { key: (4, number), last_ms, now_ms }
}

#[test]
fn the_longest_idle_come_first() {
    let readings = vec![
        reading(0, 900, 1000),
        reading(1, 100, 1000),
        reading(2, 999, 1000),
        reading(3, 500, 1000),
        reading(4, 100, 1000),
        reading(5, 2000, 1000),
    ];
    assert_eq!(rank(&readings, 100), vec![1, 4, 3, 0]);
    assert_eq!(rank(&readings, 0), vec![1, 4, 3, 0, 2, 5]);
    assert_eq!(rank(&readings, 901), Vec::<usize>::new());
}

#[test]
fn readings_tell_idle_times() {
    let ahead = reading(1, 2000, 1000);
    assert_eq!(ahead.idle_ms(), 0);
    assert!(!ahead.has_been_inactive(1000));
    assert!(!ahead.has_been_inactive(0));
    let behind = reading(1, 1000, 2000);
    assert_eq!(behind.idle_ms(), 1000);
    assert!(behind.has_been_inactive(999));
    assert!(!behind.has_been_inactive(1000));
}

#[test]
fn addresses_have_keys_of_their_own() {
    assert_eq!(IpAddress::v4(192, 168, 1, 1), IpAddress::V4(0xc0a8_0101));
    assert_eq!(IpAddress::v4(255, 255, 255, 255).key(), (4, 0xffff_ffff));
    assert_eq!(IpAddress::V6(0xffff_ffff).key(), (6, 0xffff_ffff));
    assert_ne!(IpAddress::V4(1).key(), IpAddress::V6(1).key());
}

#[test]
fn presets_are_valid() {
    assert!(RateLimiterConfig::per_second(1).validate().is_ok());
    assert!(RateLimiterConfig::per_second(u32::MAX / 2).validate_for(64).is_ok());
    assert!(RateLimiterConfig::per_minute(42).validate_for(32).is_ok());
    assert!(RateLimiterConfig::default().validate_for(32).is_ok());
}

#[test]
fn bursts_are_computed_in_full_width() {
    let config = RateLimiterConfig::per_second(3_000_000_000);
    assert_eq!(config.max_tokens, 6_000_000_000);
    assert_eq!(config.refill_rate, 3_000_000_000);
    let wide = config.with_burst_multiplier(u32::MAX);
    assert_eq!(wide.max_tokens, 12_884_901_885_000_000_000);
}
