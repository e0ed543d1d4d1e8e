use rater::{MemoryOrdering, RateLimiterBuilder, MSRV, VERSION};

#[test]
fn test_builder() {
    let limiter = RateLimiterBuilder::new()
        .max_tokens(50)
        .refill_rate(5)
        .refill_interval_ms(1000)
        .build();

    assert_eq!(limiter.available_tokens(), 50);
}

#[test]
fn test_builder_validation() {
    let result = RateLimiterBuilder::new().max_tokens(0).try_build();

    assert!(result.is_err());
}

#[test]
fn test_builder_default() {
    let builder = RateLimiterBuilder::default();
    let limiter = builder.build();
    assert!(limiter.available_tokens() > 0);
}

#[test]
fn test_builder_chain() {
    let limiter = RateLimiterBuilder::new()
        .max_tokens(100)
        .refill_rate(10)
        .refill_interval_ms(500)
        .memory_ordering(MemoryOrdering::Sequential)
        .build();

    assert_eq!(limiter.available_tokens(), 100);
}

#[test]
fn test_builder_try_build_errors() {
    let result = RateLimiterBuilder::new().refill_rate(0).try_build();
    assert!(result.is_err());

    let result = RateLimiterBuilder::new().max_tokens(0).try_build();
    assert!(result.is_err());

    let result = RateLimiterBuilder::new().refill_interval_ms(0).try_build();
    assert!(result.is_err());

    let result = RateLimiterBuilder::new()
        .max_tokens(5)
        .refill_rate(10)
        .try_build();
    assert!(result.is_err());
}

#[test]
fn test_constants() {
    assert!(!VERSION.is_empty());
    assert_eq!(MSRV, "1.70.0");
}

#[test]
fn a_refused_build_names_the_problem() {
    let result = RateLimiterBuilder::new().refill_rate(51).try_build();
    assert_eq!(result.err(), Some("refill_rate should not exceed max_tokens"));
}

#[test]
fn a_cloned_builder_builds_the_same_limiter() {
    let builder = RateLimiterBuilder::new().max_tokens(70);
    let copy = builder.clone();
    assert_eq!(builder.build().get_max_tokens(), 70);
    assert_eq!(copy.build().get_max_tokens(), 70);
}
