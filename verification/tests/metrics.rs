use rater::{HealthStatus, Ratio, RateLimiterMetrics};

fn value(ratio: Ratio) -> f64 {
    ratio.part as f64 / ratio.whole as f64
}

fn tenths(part: i128) -> Ratio {
    Ratio { part, whole: 10 }
}

#[test]
fn test_metrics_calculations() {
    let metrics = RateLimiterMetrics {
        total_acquired: 80,
        total_rejected: 20,
        total_refills: 10,
        current_tokens: 25,
        max_tokens: 100,
        consecutive_rejections: 5,
        max_wait_time_ns: 1_000_000,
        pressure_ratio: tenths(2),
    };

    assert_eq!(value(metrics.success_rate()), 0.8);
    assert_eq!(value(metrics.utilization()), 0.75);
    assert!(!metrics.is_under_pressure());
    assert_eq!(metrics.health_status(), HealthStatus::Healthy);
}

#[test]
fn test_health_status() {
    let metrics = RateLimiterMetrics {
        total_acquired: 40,
        total_rejected: 60,
        total_refills: 10,
        current_tokens: 0,
        max_tokens: 100,
        consecutive_rejections: 15,
        max_wait_time_ns: 0,
        pressure_ratio: tenths(6),
    };

    assert!(metrics.is_under_pressure());
    assert!(metrics.is_under_sustained_pressure());
    assert_eq!(metrics.health_status(), HealthStatus::Critical);
}

#[test]
fn test_edge_cases() {
    let metrics = RateLimiterMetrics {
        total_acquired: 0,
        total_rejected: 0,
        total_refills: 0,
        current_tokens: 50,
        max_tokens: 100,
        consecutive_rejections: 0,
        max_wait_time_ns: 0,
        pressure_ratio: tenths(0),
    };

    assert_eq!(value(metrics.success_rate()), 1.0);
    assert_eq!(value(metrics.utilization()), 0.5);
    assert!(!metrics.is_under_pressure());

    let metrics = RateLimiterMetrics {
        total_acquired: 0,
        total_rejected: 0,
        total_refills: 0,
        current_tokens: 0,
        max_tokens: 0,
        consecutive_rejections: 0,
        max_wait_time_ns: 0,
        pressure_ratio: tenths(0),
    };

    assert_eq!(value(metrics.utilization()), 0.0);
    assert_eq!(value(metrics.availability_percentage()), 0.0);
}

#[test]
fn test_health_status_methods() {
    assert!(!HealthStatus::Healthy.is_unhealthy());
    assert!(HealthStatus::Degraded.is_unhealthy());
    assert!(HealthStatus::Critical.is_unhealthy());

    assert_eq!(HealthStatus::Healthy.suggested_action(), "No action needed");
    assert!(HealthStatus::Degraded
        .suggested_action()
        .contains("Monitor"));
    assert!(HealthStatus::Critical
        .suggested_action()
        .contains("Immediate"));
}

#[test]
fn test_health_status_display() {
    let healthy = HealthStatus::Healthy.label();
    assert!(healthy.contains("Healthy"));

    let degraded = HealthStatus::Degraded.label();
    assert!(degraded.contains("Degraded"));

    let critical = HealthStatus::Critical.label();
    assert!(critical.contains("Critical"));
}

#[test]
fn test_metrics_time_conversions() {
    let metrics = RateLimiterMetrics {
        total_acquired: 0,
        total_rejected: 0,
        total_refills: 0,
        current_tokens: 0,
        max_tokens: 100,
        consecutive_rejections: 0,
        max_wait_time_ns: 1_500_000_000,
        pressure_ratio: tenths(0),
    };

    assert_eq!(value(metrics.max_wait_time_us()), 1_500_000.0);
    assert_eq!(value(metrics.max_wait_time_ms()), 1_500.0);
}

#[test]
fn test_total_requests() {
    let metrics = RateLimiterMetrics {
        total_acquired: 75,
        total_rejected: 25,
        total_refills: 0,
        current_tokens: 0,
        max_tokens: 100,
        consecutive_rejections: 0,
        max_wait_time_ns: 0,
        pressure_ratio: tenths(0),
    };

    assert_eq!(metrics.total_requests(), 100);
}

#[test]
fn test_degraded_status() {
    let metrics = RateLimiterMetrics {
        total_acquired: 30,
        total_rejected: 70,
        total_refills: 0,
        current_tokens: 5,
        max_tokens: 100,
        consecutive_rejections: 3,
        max_wait_time_ns: 0,
        pressure_ratio: tenths(1),
    };

    assert!(metrics.is_under_pressure());
    assert!(!metrics.is_under_sustained_pressure());
    assert_eq!(metrics.health_status(), HealthStatus::Degraded);
}

#[test]
fn test_degraded_by_empty_tokens() {
    let metrics = RateLimiterMetrics {
        total_acquired: 90,
        total_rejected: 10,
        total_refills: 5,
        current_tokens: 0,
        max_tokens: 100,
        consecutive_rejections: 2,
        max_wait_time_ns: 0,
        pressure_ratio: tenths(1),
    };

    assert!(metrics.is_under_pressure());
    assert_eq!(metrics.health_status(), HealthStatus::Degraded);
}

#[test]
fn test_rejection_rate() {
    let metrics = RateLimiterMetrics {
        total_acquired: 60,
        total_rejected: 40,
        total_refills: 0,
        current_tokens: 50,
        max_tokens: 100,
        consecutive_rejections: 0,
        max_wait_time_ns: 0,
        pressure_ratio: tenths(0),
    };

    assert!((value(metrics.rejection_rate()) - 0.4).abs() < 0.001);
    assert!((value(metrics.success_rate()) - 0.6).abs() < 0.001);
}

#[test]
fn test_sustained_pressure_by_consecutive_rejections() {
    let metrics = RateLimiterMetrics {
        total_acquired: 90,
        total_rejected: 10,
        total_refills: 0,
        current_tokens: 0,
        max_tokens: 100,
        consecutive_rejections: 15,
        max_wait_time_ns: 0,
        pressure_ratio: Ratio { part: 5, whole: 100 },
    };

    assert!(metrics.is_under_sustained_pressure());
    assert_eq!(metrics.health_status(), HealthStatus::Critical);
}

#[test]
fn test_sustained_pressure_by_pressure_ratio() {
    let metrics = RateLimiterMetrics {
        total_acquired: 60,
        total_rejected: 40,
        total_refills: 0,
        current_tokens: 50,
        max_tokens: 100,
        consecutive_rejections: 0,
        max_wait_time_ns: 0,
        pressure_ratio: tenths(4),
    };

    assert!(metrics.is_under_sustained_pressure());
}

#[test]
fn test_utilization_boundaries() {
    let full = RateLimiterMetrics {
        total_acquired: 0,
        total_rejected: 0,
        total_refills: 0,
        current_tokens: 100,
        max_tokens: 100,
        consecutive_rejections: 0,
        max_wait_time_ns: 0,
        pressure_ratio: tenths(0),
    };
    assert_eq!(value(full.utilization()), 0.0);
    assert_eq!(value(full.availability_percentage()), 100.0);

    let empty = RateLimiterMetrics {
        total_acquired: 0,
        total_rejected: 0,
        total_refills: 0,
        current_tokens: 0,
        max_tokens: 100,
        consecutive_rejections: 0,
        max_wait_time_ns: 0,
        pressure_ratio: tenths(0),
    };
    assert_eq!(value(empty.utilization()), 1.0);
    assert_eq!(value(empty.availability_percentage()), 0.0);
}

#[test]
fn test_metrics_clone() {
    let metrics = RateLimiterMetrics {
        total_acquired: 42,
        total_rejected: 13,
        total_refills: 7,
        current_tokens: 30,
        max_tokens: 100,
        consecutive_rejections: 2,
        max_wait_time_ns: 500,
        pressure_ratio: tenths(1),
    };
    let cloned = metrics.clone();

    assert_eq!(cloned.total_acquired, 42);
    assert_eq!(cloned.total_rejected, 13);
    assert_eq!(cloned.current_tokens, 30);
}

#[test]
fn test_health_status_clone_eq() {
    let h1 = HealthStatus::Healthy;
    let h2 = h1;
    assert_eq!(h1, h2);

    let h3 = HealthStatus::Critical;
    assert_ne!(h1, h3);
}

#[test]
fn a_ratio_is_compared_exactly() {
    assert!(!tenths(3).is_above(3, 10));
    assert!(Ratio { part: 31, whole: 100 }.is_above(3, 10));
    assert!(!Ratio { part: -1, whole: 10 }.is_above(0, 10));
    assert!(!Ratio { part: 0, whole: 0 }.is_above(3, 10));
    assert!(Ratio { part: i128::MAX, whole: u128::MAX }.is_above(49, 100));
    assert!(!Ratio { part: i128::MAX, whole: u128::MAX }.is_above(50, 100));
}

#[test]
fn exactly_three_in_ten_is_not_yet_pressure() {
    let metrics = RateLimiterMetrics {
        total_acquired: 70,
        total_rejected: 30,
        total_refills: 0,
        current_tokens: 1,
        max_tokens: 100,
        consecutive_rejections: 10,
        max_wait_time_ns: 0,
        pressure_ratio: tenths(3),
    };
    assert!(!metrics.is_under_sustained_pressure());
    assert_eq!(metrics.health_status(), HealthStatus::Healthy);
}

#[test]
fn labels_are_exact() {
    assert_eq!(HealthStatus::Healthy.label(), "✅ Healthy");
    assert_eq!(HealthStatus::Degraded.label(), "⚠️ Degraded");
    assert_eq!(HealthStatus::Critical.label(), "🔴 Critical");
    assert_eq!(
        HealthStatus::Degraded.suggested_action(),
        "Monitor closely, consider increasing capacity"
    );
    assert_eq!(
        HealthStatus::Critical.suggested_action(),
        "Immediate action required: scale up or reduce load"
    );
}
