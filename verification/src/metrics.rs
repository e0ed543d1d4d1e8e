//! Figures that describe how a limiter is doing.

use vstd::prelude::*;

verus! {

/// An exact fraction. A whole of zero stands for a figure that nothing was measured for yet.
#[derive(Debug, Clone, Copy, PartialEq, Eq, Structural)]
pub struct Ratio {
    /// Numerator.
    pub part: i128,
    /// Denominator.
    pub whole: u128,
}

impl Ratio {
    /// The fraction is larger than `numerator / denominator`.
    pub open spec fn exceeds(self, numerator: int, denominator: int) -> bool {
        self.part * denominator > self.whole * numerator
    }

    /// Whether the fraction is larger than `numerator / denominator`, a fraction of at most one.
    pub fn is_above(&self, numerator: u32, denominator: u32) -> (r: bool)
        requires
            0 < denominator,
            numerator <= denominator,
        ensures
            r == self.exceeds(numerator as int, denominator as int),
    {
        let n: u128 = numerator as u128;
        let d: u128 = denominator as u128;
        let quotient: u128 = self.whole / d;
        let remainder: u128 = self.whole % d;
        assert(quotient * d + remainder == self.whole) by (nonlinear_arith)
            requires
                quotient == self.whole / d,
                remainder == self.whole % d,
                d > 0,
        ;
        assert(quotient * n <= quotient * d) by (nonlinear_arith)
            requires
                n <= d,
        ;
        assert(remainder * n <= 0xffff_ffff * 0xffff_ffff) by (nonlinear_arith)
            requires
                remainder < d,
                d <= 0xffff_ffff,
                n <= 0xffff_ffff,
        ;
        let share: u128 = (remainder * n) / d;
        assert(share <= remainder) by (nonlinear_arith)
            requires
                share == (remainder * n) / d as int,
                n <= d,
                d > 0,
        ;
        let bound: u128 = quotient * n + share;
        proof {
            let product = self.whole * n;
            assert(product == quotient * n * d + remainder * n) by (nonlinear_arith)
                requires
                    product == self.whole * n,
                    self.whole == quotient * d + remainder,
            ;
            let rest = (remainder * n) % (d as int);
            assert(remainder * n == share * d + rest && 0 <= rest < d) by (nonlinear_arith)
                requires
                    share == (remainder * n) / d as int,
                    rest == (remainder * n) % (d as int),
                    d > 0,
            ;
            assert(product == bound * d + rest) by (nonlinear_arith)
                requires
                    product == quotient * n * d + remainder * n,
                    remainder * n == share * d + rest,
                    bound == quotient * n + share,
            ;
            let part = self.part as int;
            if part > bound {
                assert(part * d >= bound * d + d) by (nonlinear_arith)
                    requires
                        part >= bound + 1,
                        d > 0,
                ;
            } else {
                assert(part * d <= bound * d) by (nonlinear_arith)
                    requires
                        part <= bound,
                        d > 0,
                ;
            }
        }
        self.part >= 0 && self.part as u128 > bound
    }
}

/// How a limiter is doing.
#[derive(Debug, Clone, Copy, PartialEq, Eq, Structural)]
pub enum HealthStatus {
    /// Working normally.
    Healthy,
    /// Under some pressure, and still working.
    Degraded,
    /// Under severe pressure.
    Critical,
}

impl HealthStatus {
    /// Whether there is any problem.
    pub fn is_unhealthy(&self) -> (r: bool)
        ensures
            r == (*self != HealthStatus::Healthy),
    {
        !matches!(self, HealthStatus::Healthy)
    }

    /// What an operator should do.
    pub fn suggested_action(&self) -> (r: &'static str)
        ensures
            r@ == (match *self {
                HealthStatus::Healthy => "No action needed"@,
                HealthStatus::Degraded => "Monitor closely, consider increasing capacity"@,
                HealthStatus::Critical => "Immediate action required: scale up or reduce load"@,
            }),
    {
        match self {
            HealthStatus::Healthy => "No action needed",
            HealthStatus::Degraded => "Monitor closely, consider increasing capacity",
            HealthStatus::Critical => "Immediate action required: scale up or reduce load",
        }
    }

    /// The status as it is shown to people.
    pub fn label(&self) -> (r: &'static str)
        ensures
            r@ == (match *self {
                HealthStatus::Healthy => "✅ Healthy"@,
                HealthStatus::Degraded => "⚠️ Degraded"@,
                HealthStatus::Critical => "🔴 Critical"@,
            }),
    {
        match self {
            HealthStatus::Healthy => "✅ Healthy",
            HealthStatus::Degraded => "⚠️ Degraded",
            HealthStatus::Critical => "🔴 Critical",
        }
    }
}

/// A snapshot of the figures of a limiter.
#[derive(Debug)]
pub struct RateLimiterMetrics {
    /// Requests granted.
    pub total_acquired: u64,
    /// Requests refused.
    pub total_rejected: u64,
    /// Refills made.
    pub total_refills: u64,
    /// Tokens in the bucket.
    pub current_tokens: u64,
    /// Capacity of the bucket.
    pub max_tokens: u64,
    /// Rejections since the last acquisition.
    pub consecutive_rejections: u32,
    /// Longest wait seen, in nanoseconds.
    pub max_wait_time_ns: u64,
    /// Share of the requests that were refused.
    pub pressure_ratio: Ratio,
}

impl Clone for RateLimiterMetrics {
    fn clone(&self) -> (r: Self)
        ensures
            r == *self,
    {
        RateLimiterMetrics {
            total_acquired: self.total_acquired,
            total_rejected: self.total_rejected,
            total_refills: self.total_refills,
            current_tokens: self.current_tokens,
            max_tokens: self.max_tokens,
            consecutive_rejections: self.consecutive_rejections,
            max_wait_time_ns: self.max_wait_time_ns,
            pressure_ratio: self.pressure_ratio,
        }
    }
}

/// The fraction with the given terms.
pub open spec fn ratio(part: int, whole: int) -> Ratio {
    Ratio { part: part as i128, whole: whole as u128 }
}

impl RateLimiterMetrics {
    /// Requests seen.
    pub open spec fn requests(self) -> int {
        self.total_acquired + self.total_rejected
    }

    /// Fewer than half of the requests were granted, or the bucket is empty.
    pub open spec fn pressed(self) -> bool {
        self.total_acquired * 2 < self.requests() || self.current_tokens == 0
    }

    /// More than ten rejections in a row, or more than three in ten requests refused.
    pub open spec fn pressed_for_long(self) -> bool {
        self.consecutive_rejections > 10 || self.pressure_ratio.exceeds(3, 10)
    }

    /// Share of the requests that were granted; all of them, if there were none.
    pub open spec fn success_share(self) -> Ratio {
        if self.requests() == 0 {
            ratio(1, 1)
        } else {
            ratio(self.total_acquired as int, self.requests())
        }
    }

    /// Share of the requests that were refused; none, if there were none.
    pub open spec fn rejection_share(self) -> Ratio {
        if self.requests() == 0 {
            ratio(0, 1)
        } else {
            ratio(self.total_rejected as int, self.requests())
        }
    }

    /// Share of the capacity that is in use; none for a bucket without capacity.
    pub open spec fn used_share(self) -> Ratio {
        if self.max_tokens == 0 {
            ratio(0, 1)
        } else {
            ratio(self.max_tokens - self.current_tokens, self.max_tokens as int)
        }
    }

    /// Per cent of the capacity that is left; none for a bucket without capacity.
    pub open spec fn available_per_cent(self) -> Ratio {
        if self.max_tokens == 0 {
            ratio(0, 1)
        } else {
            ratio(self.current_tokens * 100, self.max_tokens as int)
        }
    }

    /// Share of the requests that were granted; all of them, if there were none.
    pub fn success_rate(&self) -> (r: Ratio)
        ensures
            r == self.success_share(),
    {
        let requests: u128 = self.total_acquired as u128 + self.total_rejected as u128;
        if requests == 0 {
            Ratio { part: 1, whole: 1 }
        } else {
            Ratio { part: self.total_acquired as i128, whole: requests }
        }
    }

    /// Share of the requests that were refused; none, if there were none.
    pub fn rejection_rate(&self) -> (r: Ratio)
        ensures
            r == self.rejection_share(),
    {
        let granted: Ratio = self.success_rate();
        Ratio { part: granted.whole as i128 - granted.part, whole: granted.whole }
    }

    /// Whether fewer than half of the requests were granted, or the bucket is empty.
    pub fn is_under_pressure(&self) -> (r: bool)
        ensures
            r == self.pressed(),
    {
        let granted: Ratio = self.success_rate();
        granted.part * 2 < granted.whole as i128 || self.current_tokens == 0
    }

    /// Share of the capacity that is in use; none for a bucket without capacity.
    pub fn utilization(&self) -> (r: Ratio)
        ensures
            r == self.used_share(),
    {
        if self.max_tokens == 0 {
            Ratio { part: 0, whole: 1 }
        } else {
            Ratio {
                part: self.max_tokens as i128 - self.current_tokens as i128,
                whole: self.max_tokens as u128,
            }
        }
    }

    /// Per cent of the capacity that is left; none for a bucket without capacity.
    pub fn availability_percentage(&self) -> (r: Ratio)
        ensures
            r == self.available_per_cent(),
    {
        if self.max_tokens == 0 {
            Ratio { part: 0, whole: 1 }
        } else {
            Ratio { part: self.current_tokens as i128 * 100, whole: self.max_tokens as u128 }
        }
    }

    /// Whether there were more than ten rejections in a row, or more than three in ten requests
    /// were refused.
    pub fn is_under_sustained_pressure(&self) -> (r: bool)
        ensures
            r == self.pressed_for_long(),
    {
        self.consecutive_rejections > 10 || self.pressure_ratio.is_above(3, 10)
    }

    /// Longest wait in microseconds.
    pub fn max_wait_time_us(&self) -> (r: Ratio)
        ensures
            r == ratio(self.max_wait_time_ns as int, 1_000),
    {
        Ratio { part: self.max_wait_time_ns as i128, whole: 1_000 }
    }

    /// Longest wait in milliseconds.
    pub fn max_wait_time_ms(&self) -> (r: Ratio)
        ensures
            r == ratio(self.max_wait_time_ns as int, 1_000_000),
    {
        Ratio { part: self.max_wait_time_ns as i128, whole: 1_000_000 }
    }

    /// Requests seen.
    pub fn total_requests(&self) -> (r: u64)
        requires
            self.requests() <= u64::MAX,
        ensures
            r == self.requests(),
    {
        self.total_acquired + self.total_rejected
    }

    /// The health that the figures show.
    pub fn health_status(&self) -> (r: HealthStatus)
        ensures
            r == (if self.pressed_for_long() {
                HealthStatus::Critical
            } else if self.pressed() {
                HealthStatus::Degraded
            } else {
                HealthStatus::Healthy
            }),
    {
        if self.is_under_sustained_pressure() {
            HealthStatus::Critical
        } else if self.is_under_pressure() {
            HealthStatus::Degraded
        } else {
            HealthStatus::Healthy
        }
    }
}

/// The shares of granted and of refused requests make up the whole.
pub proof fn law_shares_make_a_whole(metrics: RateLimiterMetrics)
    ensures
        metrics.success_share().whole == metrics.rejection_share().whole,
        metrics.success_share().part + metrics.rejection_share().part
            == metrics.success_share().whole,
{
}

/// What is in use and what is left make up a hundred per cent of a bucket with capacity.
pub proof fn law_use_and_rest_make_a_whole(metrics: RateLimiterMetrics)
    requires
        metrics.max_tokens > 0,
    ensures
        metrics.used_share().whole == metrics.available_per_cent().whole,
        metrics.used_share().part * 100 + metrics.available_per_cent().part
            == metrics.used_share().whole * 100,
{
}

/// What a snapshot comes to, from its counters: the granted and the refused requests are set against
/// all requests, and all count as granted while there were none.
pub proof fn law_shares_are_of_all_requests(
    metrics: RateLimiterMetrics,
    success: Ratio,
    rejection: Ratio,
    all: u64,
)
    requires
        call_ensures(RateLimiterMetrics::success_rate, (&metrics,), success),
        call_ensures(RateLimiterMetrics::rejection_rate, (&metrics,), rejection),
        call_ensures(RateLimiterMetrics::total_requests, (&metrics,), all),
    ensures
        all == metrics.total_acquired + metrics.total_rejected,
        success.whole > 0,
        rejection.whole > 0,
        success.part * all == metrics.total_acquired * success.whole,
        rejection.part * all == metrics.total_rejected * rejection.whole,
        all == 0 ==> success.part == success.whole && rejection.part == 0,
{
    let (a, r) = (metrics.total_acquired, metrics.total_rejected);
    assert(a * (a + r) == (a + r) * a && r * (a + r) == (a + r) * r) by (nonlinear_arith);
    assert(0 * success.whole == 0) by (nonlinear_arith);
    assert(0 * rejection.whole == 0) by (nonlinear_arith);
}

/// A limiter is in a critical state when more than ten requests in a row were refused or the
/// pressure is above three tenths; short of that it is degraded when more requests were refused than
/// granted or the bucket is empty, and else healthy.
pub proof fn law_health_follows_pressure(
    metrics: RateLimiterMetrics,
    status: HealthStatus,
    unhealthy: bool,
    pressed: bool,
    for_long: bool,
)
    requires
        call_ensures(RateLimiterMetrics::health_status, (&metrics,), status),
        call_ensures(HealthStatus::is_unhealthy, (&status,), unhealthy),
        call_ensures(RateLimiterMetrics::is_under_pressure, (&metrics,), pressed),
        call_ensures(RateLimiterMetrics::is_under_sustained_pressure, (&metrics,), for_long),
    ensures
        for_long <==> metrics.consecutive_rejections > 10 || 10 * metrics.pressure_ratio.part > 3
            * metrics.pressure_ratio.whole,
        pressed <==> metrics.total_rejected > metrics.total_acquired || metrics.current_tokens == 0,
        status is Critical <==> for_long,
        status is Degraded <==> !for_long && pressed,
        status is Healthy <==> !for_long && !pressed,
        unhealthy <==> for_long || pressed,
{
}

/// The share of the capacity in use and the per cent that is left are those of the tokens in the
/// bucket; both are zero for a bucket without capacity. Waits are the same in every unit.
pub proof fn law_use_and_waits_are_worked_out(
    metrics: RateLimiterMetrics,
    used: Ratio,
    left: Ratio,
    us: Ratio,
    ms: Ratio,
)
    requires
        call_ensures(RateLimiterMetrics::utilization, (&metrics,), used),
        call_ensures(RateLimiterMetrics::availability_percentage, (&metrics,), left),
        call_ensures(RateLimiterMetrics::max_wait_time_us, (&metrics,), us),
        call_ensures(RateLimiterMetrics::max_wait_time_ms, (&metrics,), ms),
    ensures
        used.whole > 0,
        left.whole > 0,
        us.whole > 0,
        ms.whole > 0,
        metrics.max_tokens == 0 ==> used.part == 0 && left.part == 0,
        metrics.max_tokens > 0 ==> used.part * metrics.max_tokens == (metrics.max_tokens
            - metrics.current_tokens) * used.whole,
        metrics.max_tokens > 0 ==> left.part * metrics.max_tokens == 100 * metrics.current_tokens
            * left.whole,
        us.part * 1_000 == metrics.max_wait_time_ns * us.whole,
        ms.part * 1_000_000 == metrics.max_wait_time_ns * ms.whole,
{
}

/// What an operator is told about a status.
pub proof fn law_advice_fits_the_status(
    status: HealthStatus,
    action: &'static str,
    label: &'static str,
)
    requires
        call_ensures(HealthStatus::suggested_action, (&status,), action),
        call_ensures(HealthStatus::label, (&status,), label),
    ensures
        status is Healthy ==> action@ == "No action needed"@ && label@ == "✅ Healthy"@,
        status is Degraded ==> action@ == "Monitor closely, consider increasing capacity"@ && label@
            == "⚠️ Degraded"@,
        status is Critical ==> action@ == "Immediate action required: scale up or reduce load"@
            && label@ == "🔴 Critical"@,
{
}

/// A fraction is above another exactly when it is after both are brought to one denominator.
pub proof fn law_fractions_are_compared(
    share: Ratio,
    numerator: u32,
    denominator: u32,
    above: bool,
)
    requires
        call_ensures(Ratio::is_above, (&share, numerator, denominator), above),
    ensures
        above <==> share.part * denominator > numerator * share.whole,
{
    assert(numerator * share.whole == share.whole * numerator) by (nonlinear_arith);
}

} // verus!
