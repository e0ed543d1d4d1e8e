//! The limiter as a single thread sees it.
//!
//! When no other thread comes in between, an operation has one outcome for each memory and
//! clock reading. This module says which, and proves it of the runs.

use crate::bucket::{
    adaptive_rate, elapsed_ms, periods_due, refill_amount, refill_time, topped_up, under_pressure,
    LAST_ACCESS_UPDATE_INTERVAL_MS,
};
use crate::clock::lesser;
use crate::config::{RateLimiterConfig, MAX_REFILL_PERIODS};
use crate::effects::lemma_claimed_time;
use crate::history::{lemma_explains_joins, lemma_steady_joins, steady, Access, Cell, Memory};
use crate::metrics::{ratio, RateLimiterMetrics};
use crate::runs::{
    acquire_run, acquisition_run, available_parts, available_run, clock_of, due_refill_run,
    granted_parts, inactive_run, last_access_run, loaded, metrics_run, payout_run, pour_end,
    pour_run, pressure, pressure_run, refill_run, rejection_run, reset_run, take_many_attempts,
    take_many_parts, take_many_run, take_one_attempts, take_one_parts, take_one_run,
    take_one_slowly_run, touch_run,
};
use vstd::prelude::*;

verus! {

impl Memory {
    /// A granted request was counted.
    pub open spec fn granted(self) -> Memory {
        Memory {
            total_acquired: Cell::TotalAcquired.successor(self.total_acquired),
            consecutive_rejections: 0,
            ..self
        }
    }

    /// A refused request was counted.
    pub open spec fn refused(self) -> Memory {
        Memory {
            total_rejected: Cell::TotalRejected.successor(self.total_rejected),
            consecutive_rejections: Cell::ConsecutiveRejections.successor(
                self.consecutive_rejections,
            ),
            ..self
        }
    }

    /// The limiter was used at `now`.
    pub open spec fn touched(self, now: u64) -> Memory {
        if elapsed_ms(now, self.last_access) > LAST_ACCESS_UPDATE_INTERVAL_MS {
            Memory { last_access: now, ..self }
        } else {
            self
        }
    }

    /// Tokens were added.
    pub open spec fn poured(self, config: RateLimiterConfig, amount: u64, counted: bool) -> Memory {
        Memory {
            tokens: topped_up(self.tokens, amount, config.max_tokens),
            total_refills: if counted {
                Cell::TotalRefills.successor(self.total_refills)
            } else {
                self.total_refills
            },
            ..self
        }
    }

    /// The rate at which a refill pays out.
    pub open spec fn refill_rate(self, config: RateLimiterConfig) -> int {
        if under_pressure(self.consecutive_rejections) {
            adaptive_rate(config.refill_rate, self.total_acquired, self.total_rejected)
        } else {
            config.refill_rate as int
        }
    }

    /// Whole periods that wait to be paid out at `now`, as far as one refill pays.
    pub open spec fn due(self, config: RateLimiterConfig, now: u64) -> int {
        periods_due(elapsed_ms(now, self.last_refill), config.refill_interval_ms)
    }

    /// Some periods were paid out.
    pub open spec fn paid_out(self, config: RateLimiterConfig, periods: int) -> Memory {
        self.poured(
            config,
            refill_amount(self.refill_rate(config) as u32, periods, config.max_tokens) as u64,
            true,
        )
    }

    /// All that was due at `now` was paid out.
    pub open spec fn refilled(self, config: RateLimiterConfig, now: u64) -> Memory {
        if self.due(config, now) == 0 {
            self
        } else {
            (Memory {
                last_refill: refill_time(self.last_refill, now, config.refill_interval_ms),
                ..self
            }).paid_out(config, self.due(config, now))
        }
    }

    /// Tokens were taken.
    pub open spec fn less(self, n: u64) -> Memory {
        Memory { tokens: (self.tokens - n) as u64, ..self }
    }

    /// Whether a request for `n` tokens at `now` is granted.
    pub open spec fn grants(self, config: RateLimiterConfig, n: u64, now: u64) -> bool {
        if n == 0 {
            true
        } else if n == 1 {
            self.tokens >= 1 || self.refilled(config, now).tokens >= 1
        } else {
            n <= config.max_tokens && self.refilled(config, now).tokens >= n
        }
    }

    /// The memory after a request for `n` tokens at `now`.
    pub open spec fn after_request(self, config: RateLimiterConfig, n: u64, now: u64) -> Memory {
        if n == 0 {
            self
        } else if n == 1 && self.tokens >= 1 {
            self.less(1).granted().touched(now)
        } else if n > 1 && n > config.max_tokens {
            self.refused()
        } else {
            let ready = self.touched(now).refilled(config, now);
            if ready.tokens >= n {
                ready.less(n).granted()
            } else {
                ready.refused()
            }
        }
    }

    /// The memory after a reset at `now`.
    pub open spec fn fresh(config: RateLimiterConfig, now: u64) -> Memory {
        Memory {
            tokens: config.max_tokens,
            last_refill: now,
            last_access: now,
            consecutive_rejections: 0,
            max_wait: 0,
            total_acquired: 0,
            total_rejected: 0,
            total_refills: 0,
        }
    }
}

/// The first access of a sequence, and the rest.
proof fn lemma_first(memory: Memory, t: Seq<Access>)
    requires
        t.len() >= 1,
        memory.explains(t),
        steady(t),
    ensures
        memory.answers(t[0]),
        memory.after(t[0]).explains(t.skip(1)),
        memory.after_all(t) == memory.after(t[0]).after_all(t.skip(1)),
        steady(t.skip(1)),
        t[0] matches Access::Exchange { expected, outcome, .. } ==> outcome != Err::<(), u64>(
            expected,
        ),
{
    assert(seq![t[0]] + t.skip(1) =~= t);
    lemma_steady_joins(seq![t[0]], t.skip(1));
}

/// The first two accesses of a sequence, and the rest.
proof fn lemma_first_two(memory: Memory, t: Seq<Access>)
    requires
        t.len() >= 2,
        memory.explains(t),
        steady(t),
    ensures
        memory.answers(t[0]),
        memory.after(t[0]).answers(t[1]),
        memory.after(t[0]).after(t[1]).explains(t.skip(2)),
        memory.after_all(t) == memory.after(t[0]).after(t[1]).after_all(t.skip(2)),
        steady(t.skip(2)),
        t[0] matches Access::Exchange { expected, outcome, .. } ==> outcome != Err::<(), u64>(
            expected,
        ),
        t[1] matches Access::Exchange { expected, outcome, .. } ==> outcome != Err::<(), u64>(
            expected,
        ),
{
    lemma_first(memory, t);
    lemma_first(memory.after(t[0]), t.skip(1));
    assert(t.skip(1).skip(1) =~= t.skip(2));
}

/// Two parts of a sequence.
proof fn lemma_parts(memory: Memory, a: Seq<Access>, b: Seq<Access>)
    requires
        memory.explains(a + b),
        steady(a + b),
    ensures
        memory.explains(a),
        memory.after_all(a).explains(b),
        memory.after_all(a + b) == memory.after_all(a).after_all(b),
        steady(a),
        steady(b),
{
    lemma_explains_joins(memory, a, b);
    lemma_steady_joins(a, b);
}

proof fn lemma_acquisition(memory: Memory, t: Seq<Access>)
    requires
        acquisition_run(t),
        memory.explains(t),
        steady(t),
    ensures
        memory.after_all(t) == memory.granted(),
{
    lemma_first_two(memory, t);
    if t.len() == 3 {
        lemma_first(memory.after(t[0]).after(t[1]), t.skip(2));
    }
}

proof fn lemma_rejection(memory: Memory, t: Seq<Access>)
    requires
        rejection_run(t),
        memory.explains(t),
        steady(t),
    ensures
        memory.after_all(t) == memory.refused(),
{
    lemma_first_two(memory, t);
}

proof fn lemma_touch(memory: Memory, now: u64, t: Seq<Access>)
    requires
        touch_run(now, t),
        memory.explains(t),
        steady(t),
    ensures
        memory.after_all(t) == memory.touched(now),
{
    lemma_first(memory, t);
    if t.len() == 2 {
        lemma_first(memory.after(t[0]), t.skip(1));
    }
}

proof fn lemma_pour_end(memory: Memory, counted: bool, t: Seq<Access>)
    requires
        pour_end(counted, t),
        memory.explains(t),
        steady(t),
    ensures
        memory.after_all(t) == (if counted {
            Memory {
                total_refills: Cell::TotalRefills.successor(memory.total_refills),
                ..memory
            }
        } else {
            memory
        }),
{
    if counted {
        lemma_first(memory, t);
    }
}

proof fn lemma_pour(
    memory: Memory,
    config: RateLimiterConfig,
    amount: u64,
    counted: bool,
    t: Seq<Access>,
)
    requires
        pour_run(config, amount, counted, t),
        memory.explains(t),
        steady(t),
    ensures
        memory.after_all(t) == memory.poured(config, amount, counted),
{
    lemma_first(memory, t);
    let rest = t.skip(1);
    let new = topped_up(memory.tokens, amount, config.max_tokens);
    if new == memory.tokens {
        lemma_pour_end(memory, counted, rest);
    } else {
        lemma_first(memory, rest);
        lemma_pour_end(memory.after(rest[0]), counted, rest.skip(1));
    }
}

proof fn lemma_payout(memory: Memory, config: RateLimiterConfig, periods: int, t: Seq<Access>)
    requires
        payout_run(config, periods, t),
        memory.explains(t),
        steady(t),
    ensures
        memory.after_all(t) == memory.paid_out(config, periods),
{
    lemma_first(memory, t);
    if under_pressure(memory.consecutive_rejections) {
        let rest = t.skip(1);
        lemma_first_two(memory, rest);
        assert(rest.skip(2) =~= t.skip(3));
        lemma_pour(
            memory,
            config,
            refill_amount(
                adaptive_rate(config.refill_rate, loaded(t[2]), loaded(t[1])) as u32,
                periods,
                config.max_tokens,
            ) as u64,
            true,
            t.skip(3),
        );
    } else {
        lemma_pour(
            memory,
            config,
            refill_amount(config.refill_rate, periods, config.max_tokens) as u64,
            true,
            t.skip(1),
        );
    }
}

proof fn lemma_refill(memory: Memory, config: RateLimiterConfig, now: u64, t: Seq<Access>)
    requires
        refill_run(config, now, t),
        memory.explains(t),
        steady(t),
    ensures
        memory.after_all(t) == memory.refilled(config, now),
{
    lemma_first(memory, t);
    if memory.due(config, now) != 0 {
        lemma_first_two(memory, t);
        lemma_payout(
            memory.after(t[0]).after(t[1]),
            config,
            memory.due(config, now),
            t.skip(2),
        );
    }
}

/// Before a whole interval has passed, no period is due.
pub proof fn lemma_nothing_due(elapsed: u64, interval: u64)
    requires
        elapsed < interval,
    ensures
        periods_due(elapsed, interval) == 0,
{
    assert(elapsed as int / interval as int == 0) by (nonlinear_arith)
        requires
            0 <= elapsed < interval,
    ;
}

proof fn lemma_due_refill(memory: Memory, config: RateLimiterConfig, now: u64, t: Seq<Access>)
    requires
        due_refill_run(config, now, t),
        memory.explains(t),
        steady(t),
    ensures
        memory.after_all(t) == memory.refilled(config, now),
{
    lemma_first(memory, t);
    if elapsed_ms(now, memory.last_refill) >= config.refill_interval_ms {
        lemma_refill(memory, config, now, t.skip(1));
    } else {
        lemma_nothing_due(elapsed_ms(now, memory.last_refill), config.refill_interval_ms);
    }
}

proof fn lemma_take_one_attempts(
    memory: Memory,
    config: RateLimiterConfig,
    t: Seq<Access>,
    granted: bool,
)
    requires
        take_one_attempts(config, 0, t, granted),
        memory.explains(t),
        steady(t),
    ensures
        granted == (memory.tokens >= 1),
        memory.after_all(t) == (if granted {
            memory.less(1).granted()
        } else {
            memory.refused()
        }),
{
    lemma_first(memory, t);
    if memory.tokens == 0 {
        lemma_rejection(memory, t.skip(1));
    } else {
        lemma_first_two(memory, t);
        lemma_acquisition(memory.after(t[0]).after(t[1]), t.skip(2));
    }
}

proof fn lemma_take_many_attempts(
    memory: Memory,
    config: RateLimiterConfig,
    n: u64,
    t: Seq<Access>,
    granted: bool,
)
    requires
        take_many_attempts(config, n, 0, u64::MAX, 0, t, granted),
        memory.explains(t),
        steady(t),
    ensures
        granted == (memory.tokens >= n),
        memory.after_all(t) == (if granted {
            memory.less(n).granted()
        } else {
            memory.refused()
        }),
{
    lemma_first(memory, t);
    if memory.tokens < n {
        lemma_rejection(memory, t.skip(1));
    } else {
        lemma_first_two(memory, t);
        lemma_acquisition(memory.after(t[0]).after(t[1]), t.skip(2));
    }
}

/// The accesses show the clock at `now`.
pub open spec fn shows(t: Seq<Access>, now: u64) -> bool {
    exists|i: int| 0 <= i < t.len() && #[trigger] t[i] is Clock && clock_of(t[i]) == now
}

proof fn lemma_take_one_slowly(
    memory: Memory,
    config: RateLimiterConfig,
    t: Seq<Access>,
    granted: bool,
) -> (now: u64)
    requires
        take_one_slowly_run(config, t, granted),
        memory.explains(t),
        steady(t),
    ensures
        shows(t, now),
        ({
            let ready = memory.touched(now).refilled(config, now);
            &&& granted == (ready.tokens >= 1)
            &&& memory.after_all(t) == if granted {
                ready.less(1).granted()
            } else {
                ready.refused()
            }
        }),
{
    let (clock, touch, refill, attempts) = choose|
        clock: Access,
        touch: Seq<Access>,
        refill: Seq<Access>,
        attempts: Seq<Access>,
    | #[trigger]
        take_one_parts(config, clock, touch, refill, attempts, granted) && t == seq![clock] + touch
            + refill + attempts;
    let now = clock_of(clock);
    assert(t[0] == clock);
    lemma_parts(memory, seq![clock] + touch + refill, attempts);
    lemma_parts(memory, seq![clock] + touch, refill);
    lemma_parts(memory, seq![clock], touch);
    lemma_first(memory, seq![clock]);
    lemma_touch(memory, now, touch);
    lemma_due_refill(memory.touched(now), config, now, refill);
    lemma_take_one_attempts(
        memory.touched(now).refilled(config, now),
        config,
        attempts,
        granted,
    );
    now
}

proof fn lemma_take_one(memory: Memory, config: RateLimiterConfig, t: Seq<Access>, granted: bool) -> (now:
    u64)
    requires
        take_one_run(config, t, granted),
        memory.explains(t),
        steady(t),
    ensures
        shows(t, now),
        granted == memory.grants(config, 1, now),
        config.max_tokens >= 1 ==> memory.after_all(t) == memory.after_request(config, 1, now),
{
    lemma_first(memory, t);
    if memory.tokens > 0 {
        lemma_first_two(memory, t);
        let rest = t.skip(2);
        let (acquisition, clock, touch) = choose|
            acquisition: Seq<Access>,
            clock: Access,
            touch: Seq<Access>,
        | #[trigger]
            granted_parts(acquisition, clock, touch) && rest == acquisition + seq![clock] + touch;
        let now = clock_of(clock);
        let left = memory.less(1);
        assert(rest[acquisition.len() as int] == clock);
        assert(t[acquisition.len() as int + 2] == clock);
        lemma_parts(left, acquisition + seq![clock], touch);
        lemma_parts(left, acquisition, seq![clock]);
        lemma_acquisition(left, acquisition);
        lemma_first(left.granted(), seq![clock]);
        lemma_touch(left.granted(), now, touch);
        now
    } else {
        let now = lemma_take_one_slowly(memory, config, t.skip(1), granted);
        let i = choose|i: int|
            0 <= i < t.skip(1).len() && #[trigger] t.skip(1)[i] is Clock && clock_of(t.skip(1)[i])
                == now;
        assert(t[i + 1] == t.skip(1)[i]);
        now
    }
}

proof fn lemma_take_many(
    memory: Memory,
    config: RateLimiterConfig,
    n: u64,
    t: Seq<Access>,
    granted: bool,
) -> (now: u64)
    requires
        take_many_run(config, n, t, granted),
        2 <= n <= config.max_tokens,
        memory.explains(t),
        steady(t),
    ensures
        shows(t, now),
        granted == memory.grants(config, n, now),
        memory.after_all(t) == memory.after_request(config, n, now),
{
    let (clock, touch, refill, attempts) = choose|
        clock: Access,
        touch: Seq<Access>,
        refill: Seq<Access>,
        attempts: Seq<Access>,
    | #[trigger]
        take_many_parts(config, n, clock, touch, refill, attempts, granted) && t == seq![clock]
            + touch + refill + attempts;
    let now = clock_of(clock);
    assert(t[0] == clock);
    lemma_parts(memory, seq![clock] + touch + refill, attempts);
    lemma_parts(memory, seq![clock] + touch, refill);
    lemma_parts(memory, seq![clock], touch);
    lemma_first(memory, seq![clock]);
    lemma_touch(memory, now, touch);
    lemma_refill(memory.touched(now), config, now, refill);
    lemma_take_many_attempts(
        memory.touched(now).refilled(config, now),
        config,
        n,
        attempts,
        granted,
    );
    now
}

/// A request that no other thread disturbs is granted exactly when the bucket, refilled with
/// what is due, holds enough tokens. It then takes exactly as many as were asked for, and
/// otherwise none.
pub proof fn law_undisturbed_request(
    config: RateLimiterConfig,
    memory: Memory,
    n: u64,
    t: Seq<Access>,
    granted: bool,
)
    requires
        config.is_valid(),
        acquire_run(config, n, t, granted),
        memory.explains(t),
        steady(t),
    ensures
        exists|now: u64|
            {
                &&& 1 <= n <= config.max_tokens ==> shows(t, now)
                &&& granted == #[trigger] memory.grants(config, n, now)
                &&& memory.after_all(t) == memory.after_request(config, n, now)
            },
{
    if n == 0 {
        assert(granted == memory.grants(config, n, 0));
    } else if n == 1 {
        let now = lemma_take_one(memory, config, t, granted);
        assert(granted == memory.grants(config, n, now));
    } else if n > config.max_tokens {
        lemma_rejection(memory, t);
        assert(granted == memory.grants(config, n, 0));
    } else {
        let now = lemma_take_many(memory, config, n, t, granted);
        assert(granted == memory.grants(config, n, now));
    }
}

/// Adding tokens, undisturbed, fills the bucket by as many as fit, and changes nothing else.
pub proof fn law_undisturbed_addition(
    config: RateLimiterConfig,
    memory: Memory,
    n: u64,
    t: Seq<Access>,
)
    requires
        pour_run(config, n, false, t),
        memory.explains(t),
        steady(t),
    ensures
        memory.after_all(t) == (Memory {
            tokens: topped_up(memory.tokens, n, config.max_tokens),
            ..memory
        }),
{
    lemma_pour(memory, config, n, false, t);
}

/// A refill of any number of periods, undisturbed, adds what they earn, as far as it fits: never
/// fewer tokens than before, never more than the capacity. It is counted once, also when the bucket
/// was full, and changes nothing else.
pub proof fn law_undisturbed_payout(
    config: RateLimiterConfig,
    memory: Memory,
    periods: u64,
    t: Seq<Access>,
)
    requires
        config.is_valid(),
        memory.tokens <= config.max_tokens,
        payout_run(config, periods as int, t),
        memory.explains(t),
        steady(t),
    ensures
        memory.after_all(t) == (Memory {
            tokens: lesser(
                memory.tokens + memory.refill_rate(config) * periods,
                config.max_tokens as int,
            ) as u64,
            total_refills: Cell::TotalRefills.successor(memory.total_refills),
            ..memory
        }),
        memory.tokens <= memory.after_all(t).tokens <= config.max_tokens,
{
    lemma_payout(memory, config, periods as int, t);
    let rate = memory.refill_rate(config);
    assert(0 <= rate <= config.refill_rate);
    assert(0 <= rate * periods) by (nonlinear_arith)
        requires
            0 <= rate,
            0 <= periods,
    ;
}

/// The number of available tokens, undisturbed, is what the bucket holds once it is refilled
/// with what is due.
pub proof fn law_undisturbed_count(
    config: RateLimiterConfig,
    memory: Memory,
    t: Seq<Access>,
    tokens: u64,
)
    requires
        available_run(config, t, tokens),
        memory.explains(t),
        steady(t),
    ensures
        exists|now: u64|
            {
                &&& shows(t, now)
                &&& memory.after_all(t) == #[trigger] memory.refilled(config, now)
                &&& tokens == memory.refilled(config, now).tokens
            },
{
    let (clock, refill, count) = choose|clock: Access, refill: Seq<Access>, count: Access|
        #[trigger] available_parts(config, clock, refill, count) && loaded(count) == tokens && t
            == seq![clock] + refill + seq![count];
    let now = clock_of(clock);
    assert(t[0] == clock);
    lemma_parts(memory, seq![clock] + refill, seq![count]);
    lemma_parts(memory, seq![clock], refill);
    lemma_first(memory, seq![clock]);
    lemma_refill(memory, config, now, refill);
    lemma_first(memory.refilled(config, now), seq![count]);
    assert(memory.after_all(t) == memory.refilled(config, now));
}

/// A reset leaves a full bucket and no trace of earlier requests, whatever was there before.
pub proof fn law_reset_starts_afresh(config: RateLimiterConfig, memory: Memory, t: Seq<Access>)
    requires
        reset_run(config, t),
    ensures
        memory.after_all(t) == Memory::fresh(config, clock_of(t[0])),
{
    reveal_with_fuel(Memory::after_all, 10);
    assert(t.skip(1).skip(1).skip(1).skip(1).skip(1).skip(1).skip(1).skip(1).skip(1).len() == 0);
}

/// A snapshot, undisturbed, shows what the memory holds, and changes nothing.
pub proof fn law_undisturbed_snapshot(
    config: RateLimiterConfig,
    memory: Memory,
    t: Seq<Access>,
    metrics: RateLimiterMetrics,
)
    requires
        metrics_run(config, t, metrics),
        memory.explains(t),
    ensures
        memory.after_all(t) == memory,
        metrics == (RateLimiterMetrics {
            total_acquired: memory.total_acquired,
            total_rejected: memory.total_rejected,
            total_refills: memory.total_refills,
            current_tokens: memory.tokens,
            max_tokens: config.max_tokens,
            consecutive_rejections: memory.consecutive_rejections as u32,
            max_wait_time_ns: memory.max_wait,
            pressure_ratio: pressure(memory.total_rejected, memory.total_acquired),
        }),
{
    reveal_with_fuel(Memory::after_all, 9);
    reveal_with_fuel(Memory::explains, 9);
}

/// A limiter that was made at `now` and not used since shows a full bucket and no requests, and that
/// it was last used when it was made.
pub proof fn law_new_limiter_is_full(
    config: RateLimiterConfig,
    now: u64,
    t: Seq<Access>,
    metrics: RateLimiterMetrics,
    access: Seq<Access>,
    at_ms: u64,
)
    requires
        metrics_run(config, t, metrics),
        Memory::fresh(config, now).explains(t),
        last_access_run(access, at_ms),
        Memory::fresh(config, now).explains(access),
    ensures
        metrics == (RateLimiterMetrics {
            total_acquired: 0,
            total_rejected: 0,
            total_refills: 0,
            current_tokens: config.max_tokens,
            max_tokens: config.max_tokens,
            consecutive_rejections: 0,
            max_wait_time_ns: 0,
            pressure_ratio: ratio(0, 1),
        }),
        at_ms == now,
{
    law_undisturbed_snapshot(config, Memory::fresh(config, now), t, metrics);
    reveal_with_fuel(Memory::explains, 2);
}

/// The questions for idleness, the last access and pressure, undisturbed, are answered from the
/// memory, and change nothing.
pub proof fn law_undisturbed_questions(
    memory: Memory,
    duration_ms: u64,
    idle: Seq<Access>,
    inactive: bool,
    access: Seq<Access>,
    at_ms: u64,
    strain: Seq<Access>,
    pressed: bool,
)
    requires
        inactive_run(duration_ms, idle, inactive),
        memory.explains(idle),
        last_access_run(access, at_ms),
        memory.explains(access),
        pressure_run(strain, pressed),
        memory.explains(strain),
    ensures
        memory.after_all(idle) == memory,
        inactive == (elapsed_ms(clock_of(idle[0]), memory.last_access) > duration_ms),
        memory.after_all(access) == memory,
        at_ms == memory.last_access,
        memory.after_all(strain) == memory,
        pressed == under_pressure(memory.consecutive_rejections),
{
    reveal_with_fuel(Memory::after_all, 3);
    reveal_with_fuel(Memory::explains, 3);
}

/// A refill leaves nothing due, however long the pause before it was: what the limit on periods
/// cuts off is never paid out, and no period is paid out twice.
pub proof fn law_periods_are_paid_once(config: RateLimiterConfig, memory: Memory, now: u64)
    requires
        config.is_valid(),
    ensures
        memory.refilled(config, now).due(config, now) == 0,
        memory.refilled(config, now).refilled(config, now) == memory.refilled(config, now),
{
    let interval = config.refill_interval_ms;
    let last = memory.last_refill;
    lemma_claimed_time(last, now, interval);
    if memory.due(config, now) != 0 {
        lemma_nothing_due(elapsed_ms(now, refill_time(last, now, interval)), interval);
    }
}

/// Whole periods split: those up to a first moment, and from there to a second.
proof fn lemma_periods_split(first: int, second: int, interval: int)
    requires
        interval > 0,
        0 <= first <= second,
    ensures
        first / interval + (second - first / interval * interval) / interval == second / interval,
{
    let k = first / interval;
    vstd::arithmetic::div_mod::lemma_hoist_over_denominator(second - k * interval, k, interval as nat);
    assert(k * interval == interval * k) by (nonlinear_arith);
}

/// Refilling at one moment and again at a later one leaves the same tokens as refilling at the
/// later moment alone, for up to a hundred intervals: no interval is lost, none is counted twice.
pub proof fn law_refills_add_up(config: RateLimiterConfig, memory: Memory, first: u64, second: u64)
    requires
        config.is_valid(),
        memory.tokens <= config.max_tokens,
        memory.last_refill <= first <= second,
        second - memory.last_refill <= MAX_REFILL_PERIODS * config.refill_interval_ms,
        !under_pressure(memory.consecutive_rejections),
    ensures
        memory.refilled(config, first).refilled(config, second).tokens == memory.refilled(
            config,
            second,
        ).tokens,
        memory.refilled(config, first).refilled(config, second).last_refill == memory.refilled(
            config,
            second,
        ).last_refill,
{
    let interval = config.refill_interval_ms;
    let rate = config.refill_rate;
    let last = memory.last_refill;
    let mid = memory.refilled(config, first);
    let a = first - last;
    let b = second - last;
    lemma_claimed_time(last, first, interval);
    lemma_claimed_time(last, second, interval);
    lemma_periods_split(a, b, interval as int);
    let p1 = a / interval as int;
    let p = b / interval as int;
    assert(p <= 100) by (nonlinear_arith)
        requires
            interval > 0,
            b <= 100 * interval,
            p * interval <= b,
    ;
    assert(0 <= p1 * interval <= a);
    assert(mid.last_refill == last + p1 * interval) by {
        if memory.due(config, first) == 0 {
            assert(p1 == 0);
            assert(0 * interval == 0) by (nonlinear_arith);
        }
    }
    lemma_claimed_time(mid.last_refill, second, interval);
    let p2 = (second - mid.last_refill) / interval as int;
    assert(p1 + p2 == p);
    assert(rate * p1 + rate * p2 == rate * p && rate * p1 >= 0 && rate * p2 >= 0)
        by (nonlinear_arith)
        requires
            p1 + p2 == p,
            p1 >= 0,
            p2 >= 0,
    ;
    assert(rate * p <= u32::MAX * 100) by (nonlinear_arith)
        requires
            0 <= rate <= u32::MAX,
            0 <= p <= 100,
    ;
    assert(p1 * interval + p2 * interval == p * interval) by (nonlinear_arith)
        requires
            p1 + p2 == p,
    ;
    assert(0 * interval == 0 && rate * 0 == 0) by (nonlinear_arith);
    law_refill_amount(config, memory, first);
    law_refill_amount(config, memory, second);
    law_refill_amount(config, mid, second);
}

/// A refill adds at most the configured rate for each period that is due, never takes tokens
/// away, and never fills the bucket beyond its capacity. Unless requests were refused in a row,
/// it adds exactly the rate, as far as the capacity allows.
pub proof fn law_refill_amount(config: RateLimiterConfig, memory: Memory, now: u64)
    requires
        config.is_valid(),
        memory.tokens <= config.max_tokens,
    ensures
        ({
            let tokens = memory.refilled(config, now).tokens;
            let earned = config.refill_rate * memory.due(config, now);
            &&& memory.tokens <= tokens <= config.max_tokens
            &&& tokens <= memory.tokens + earned
            &&& !under_pressure(memory.consecutive_rejections) ==> tokens == lesser(
                memory.tokens + earned,
                config.max_tokens as int,
            )
        }),
{
    let periods = memory.due(config, now);
    let rate = config.refill_rate;
    let slow = memory.refill_rate(config);
    lemma_claimed_time(memory.last_refill, now, config.refill_interval_ms);
    assert(0 <= slow <= rate);
    assert(0 <= slow * periods <= rate * periods <= u32::MAX * 100) by (nonlinear_arith)
        requires
            0 <= slow <= rate,
            rate <= u32::MAX,
            0 <= periods <= 100,
    ;
    assert(rate * 0 == 0) by (nonlinear_arith);
}

/// The refill time and the access time never move back. The refill time never runs ahead of the
/// clock, and after a refill it is less than an interval behind. A reading that an earlier refill
/// has overtaken pays out nothing.
pub proof fn law_refill_time_follows_clock(config: RateLimiterConfig, memory: Memory, now: u64)
    requires
        config.is_valid(),
    ensures
        memory.last_refill <= memory.refilled(config, now).last_refill,
        memory.last_access <= memory.touched(now).last_access,
        memory.last_refill <= now ==> memory.refilled(config, now).last_refill <= now && now
            - memory.refilled(config, now).last_refill < config.refill_interval_ms,
        now <= memory.last_refill ==> memory.refilled(config, now) == memory,
{
    lemma_claimed_time(memory.last_refill, now, config.refill_interval_ms);
    assert(0 * config.refill_interval_ms == 0) by (nonlinear_arith);
}

impl Memory {
    /// The memory after requests for one token each, at the given times.
    pub open spec fn after_singles(self, config: RateLimiterConfig, times: Seq<u64>) -> Memory
        decreases times.len(),
    {
        if times.len() == 0 {
            self
        } else {
            self.after_singles(config, times.drop_last()).after_request(config, 1, times.last())
        }
    }
}

/// A burst of as many single requests as there are tokens is granted in full, and each takes one
/// token.
pub proof fn law_burst(config: RateLimiterConfig, memory: Memory, times: Seq<u64>, which: int)
    requires
        config.is_valid(),
        times.len() <= memory.tokens,
        0 <= which < times.len(),
    ensures
        memory.after_singles(config, times.take(which)).grants(config, 1, times[which]),
        memory.after_singles(config, times).tokens == memory.tokens - times.len(),
    decreases times.len(),
{
    let front = times.drop_last();
    if front.len() > 0 {
        law_burst(config, memory, front, if which < front.len() {
            which
        } else {
            0
        });
    }
    assert(memory.after_singles(config, front).tokens == memory.tokens - front.len());
    if which < front.len() {
        assert(front.take(which) =~= times.take(which));
    } else {
        assert(front =~= times.take(which));
    }
}

/// An empty bucket with no refill due refuses every request, and stays empty.
pub proof fn law_empty_bucket_refuses(config: RateLimiterConfig, memory: Memory, n: u64, now: u64)
    requires
        config.is_valid(),
        memory.tokens == 0,
        memory.due(config, now) == 0,
        n >= 1,
    ensures
        !memory.grants(config, n, now),
        memory.after_request(config, n, now).tokens == 0,
{
}

/// After a burst of as many single requests as there are tokens, the next one is refused until a
/// refill is due.
pub proof fn law_burst_is_the_limit(
    config: RateLimiterConfig,
    memory: Memory,
    times: Seq<u64>,
    now: u64,
)
    requires
        config.is_valid(),
        times.len() == memory.tokens,
        memory.due(config, now) == 0,
    ensures
        !memory.after_singles(config, times).grants(config, 1, now),
{
    if times.len() > 0 {
        law_burst(config, memory, times, 0);
    }
    lemma_singles_keep_refill_time(config, memory, times);
    law_empty_bucket_refuses(config, memory.after_singles(config, times), 1, now);
}

/// Requests that find a token do not refill.
proof fn lemma_singles_keep_refill_time(config: RateLimiterConfig, memory: Memory, times: Seq<u64>)
    requires
        config.is_valid(),
        times.len() <= memory.tokens,
    ensures
        memory.after_singles(config, times).last_refill == memory.last_refill,
    decreases times.len(),
{
    if times.len() > 0 {
        let front = times.drop_last();
        lemma_singles_keep_refill_time(config, memory, front);
        if front.len() > 0 {
            law_burst(config, memory, front, 0);
        }
        assert(memory.after_singles(config, front).tokens >= 1);
    }
}

impl Memory {
    /// The memory after requests for the given tokens at the given times.
    pub open spec fn after_requests(
        self,
        config: RateLimiterConfig,
        requests: Seq<(u64, u64)>,
    ) -> Memory
        decreases requests.len(),
    {
        if requests.len() == 0 {
            self
        } else {
            self.after_requests(config, requests.drop_last()).after_request(
                config,
                requests.last().0,
                requests.last().1,
            )
        }
    }

    /// Requests refused after the last one that was granted, counted on from `self`.
    pub open spec fn refused_in_a_row(
        self,
        config: RateLimiterConfig,
        requests: Seq<(u64, u64)>,
    ) -> int
        decreases requests.len(),
    {
        if requests.len() == 0 {
            self.consecutive_rejections as int
        } else {
            let front = requests.drop_last();
            let (n, now) = requests.last();
            if self.after_requests(config, front).grants(config, n, now) {
                0
            } else {
                self.refused_in_a_row(config, front) + 1
            }
        }
    }
}

/// The series of rejections is the number of requests refused since the last one that was granted,
/// as long as its counter does not run over.
pub proof fn law_rejections_in_a_row(
    config: RateLimiterConfig,
    memory: Memory,
    requests: Seq<(u64, u64)>,
)
    requires
        config.is_valid(),
        forall|i: int| 0 <= i < requests.len() ==> (#[trigger] requests[i]).0 >= 1,
        memory.consecutive_rejections + requests.len() <= Cell::ConsecutiveRejections.limit(),
    ensures
        memory.after_requests(config, requests).consecutive_rejections == memory.refused_in_a_row(
            config,
            requests,
        ),
        memory.refused_in_a_row(config, requests) <= memory.consecutive_rejections
            + requests.len(),
    decreases requests.len(),
{
    if requests.len() > 0 {
        let front = requests.drop_last();
        assert forall|i: int| 0 <= i < front.len() implies (#[trigger] front[i]).0 >= 1 by {
            assert(front[i] == requests[i]);
        }
        law_rejections_in_a_row(config, memory, front);
        assert(requests[requests.len() - 1].0 >= 1);
    }
}

/// A request that is refused takes nothing: the bucket then holds what it held, and any refill
/// that was due.
pub proof fn law_refusal_takes_nothing(config: RateLimiterConfig, memory: Memory, n: u64, now: u64)
    requires
        config.is_valid(),
        memory.tokens <= config.max_tokens,
        !memory.grants(config, n, now),
    ensures
        memory.after_request(config, n, now).tokens >= memory.tokens,
        memory.after_request(config, n, now).total_acquired == memory.total_acquired,
        memory.after_request(config, n, now).total_rejected == Cell::TotalRejected.successor(
            memory.total_rejected,
        ),
        memory.after_request(config, n, now).consecutive_rejections
            == Cell::ConsecutiveRejections.successor(memory.consecutive_rejections),
{
    law_refill_amount(config, memory, now);
}

/// A granted request takes exactly as many tokens as it asked for, and ends a series of
/// rejections.
pub proof fn law_grant_takes_all(config: RateLimiterConfig, memory: Memory, n: u64, now: u64)
    requires
        config.is_valid(),
        memory.tokens <= config.max_tokens,
        n >= 1,
        memory.grants(config, n, now),
    ensures
        ({
            let after = memory.after_request(config, n, now);
            &&& after.tokens == memory.tokens - n || after.tokens == memory.refilled(
                config,
                now,
            ).tokens - n
            &&& after.consecutive_rejections == 0
            &&& after.total_acquired == Cell::TotalAcquired.successor(memory.total_acquired)
            &&& after.total_rejected == memory.total_rejected
        }),
{
}

} // verus!
