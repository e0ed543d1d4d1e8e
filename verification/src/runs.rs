//! What each operation of a limiter does, access by access.
//!
//! A predicate `..._run` holds of the accesses of one whole call. It says which access comes
//! first, and how the call goes on from each answer: what other threads do meanwhile shows only
//! in the answers. Together with the result, a run fixes all that a call does.

use crate::bucket::{
    adaptive_rate, elapsed_ms, periods_due, refill_amount, refill_time, topped_up, under_pressure,
    LAST_ACCESS_UPDATE_INTERVAL_MS, MAX_CAS_RETRIES, MAX_REPEAT_COUNT,
};
use crate::config::{MemoryOrdering, RateLimiterConfig};
use crate::history::{Access, Cell, Order};
use crate::metrics::{ratio, RateLimiterMetrics, Ratio};
use vstd::prelude::*;

verus! {

/// Order in which a strategy reads the token count.
pub open spec fn reading(strategy: MemoryOrdering) -> Order {
    match strategy {
        MemoryOrdering::Relaxed => Order::Relaxed,
        MemoryOrdering::AcquireRelease => Order::Acquire,
        MemoryOrdering::Sequential => Order::SeqCst,
    }
}

/// Order in which a strategy overwrites cells.
pub open spec fn writing(strategy: MemoryOrdering) -> Order {
    match strategy {
        MemoryOrdering::Relaxed => Order::Relaxed,
        MemoryOrdering::AcquireRelease => Order::Release,
        MemoryOrdering::Sequential => Order::SeqCst,
    }
}

/// Order in which a strategy exchanges values.
pub open spec fn exchanging(strategy: MemoryOrdering) -> Order {
    match strategy {
        MemoryOrdering::Relaxed => Order::Relaxed,
        MemoryOrdering::AcquireRelease => Order::AcqRel,
        MemoryOrdering::Sequential => Order::SeqCst,
    }
}

/// The access reads the clock.
pub open spec fn is_clock(access: Access) -> bool {
    access is Clock
}

/// The time that the clock showed.
pub open spec fn clock_of(access: Access) -> u64 {
    access->now
}

/// The access reads a cell in the given order.
pub open spec fn is_load(access: Access, cell: Cell, order: Order) -> bool {
    access == (Access::Load { cell, order, value: loaded(access) })
}

/// The value that was read.
pub open spec fn loaded(access: Access) -> u64 {
    access->Load_value
}

/// The access adds one to a counter.
pub open spec fn is_increment(access: Access, cell: Cell) -> bool {
    access == (Access::Increment { cell, order: Order::Relaxed, previous: access->previous })
}

/// The access is an exchange of the token count.
pub open spec fn is_token_exchange(
    config: RateLimiterConfig,
    access: Access,
    weak: bool,
    expected: u64,
    new: u64,
) -> bool {
    access == (Access::Exchange {
        cell: Cell::Tokens,
        weak,
        success: exchanging(config.ordering),
        failure: Order::Relaxed,
        expected,
        new,
        outcome: access->outcome,
    })
}

/// A granted request is counted, and ends a series of rejections.
pub open spec fn acquisition_run(t: Seq<Access>) -> bool {
    &&& t.len() >= 2
    &&& is_increment(t[0], Cell::TotalAcquired)
    &&& is_load(t[1], Cell::ConsecutiveRejections, Order::Relaxed)
    &&& if loaded(t[1]) != 0 {
        &&& t.len() == 3
        &&& t[2] == (Access::Store {
            cell: Cell::ConsecutiveRejections,
            order: Order::Relaxed,
            value: 0,
        })
    } else {
        t.len() == 2
    }
}

/// A refused request is counted, and lengthens the series of rejections.
pub open spec fn rejection_run(t: Seq<Access>) -> bool {
    &&& t.len() == 2
    &&& is_increment(t[0], Cell::TotalRejected)
    &&& is_increment(t[1], Cell::ConsecutiveRejections)
}

/// The access time is set to `now`, unless it was set a short while ago.
pub open spec fn touch_run(now: u64, t: Seq<Access>) -> bool {
    &&& t.len() >= 1
    &&& is_load(t[0], Cell::LastAccess, Order::Relaxed)
    &&& if elapsed_ms(now, loaded(t[0])) > LAST_ACCESS_UPDATE_INTERVAL_MS {
        &&& t.len() == 2
        &&& t[1] == (Access::Store {
            cell: Cell::LastAccess,
            order: Order::Relaxed,
            value: now,
        })
    } else {
        t.len() == 1
    }
}

/// The last accesses of adding tokens: a refill is counted.
pub open spec fn pour_end(counted: bool, t: Seq<Access>) -> bool {
    if counted {
        t.len() == 1 && is_increment(t[0], Cell::TotalRefills)
    } else {
        t.len() == 0
    }
}

/// The attempts to add `amount` tokens to a bucket last seen with `current`, `retries` of which
/// have failed.
pub open spec fn pour_attempts(
    config: RateLimiterConfig,
    amount: u64,
    counted: bool,
    retries: int,
    current: u64,
    t: Seq<Access>,
) -> bool
    decreases t.len(),
{
    let new = topped_up(current, amount, config.max_tokens);
    if new == current {
        pour_end(counted, t)
    } else {
        &&& t.len() >= 1
        &&& is_token_exchange(config, t[0], true, current, new)
        &&& match t[0]->outcome {
            Ok(_) => pour_end(counted, t.skip(1)),
            Err(actual) => if retries + 1 >= MAX_CAS_RETRIES {
                t.len() == 1
            } else {
                pour_attempts(config, amount, counted, retries + 1, actual, t.skip(1))
            },
        }
    }
}

/// `amount` tokens are added to the bucket, up to its capacity; a refill is counted.
pub open spec fn pour_run(
    config: RateLimiterConfig,
    amount: u64,
    counted: bool,
    t: Seq<Access>,
) -> bool {
    &&& t.len() >= 1
    &&& is_load(t[0], Cell::Tokens, reading(config.ordering))
    &&& pour_attempts(config, amount, counted, 0, loaded(t[0]), t.skip(1))
}

/// A refill of some periods: under sustained pressure, at the adaptive rate.
pub open spec fn payout_run(config: RateLimiterConfig, periods: int, t: Seq<Access>) -> bool {
    &&& t.len() >= 1
    &&& is_load(t[0], Cell::ConsecutiveRejections, Order::Relaxed)
    &&& if under_pressure(loaded(t[0])) {
        &&& t.len() >= 3
        &&& is_load(t[1], Cell::TotalRejected, Order::Relaxed)
        &&& is_load(t[2], Cell::TotalAcquired, Order::Relaxed)
        &&& pour_run(
            config,
            refill_amount(
                adaptive_rate(config.refill_rate, loaded(t[2]), loaded(t[1])) as u32,
                periods,
                config.max_tokens,
            ) as u64,
            true,
            t.skip(3),
        )
    } else {
        pour_run(
            config,
            refill_amount(config.refill_rate, periods, config.max_tokens) as u64,
            true,
            t.skip(1),
        )
    }
}

/// The periods that are due at `now` are claimed, and paid out by whoever claimed them.
pub open spec fn refill_run(config: RateLimiterConfig, now: u64, t: Seq<Access>) -> bool {
    &&& t.len() >= 1
    &&& is_load(t[0], Cell::LastRefill, Order::Relaxed)
    &&& {
        let last = loaded(t[0]);
        let periods = periods_due(elapsed_ms(now, last), config.refill_interval_ms);
        if periods == 0 {
            t.len() == 1
        } else {
            &&& t.len() >= 2
            &&& t[1] == (Access::Exchange {
                cell: Cell::LastRefill,
                weak: false,
                success: exchanging(config.ordering),
                failure: Order::Relaxed,
                expected: last,
                new: refill_time(last, now, config.refill_interval_ms),
                outcome: t[1]->outcome,
            })
            &&& match t[1]->outcome {
                Ok(_) => payout_run(config, periods, t.skip(2)),
                Err(_) => t.len() == 2,
            }
        }
    }
}

/// The attempts to take one token, `retries` of which have failed.
pub open spec fn take_one_attempts(
    config: RateLimiterConfig,
    retries: int,
    t: Seq<Access>,
    granted: bool,
) -> bool
    decreases t.len(),
{
    &&& t.len() >= 1
    &&& is_load(t[0], Cell::Tokens, reading(config.ordering))
    &&& if loaded(t[0]) == 0 {
        !granted && rejection_run(t.skip(1))
    } else {
        &&& t.len() >= 2
        &&& is_token_exchange(config, t[1], true, loaded(t[0]), (loaded(t[0]) - 1) as u64)
        &&& match t[1]->outcome {
            Ok(_) => granted && acquisition_run(t.skip(2)),
            Err(actual) => if actual == 0 || retries + 1 >= MAX_CAS_RETRIES {
                !granted && rejection_run(t.skip(2))
            } else {
                take_one_attempts(config, retries + 1, t.skip(2), granted)
            },
        }
    }
}

/// A refill, if one is due at `now`.
pub open spec fn due_refill_run(config: RateLimiterConfig, now: u64, t: Seq<Access>) -> bool {
    &&& t.len() >= 1
    &&& is_load(t[0], Cell::LastRefill, Order::Relaxed)
    &&& if elapsed_ms(now, loaded(t[0])) >= config.refill_interval_ms {
        refill_run(config, now, t.skip(1))
    } else {
        t.len() == 1
    }
}

/// The parts of taking one token when the first attempt found none: the clock, the access time,
/// a due refill, the attempts.
pub open spec fn take_one_parts(
    config: RateLimiterConfig,
    clock: Access,
    touch: Seq<Access>,
    refill: Seq<Access>,
    attempts: Seq<Access>,
    granted: bool,
) -> bool {
    &&& is_clock(clock)
    &&& touch_run(clock_of(clock), touch)
    &&& due_refill_run(config, clock_of(clock), refill)
    &&& take_one_attempts(config, 0, attempts, granted)
}

/// Taking one token when the first attempt found none.
pub open spec fn take_one_slowly_run(
    config: RateLimiterConfig,
    t: Seq<Access>,
    granted: bool,
) -> bool {
    exists|clock: Access, touch: Seq<Access>, refill: Seq<Access>, attempts: Seq<Access>| #[trigger]
        take_one_parts(config, clock, touch, refill, attempts, granted) && t == seq![clock] + touch
            + refill + attempts
}

/// The parts after a token was taken at the first attempt: the request is counted, and the
/// access time set.
pub open spec fn granted_parts(
    acquisition: Seq<Access>,
    clock: Access,
    touch: Seq<Access>,
) -> bool {
    &&& acquisition_run(acquisition)
    &&& is_clock(clock)
    &&& touch_run(clock_of(clock), touch)
}

/// What follows when a token was taken at the first attempt.
pub open spec fn granted_run(t: Seq<Access>) -> bool {
    exists|acquisition: Seq<Access>, clock: Access, touch: Seq<Access>| #[trigger]
        granted_parts(acquisition, clock, touch) && t == acquisition + seq![clock] + touch
}

/// Taking one token: one attempt at once, and only then the clock, a refill and more attempts.
pub open spec fn take_one_run(config: RateLimiterConfig, t: Seq<Access>, granted: bool) -> bool {
    &&& t.len() >= 1
    &&& is_load(t[0], Cell::Tokens, reading(config.ordering))
    &&& if loaded(t[0]) > 0 {
        &&& t.len() >= 2
        &&& is_token_exchange(config, t[1], true, loaded(t[0]), (loaded(t[0]) - 1) as u64)
        &&& match t[1]->outcome {
            Ok(_) => granted && granted_run(t.skip(2)),
            Err(_) => take_one_slowly_run(config, t.skip(2), granted),
        }
    } else {
        take_one_slowly_run(config, t.skip(1), granted)
    }
}

/// The attempts to take `n` tokens at once. `retries` have failed; the count `last_seen` was
/// seen again `repeats` times in a row.
pub open spec fn take_many_attempts(
    config: RateLimiterConfig,
    n: u64,
    retries: int,
    last_seen: u64,
    repeats: int,
    t: Seq<Access>,
    granted: bool,
) -> bool
    decreases t.len(),
{
    &&& t.len() >= 1
    &&& is_load(t[0], Cell::Tokens, reading(config.ordering))
    &&& {
        let current = loaded(t[0]);
        let seen_again = if current == last_seen {
            repeats + 1
        } else {
            0
        };
        if current < n {
            !granted && rejection_run(t.skip(1))
        } else {
            let last_chance = current == last_seen && seen_again >= MAX_REPEAT_COUNT;
            &&& t.len() >= 2
            &&& is_token_exchange(config, t[1], !last_chance, current, (current - n) as u64)
            &&& match t[1]->outcome {
                Ok(_) => granted && acquisition_run(t.skip(2)),
                Err(actual) => if last_chance || actual < n || retries + 1 >= MAX_CAS_RETRIES {
                    !granted && rejection_run(t.skip(2))
                } else {
                    take_many_attempts(
                        config,
                        n,
                        retries + 1,
                        current,
                        seen_again,
                        t.skip(2),
                        granted,
                    )
                },
            }
        }
    }
}

/// The parts of taking several tokens: the clock, the access time, a refill, the attempts.
pub open spec fn take_many_parts(
    config: RateLimiterConfig,
    n: u64,
    clock: Access,
    touch: Seq<Access>,
    refill: Seq<Access>,
    attempts: Seq<Access>,
    granted: bool,
) -> bool {
    &&& is_clock(clock)
    &&& touch_run(clock_of(clock), touch)
    &&& refill_run(config, clock_of(clock), refill)
    &&& take_many_attempts(config, n, 0, u64::MAX, 0, attempts, granted)
}

/// Taking several tokens.
pub open spec fn take_many_run(
    config: RateLimiterConfig,
    n: u64,
    t: Seq<Access>,
    granted: bool,
) -> bool {
    exists|clock: Access, touch: Seq<Access>, refill: Seq<Access>, attempts: Seq<Access>| #[trigger]
        take_many_parts(config, n, clock, touch, refill, attempts, granted) && t == seq![clock]
            + touch + refill + attempts
}

/// A request for `n` tokens. None are taken without a single access; more than the bucket can
/// ever hold are refused at once.
pub open spec fn acquire_run(
    config: RateLimiterConfig,
    n: u64,
    t: Seq<Access>,
    granted: bool,
) -> bool {
    if n == 0 {
        granted && t.len() == 0
    } else if n == 1 {
        take_one_run(config, t, granted)
    } else if n > config.max_tokens {
        !granted && rejection_run(t)
    } else {
        take_many_run(config, n, t, granted)
    }
}

/// The parts of counting the available tokens: the clock, a refill, the token count.
pub open spec fn available_parts(
    config: RateLimiterConfig,
    clock: Access,
    refill: Seq<Access>,
    count: Access,
) -> bool {
    &&& is_clock(clock)
    &&& refill_run(config, clock_of(clock), refill)
    &&& is_load(count, Cell::Tokens, reading(config.ordering))
}

/// Counting the available tokens, after a refill.
pub open spec fn available_run(config: RateLimiterConfig, t: Seq<Access>, tokens: u64) -> bool {
    exists|clock: Access, refill: Seq<Access>, count: Access| #[trigger]
        available_parts(config, clock, refill, count) && loaded(count) == tokens && t == seq![clock]
            + refill + seq![count]
}

/// Asking whether the last access was more than `duration_ms` ago.
pub open spec fn inactive_run(duration_ms: u64, t: Seq<Access>, inactive: bool) -> bool {
    &&& t.len() == 2
    &&& is_clock(t[0])
    &&& is_load(t[1], Cell::LastAccess, Order::Relaxed)
    &&& inactive == (elapsed_ms(clock_of(t[0]), loaded(t[1])) > duration_ms)
}

/// Asking when the last access was.
pub open spec fn last_access_run(t: Seq<Access>, at_ms: u64) -> bool {
    t == seq![Access::Load { cell: Cell::LastAccess, order: Order::Relaxed, value: at_ms }]
}

/// The store that a reset makes to a cell.
pub open spec fn reset_store(config: RateLimiterConfig, cell: Cell, value: u64) -> Access {
    Access::Store { cell, order: writing(config.ordering), value }
}

/// A reset: a full bucket, times set to now, counters set to zero.
pub open spec fn reset_run(config: RateLimiterConfig, t: Seq<Access>) -> bool {
    &&& t.len() == 9
    &&& is_clock(t[0])
    &&& t == seq![
        t[0],
        reset_store(config, Cell::Tokens, config.max_tokens),
        reset_store(config, Cell::LastRefill, clock_of(t[0])),
        reset_store(config, Cell::LastAccess, clock_of(t[0])),
        reset_store(config, Cell::ConsecutiveRejections, 0),
        reset_store(config, Cell::MaxWait, 0),
        reset_store(config, Cell::TotalAcquired, 0),
        reset_store(config, Cell::TotalRejected, 0),
        reset_store(config, Cell::TotalRefills, 0),
    ]
}

/// Share of the requests that were refused; none, if there were none.
pub open spec fn pressure(rejected: u64, acquired: u64) -> Ratio {
    if acquired + rejected == 0 {
        ratio(0, 1)
    } else {
        ratio(rejected as int, acquired + rejected)
    }
}

/// Taking a snapshot: the counters, the tokens, the waits, and then the counters once more for
/// the share of refused requests.
pub open spec fn metrics_run(
    config: RateLimiterConfig,
    t: Seq<Access>,
    metrics: RateLimiterMetrics,
) -> bool {
    &&& t.len() == 8
    &&& is_load(t[0], Cell::TotalAcquired, Order::Relaxed)
    &&& is_load(t[1], Cell::TotalRejected, Order::Relaxed)
    &&& is_load(t[2], Cell::TotalRefills, Order::Relaxed)
    &&& is_load(t[3], Cell::Tokens, Order::Relaxed)
    &&& is_load(t[4], Cell::ConsecutiveRejections, Order::Relaxed)
    &&& is_load(t[5], Cell::MaxWait, Order::Relaxed)
    &&& is_load(t[6], Cell::TotalRejected, Order::Relaxed)
    &&& is_load(t[7], Cell::TotalAcquired, Order::Relaxed)
    &&& metrics == (RateLimiterMetrics {
        total_acquired: loaded(t[0]),
        total_rejected: loaded(t[1]),
        total_refills: loaded(t[2]),
        current_tokens: loaded(t[3]),
        max_tokens: config.max_tokens,
        consecutive_rejections: loaded(t[4]) as u32,
        max_wait_time_ns: loaded(t[5]),
        pressure_ratio: pressure(loaded(t[6]), loaded(t[7])),
    })
}

/// Asking whether the rejections in a row show sustained pressure.
pub open spec fn pressure_run(t: Seq<Access>, pressed: bool) -> bool {
    &&& t.len() == 1
    &&& is_load(t[0], Cell::ConsecutiveRejections, Order::Relaxed)
    &&& pressed == under_pressure(loaded(t[0]))
}

/// Tokens are read, cells overwritten and values exchanged in the order that a strategy stands for.
pub proof fn law_strategies_order_accesses(strategy: MemoryOrdering)
    ensures
        strategy is Relaxed ==> reading(strategy) is Relaxed && writing(strategy) is Relaxed
            && exchanging(strategy) is Relaxed,
        strategy is AcquireRelease ==> reading(strategy) is Acquire && writing(strategy) is Release
            && exchanging(strategy) is AcqRel,
        strategy is Sequential ==> reading(strategy) is SeqCst && writing(strategy) is SeqCst
            && exchanging(strategy) is SeqCst,
{
}

} // verus!
