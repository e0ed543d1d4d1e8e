//! What the accesses of a call add up to, whatever other threads do meanwhile.

use crate::bucket::{
    adaptive_rate, elapsed_ms, periods_due, refill_amount, refill_time, topped_up, under_pressure,
    MAX_CAS_RETRIES, MAX_REPEAT_COUNT,
};
use crate::config::RateLimiterConfig;
use crate::history::{Access, Cell};
use crate::runs::{
    acquire_run, acquisition_run, available_parts, available_run, clock_of, due_refill_run,
    exchanging, granted_parts, granted_run, loaded, payout_run, pour_attempts, pour_end, pour_run, refill_run,
    rejection_run, take_many_attempts, take_many_parts, take_one_attempts, take_one_parts,
    take_one_run, take_one_slowly_run, touch_run, writing,
};
use vstd::prelude::*;

verus! {

/// What accesses add up to.
pub struct Effect {
    /// Tokens taken out of the bucket.
    pub taken: int,
    /// Tokens put into the bucket.
    pub added: int,
    /// Milliseconds whose refills were claimed.
    pub claimed: int,
    /// Requests counted as granted.
    pub acquired: int,
    /// Requests counted as refused.
    pub rejected: int,
}

impl Effect {
    /// No effect.
    pub open spec fn none() -> Effect {
        Effect { taken: 0, added: 0, claimed: 0, acquired: 0, rejected: 0 }
    }

    /// One effect after another.
    pub open spec fn plus(self, other: Effect) -> Effect {
        Effect {
            taken: self.taken + other.taken,
            added: self.added + other.added,
            claimed: self.claimed + other.claimed,
            acquired: self.acquired + other.acquired,
            rejected: self.rejected + other.rejected,
        }
    }
}

impl Access {
    /// The effect of a single access. An exchange that failed has none.
    pub open spec fn effect(self) -> Effect {
        match self {
            Access::Exchange { cell: Cell::Tokens, expected, new, outcome: Ok(_), .. } => {
                if new < expected {
                    Effect { taken: expected - new, ..Effect::none() }
                } else {
                    Effect { added: new - expected, ..Effect::none() }
                }
            },
            Access::Exchange { cell: Cell::LastRefill, expected, new, outcome: Ok(_), .. } => {
                Effect { claimed: new - expected, ..Effect::none() }
            },
            Access::Increment { cell: Cell::TotalAcquired, .. } => Effect {
                acquired: 1,
                ..Effect::none()
            },
            Access::Increment { cell: Cell::TotalRejected, .. } => Effect {
                rejected: 1,
                ..Effect::none()
            },
            _ => Effect::none(),
        }
    }

    /// The access leaves a bucket that was not over its capacity so. Only counters are
    /// incremented, and only the bucket and the refill time change by exchanges. The tokens are
    /// overwritten and exchanges made in the order of the configured strategy.
    pub open spec fn is_legal(self, config: RateLimiterConfig) -> bool {
        match self {
            Access::Store { cell: Cell::Tokens, value, order } => value <= config.max_tokens && order
                == writing(config.ordering),
            Access::Increment { cell, .. } => cell is ConsecutiveRejections || cell is TotalAcquired
                || cell is TotalRejected || cell is TotalRefills,
            Access::Exchange { cell, expected, new, success, .. } => success == exchanging(
                config.ordering,
            ) && (cell is LastRefill || (cell is Tokens && (new <= expected || new
                <= config.max_tokens))),
            _ => true,
        }
    }

    /// The access overwrites neither the bucket nor what is counted: it is not part of a reset. If
    /// it claims refills, it moves the refill time forward, and not beyond `horizon`.
    pub open spec fn is_gradual(self, horizon: u64) -> bool {
        match self {
            Access::Store { cell, .. } => cell is LastAccess || cell is ConsecutiveRejections,
            Access::Exchange { cell: Cell::LastRefill, expected, new, outcome: Ok(_), .. } => {
                expected <= new <= horizon
            },
            _ => true,
        }
    }

    /// If the access reads the clock, it reads no later time than `horizon`.
    pub open spec fn is_read_by(self, horizon: u64) -> bool {
        self matches Access::Clock { now, .. } ==> now <= horizon
    }

    /// The token counts that the access saw or expected are within the capacity of the bucket.
    pub open spec fn is_within(self, config: RateLimiterConfig) -> bool {
        match self {
            Access::Load { cell: Cell::Tokens, value, .. } => value <= config.max_tokens,
            Access::Exchange { cell: Cell::Tokens, outcome: Err(actual), .. } => actual
                <= config.max_tokens,
            _ => true,
        }
    }
}

/// The effect of accesses, one after the other.
pub open spec fn effect(t: Seq<Access>) -> Effect
    decreases t.len(),
{
    if t.len() == 0 {
        Effect::none()
    } else {
        t[0].effect().plus(effect(t.skip(1)))
    }
}

/// Every access has a property.
pub open spec fn every(t: Seq<Access>, property: spec_fn(Access) -> bool) -> bool {
    forall|i: int| 0 <= i < t.len() ==> property(#[trigger] t[i])
}

/// [`Access::is_legal`] as a property.
pub open spec fn legal(config: RateLimiterConfig) -> spec_fn(Access) -> bool {
    |access: Access| access.is_legal(config)
}

/// [`Access::is_gradual`] as a property.
pub open spec fn gradual(horizon: u64) -> spec_fn(Access) -> bool {
    |access: Access| access.is_gradual(horizon)
}

/// [`Access::is_read_by`] as a property.
pub open spec fn read_by(horizon: u64) -> spec_fn(Access) -> bool {
    |access: Access| access.is_read_by(horizon)
}

/// [`Access::is_within`] as a property.
pub open spec fn within(config: RateLimiterConfig) -> spec_fn(Access) -> bool {
    |access: Access| access.is_within(config)
}

/// Effects add up.
pub proof fn lemma_effect_joins(a: Seq<Access>, b: Seq<Access>)
    ensures
        effect(a + b) == effect(a).plus(effect(b)),
    decreases a.len(),
{
    if a.len() == 0 {
        assert(a + b =~= b);
    } else {
        assert((a + b).skip(1) =~= a.skip(1) + b);
        lemma_effect_joins(a.skip(1), b);
    }
}

/// Every access of two runs in a row has a property exactly when those of each have it.
pub proof fn lemma_every_joins(a: Seq<Access>, b: Seq<Access>, property: spec_fn(Access) -> bool)
    ensures
        every(a + b, property) <==> every(a, property) && every(b, property),
{
    if every(a + b, property) {
        assert forall|i: int| 0 <= i < a.len() implies property(#[trigger] a[i]) by {
            assert((a + b)[i] == a[i]);
        }
        assert forall|i: int| 0 <= i < b.len() implies property(#[trigger] b[i]) by {
            assert((a + b)[a.len() + i] == b[i]);
        }
    }
}

/// What holds of a whole call that is not a reset and reads the clock up to `horizon`: its accesses
/// are legal and gradual, and, where it saw no bucket over its capacity, they add up to `taken`
/// tokens taken, at most `extra` tokens put in beside the refills, and refills at most at the
/// configured rate.
pub open spec fn adds_up(
    config: RateLimiterConfig,
    horizon: u64,
    t: Seq<Access>,
    taken: int,
    extra: int,
    acquired: int,
    rejected: int,
) -> bool {
    &&& every(t, legal(config))
    &&& every(t, gradual(horizon))
    &&& effect(t).acquired == acquired
    &&& effect(t).rejected == rejected
    &&& effect(t).claimed >= 0
    &&& every(t, within(config)) ==> {
        &&& effect(t).taken == taken
        &&& 0 <= effect(t).added
        &&& config.refill_interval_ms * effect(t).added <= config.refill_interval_ms * extra
            + config.refill_rate * effect(t).claimed
    }
}

/// Two parts of a call add up.
proof fn lemma_adds_up_joins(
    config: RateLimiterConfig,
    horizon: u64,
    a: Seq<Access>,
    b: Seq<Access>,
    first: (int, int, int, int),
    second: (int, int, int, int),
)
    requires
        adds_up(config, horizon, a, first.0, first.1, first.2, first.3),
        adds_up(config, horizon, b, second.0, second.1, second.2, second.3),
    ensures
        adds_up(
            config,
            horizon,
            a + b,
            first.0 + second.0,
            first.1 + second.1,
            first.2 + second.2,
            first.3 + second.3,
        ),
{
    lemma_effect_joins(a, b);
    lemma_every_joins(a, b, legal(config));
    lemma_every_joins(a, b, gradual(horizon));
    lemma_every_joins(a, b, within(config));
    let interval = config.refill_interval_ms;
    let rate = config.refill_rate;
    let (x, y) = (effect(a), effect(b));
    assert(interval * (x.added + y.added) == interval * x.added + interval * y.added)
        by (nonlinear_arith);
    assert(interval * (first.1 + second.1) == interval * first.1 + interval * second.1)
        by (nonlinear_arith);
    assert(rate * (x.claimed + y.claimed) == rate * x.claimed + rate * y.claimed)
        by (nonlinear_arith);
}

/// A call with one access more at its front.
proof fn lemma_adds_up_first(
    config: RateLimiterConfig,
    horizon: u64,
    t: Seq<Access>,
    rest: (int, int, int, int),
)
    requires
        t.len() >= 1,
        t[0].is_legal(config),
        t[0].is_gradual(horizon),
        t[0].effect().claimed == 0,
        t[0].effect().added == 0,
        adds_up(config, horizon, t.skip(1), rest.0, rest.1, rest.2, rest.3),
    ensures
        adds_up(
            config,
            horizon,
            t,
            t[0].effect().taken + rest.0,
            rest.1,
            t[0].effect().acquired + rest.2,
            t[0].effect().rejected + rest.3,
        ),
{
    let one = seq![t[0]];
    assert(one + t.skip(1) =~= t);
    assert(one.skip(1) =~= Seq::<Access>::empty());
    reveal_with_fuel(effect, 2);
    assert(effect(one) == t[0].effect());
    let e = t[0].effect();
    assert(config.refill_interval_ms * 0 == 0) by (nonlinear_arith);
    assert(config.refill_rate * 0 == 0) by (nonlinear_arith);
    lemma_adds_up_joins(config, horizon, one, t.skip(1), (e.taken, 0, e.acquired, e.rejected), rest);
}

/// No accesses add up to nothing.
proof fn lemma_adds_up_empty(config: RateLimiterConfig, horizon: u64, t: Seq<Access>)
    requires
        t.len() == 0,
    ensures
        adds_up(config, horizon, t, 0, 0, 0, 0),
{
    assert(config.refill_interval_ms * 0 == 0) by (nonlinear_arith);
    assert(config.refill_rate * 0 == 0) by (nonlinear_arith);
}

proof fn lemma_acquisition_effect(config: RateLimiterConfig, horizon: u64, t: Seq<Access>)
    requires
        acquisition_run(t),
    ensures
        adds_up(config, horizon, t, 0, 0, 1, 0),
{
    let second = t.skip(1);
    let third = second.skip(1);
    if t.len() == 3 {
        assert(third[0] == t[2]);
        lemma_adds_up_empty(config, horizon, third.skip(1));
        lemma_adds_up_first(config, horizon, third, (0, 0, 0, 0));
    } else {
        lemma_adds_up_empty(config, horizon, third);
    }
    assert(second[0] == t[1]);
    lemma_adds_up_first(config, horizon, second, (0, 0, 0, 0));
    lemma_adds_up_first(config, horizon, t, (0, 0, 0, 0));
}

proof fn lemma_rejection_effect(config: RateLimiterConfig, horizon: u64, t: Seq<Access>)
    requires
        rejection_run(t),
    ensures
        adds_up(config, horizon, t, 0, 0, 0, 1),
{
    let second = t.skip(1);
    assert(second[0] == t[1]);
    lemma_adds_up_empty(config, horizon, second.skip(1));
    lemma_adds_up_first(config, horizon, second, (0, 0, 0, 0));
    lemma_adds_up_first(config, horizon, t, (0, 0, 0, 0));
}

proof fn lemma_touch_effect(config: RateLimiterConfig, horizon: u64, now: u64, t: Seq<Access>)
    requires
        touch_run(now, t),
    ensures
        adds_up(config, horizon, t, 0, 0, 0, 0),
{
    let second = t.skip(1);
    if t.len() == 2 {
        assert(second[0] == t[1]);
        lemma_adds_up_empty(config, horizon, second.skip(1));
        lemma_adds_up_first(config, horizon, second, (0, 0, 0, 0));
    } else {
        lemma_adds_up_empty(config, horizon, second);
    }
    lemma_adds_up_first(config, horizon, t, (0, 0, 0, 0));
}

/// What holds of attempts to add tokens, beside that their accesses are legal and gradual.
pub open spec fn pours(config: RateLimiterConfig, horizon: u64, amount: u64, t: Seq<Access>) -> bool {
    &&& every(t, legal(config))
    &&& every(t, gradual(horizon))
    &&& effect(t).acquired == 0
    &&& effect(t).rejected == 0
    &&& effect(t).claimed == 0
    &&& every(t, within(config)) ==> effect(t).taken == 0 && 0 <= effect(t).added <= amount
}

proof fn lemma_pour_end_effect(config: RateLimiterConfig, horizon: u64, counted: bool, t: Seq<Access>)
    requires
        pour_end(counted, t),
    ensures
        pours(config, horizon, 0, t),
{
    if counted {
        assert(t.skip(1).len() == 0);
        reveal_with_fuel(effect, 2);
    }
}

proof fn lemma_pour_attempts_effect(
    config: RateLimiterConfig,
    horizon: u64,
    amount: u64,
    counted: bool,
    retries: int,
    current: u64,
    t: Seq<Access>,
)
    requires
        pour_attempts(config, amount, counted, retries, current, t),
    ensures
        every(t, legal(config)),
        every(t, gradual(horizon)),
        current <= config.max_tokens ==> pours(config, horizon, amount, t),
        effect(t).acquired == 0,
        effect(t).rejected == 0,
        effect(t).claimed == 0,
    decreases t.len(),
{
    let new = topped_up(current, amount, config.max_tokens);
    if new == current {
        lemma_pour_end_effect(config, horizon, counted, t);
    } else {
        let one = seq![t[0]];
        let rest = t.skip(1);
        assert(one + rest =~= t);
        lemma_every_joins(one, rest, legal(config));
        lemma_every_joins(one, rest, gradual(horizon));
        lemma_every_joins(one, rest, within(config));
        assert(effect(t) == t[0].effect().plus(effect(rest)));
        match t[0]->outcome {
            Ok(_) => {
                lemma_pour_end_effect(config, horizon, counted, rest);
            },
            Err(actual) => {
                if retries + 1 >= MAX_CAS_RETRIES {
                    assert(effect(rest) == Effect::none());
                } else {
                    lemma_pour_attempts_effect(
                        config,
                        horizon,
                        amount,
                        counted,
                        retries + 1,
                        actual,
                        rest,
                    );
                    assert(every(t, within(config)) ==> within(config)(t[0]));
                }
            },
        }
    }
}

proof fn lemma_pour_effect(
    config: RateLimiterConfig,
    horizon: u64,
    amount: u64,
    counted: bool,
    t: Seq<Access>,
)
    requires
        pour_run(config, amount, counted, t),
    ensures
        pours(config, horizon, amount, t),
{
    let one = seq![t[0]];
    let rest = t.skip(1);
    assert(one + rest =~= t);
    lemma_every_joins(one, rest, legal(config));
    lemma_every_joins(one, rest, gradual(horizon));
    lemma_every_joins(one, rest, within(config));
    lemma_pour_attempts_effect(config, horizon, amount, counted, 0, loaded(t[0]), rest);
    assert(every(t, within(config)) ==> within(config)(t[0]));
}

/// A payout puts in no more than the configured rate allows.
proof fn lemma_payout_effect(config: RateLimiterConfig, horizon: u64, periods: int, t: Seq<Access>)
    requires
        payout_run(config, periods, t),
        0 <= periods,
        config.refill_rate * periods <= u64::MAX,
    ensures
        pours(config, horizon, (config.refill_rate * periods) as u64, t),
{
    let rate = config.refill_rate;
    let (front, rest) = if under_pressure(loaded(t[0])) {
        (seq![t[0], t[1], t[2]], t.skip(3))
    } else {
        (seq![t[0]], t.skip(1))
    };
    assert(front + rest =~= t);
    lemma_effect_joins(front, rest);
    lemma_every_joins(front, rest, legal(config));
    lemma_every_joins(front, rest, gradual(horizon));
    lemma_every_joins(front, rest, within(config));
    assert(effect(front) == Effect::none()) by {
        reveal_with_fuel(effect, 4);
    }
    if under_pressure(loaded(t[0])) {
        let slow = adaptive_rate(rate, loaded(t[2]), loaded(t[1]));
        assert(0 <= slow <= rate);
        assert(slow * periods <= rate * periods) by (nonlinear_arith)
            requires
                slow <= rate,
                0 <= periods,
        ;
        assert(0 <= slow * periods) by (nonlinear_arith)
            requires
                0 <= slow,
                0 <= periods,
        ;
        lemma_pour_effect(
            config,
            horizon,
            refill_amount(slow as u32, periods, config.max_tokens) as u64,
            true,
            rest,
        );
    } else {
        assert(0 <= rate * periods) by (nonlinear_arith)
            requires
                0 <= periods,
        ;
        lemma_pour_effect(
            config,
            horizon,
            refill_amount(rate, periods, config.max_tokens) as u64,
            true,
            rest,
        );
    }
}

/// The time that a refill settles is that of all whole periods that have passed, of which it pays
/// out at most the limit.
pub proof fn lemma_claimed_time(last: u64, now: u64, interval: u64)
    requires
        interval > 0,
    ensures
        ({
            let elapsed = elapsed_ms(now, last);
            let passed = elapsed as int / interval as int;
            let periods = periods_due(elapsed, interval);
            &&& 0 <= periods <= passed
            &&& 0 <= passed * interval <= elapsed < passed * interval + interval
            &&& refill_time(last, now, interval) == last + passed * interval
            &&& last <= refill_time(last, now, interval)
            &&& refill_time(last, now, interval) <= now || passed == 0
        }),
{
    let elapsed = elapsed_ms(now, last);
    let passed = elapsed as int / interval as int;
    assert(0 <= passed && 0 <= passed * interval <= elapsed && elapsed < passed * interval
        + interval) by (nonlinear_arith)
        requires
            interval > 0,
            0 <= elapsed,
            passed == elapsed as int / interval as int,
    ;
}

proof fn lemma_refill_effect(config: RateLimiterConfig, horizon: u64, now: u64, t: Seq<Access>)
    requires
        config.is_valid(),
        refill_run(config, now, t),
        now <= horizon,
    ensures
        adds_up(config, horizon, t, 0, 0, 0, 0),
{
    let last = loaded(t[0]);
    let interval = config.refill_interval_ms;
    let rate = config.refill_rate;
    let periods = periods_due(elapsed_ms(now, last), interval);
    let passed = elapsed_ms(now, last) as int / interval as int;
    assert(interval * 0 == 0) by (nonlinear_arith);
    if periods == 0 {
        lemma_adds_up_empty(config, horizon, t.skip(1));
        lemma_adds_up_first(config, horizon, t, (0, 0, 0, 0));
    } else {
        lemma_claimed_time(last, now, interval);
        let front = seq![t[0], t[1]];
        let rest = t.skip(2);
        assert(front + rest =~= t);
        lemma_effect_joins(front, rest);
        lemma_every_joins(front, rest, legal(config));
        lemma_every_joins(front, rest, gradual(horizon));
        lemma_every_joins(front, rest, within(config));
        match t[1]->outcome {
            Ok(_) => {
                assert(effect(front) == (Effect {
                    claimed: passed * interval,
                    ..Effect::none()
                })) by {
                    reveal_with_fuel(effect, 3);
                }
                assert(0 <= rate * periods <= u32::MAX * 100) by (nonlinear_arith)
                    requires
                        0 <= rate <= u32::MAX,
                        0 <= periods <= 100,
                ;
                lemma_payout_effect(config, horizon, periods, rest);
                let added = effect(rest).added;
                assert(added <= rate * periods ==> interval * added <= rate * (passed * interval))
                    by (nonlinear_arith)
                    requires
                        interval > 0,
                        periods <= passed,
                        0 <= rate,
                ;
            },
            Err(_) => {
                assert(effect(front) == Effect::none()) by {
                    reveal_with_fuel(effect, 3);
                }
                assert(rate * 0 == 0) by (nonlinear_arith);
            },
        }
    }
}

proof fn lemma_due_refill_effect(config: RateLimiterConfig, horizon: u64, now: u64, t: Seq<Access>)
    requires
        config.is_valid(),
        due_refill_run(config, now, t),
        now <= horizon,
    ensures
        adds_up(config, horizon, t, 0, 0, 0, 0),
{
    if elapsed_ms(now, loaded(t[0])) >= config.refill_interval_ms {
        lemma_refill_effect(config, horizon, now, t.skip(1));
    } else {
        lemma_adds_up_empty(config, horizon, t.skip(1));
    }
    lemma_adds_up_first(config, horizon, t, (0, 0, 0, 0));
}

/// One if it holds, and else zero.
pub open spec fn as_count(holds: bool) -> int {
    if holds {
        1
    } else {
        0
    }
}

/// Tokens that a request takes: all that it asked for, or none.
pub open spec fn tokens_of(n: u64, granted: bool) -> int {
    if granted {
        n as int
    } else {
        0
    }
}

/// A load and an exchange that took `n` tokens or failed, in front of the rest.
proof fn lemma_attempt_effect(
    config: RateLimiterConfig,
    horizon: u64,
    n: u64,
    t: Seq<Access>,
    rest: (int, int, int, int),
)
    requires
        t.len() >= 2,
        t[0] matches Access::Load { cell: Cell::Tokens, value, .. } && value >= n && (
        t[1] matches Access::Exchange { cell: Cell::Tokens, expected, new, success, .. } && expected
            == value && new == expected - n && success == exchanging(config.ordering)),
        adds_up(config, horizon, t.skip(2), rest.0, rest.1, rest.2, rest.3),
    ensures
        adds_up(
            config,
            horizon,
            t,
            tokens_of(n, t[1]->outcome is Ok) + rest.0,
            rest.1,
            rest.2,
            rest.3,
        ),
{
    let second = t.skip(1);
    assert(second[0] == t[1]);
    assert(second.skip(1) =~= t.skip(2));
    lemma_adds_up_first(config, horizon, second, rest);
    lemma_adds_up_first(config, horizon, t, (tokens_of(n, t[1]->outcome is Ok) + rest.0, rest.1, rest.2, rest.3));
}

proof fn lemma_take_one_attempts_effect(
    config: RateLimiterConfig,
    horizon: u64,
    retries: int,
    t: Seq<Access>,
    granted: bool,
)
    requires
        take_one_attempts(config, retries, t, granted),
    ensures
        adds_up(config, horizon, t, as_count(granted), 0, as_count(granted), as_count(!granted)),
    decreases t.len(),
{
    if loaded(t[0]) == 0 {
        lemma_rejection_effect(config, horizon, t.skip(1));
        lemma_adds_up_first(config, horizon, t, (0, 0, 0, 1));
    } else {
        match t[1]->outcome {
            Ok(_) => {
                lemma_acquisition_effect(config, horizon, t.skip(2));
                lemma_attempt_effect(config, horizon, 1, t, (0, 0, 1, 0));
            },
            Err(actual) => {
                if actual == 0 || retries + 1 >= MAX_CAS_RETRIES {
                    lemma_rejection_effect(config, horizon, t.skip(2));
                    lemma_attempt_effect(config, horizon, 1, t, (0, 0, 0, 1));
                } else {
                    lemma_take_one_attempts_effect(config, horizon, retries + 1, t.skip(2), granted);
                    lemma_attempt_effect(
                        config,
                        horizon,
                        1,
                        t,
                        (as_count(granted), 0, as_count(granted), as_count(!granted)),
                    );
                }
            },
        }
    }
}

proof fn lemma_take_many_attempts_effect(
    config: RateLimiterConfig,
    horizon: u64,
    n: u64,
    retries: int,
    last_seen: u64,
    repeats: int,
    t: Seq<Access>,
    granted: bool,
)
    requires
        take_many_attempts(config, n, retries, last_seen, repeats, t, granted),
    ensures
        adds_up(config, horizon, t, tokens_of(n, granted), 0, as_count(granted), as_count(!granted)),
    decreases t.len(),
{
    let current = loaded(t[0]);
    if current < n {
        lemma_rejection_effect(config, horizon, t.skip(1));
        lemma_adds_up_first(config, horizon, t, (0, 0, 0, 1));
    } else {
        let seen_again = if current == last_seen {
            repeats + 1
        } else {
            0
        };
        let last_chance = current == last_seen && seen_again >= MAX_REPEAT_COUNT;
        match t[1]->outcome {
            Ok(_) => {
                lemma_acquisition_effect(config, horizon, t.skip(2));
                lemma_attempt_effect(config, horizon, n, t, (0, 0, 1, 0));
            },
            Err(actual) => {
                if last_chance || actual < n || retries + 1 >= MAX_CAS_RETRIES {
                    lemma_rejection_effect(config, horizon, t.skip(2));
                    lemma_attempt_effect(config, horizon, n, t, (0, 0, 0, 1));
                } else {
                    lemma_take_many_attempts_effect(
                        config,
                        horizon,
                        n,
                        retries + 1,
                        current,
                        seen_again,
                        t.skip(2),
                        granted,
                    );
                    lemma_attempt_effect(
                        config,
                        horizon,
                        n,
                        t,
                        (tokens_of(n, granted), 0, as_count(granted), as_count(!granted)),
                    );
                }
            },
        }
    }
}

/// A clock reading, two parts without tokens taken or requests counted, then the attempts.
proof fn lemma_four_parts_effect(
    config: RateLimiterConfig,
    horizon: u64,
    clock: Access,
    touch: Seq<Access>,
    refill: Seq<Access>,
    attempts: Seq<Access>,
    last: (int, int, int, int),
)
    requires
        clock is Clock,
        adds_up(config, horizon, touch, 0, 0, 0, 0),
        adds_up(config, horizon, refill, 0, 0, 0, 0),
        adds_up(config, horizon, attempts, last.0, last.1, last.2, last.3),
    ensures
        adds_up(config, horizon, seq![clock] + touch + refill + attempts, last.0, last.1, last.2, last.3),
{
    let one = seq![clock];
    lemma_adds_up_empty(config, horizon, one.skip(1));
    lemma_adds_up_first(config, horizon, one, (0, 0, 0, 0));
    lemma_adds_up_joins(config, horizon, one, touch, (0, 0, 0, 0), (0, 0, 0, 0));
    lemma_adds_up_joins(config, horizon, one + touch, refill, (0, 0, 0, 0), (0, 0, 0, 0));
    lemma_adds_up_joins(config, horizon, one + touch + refill, attempts, (0, 0, 0, 0), last);
}

proof fn lemma_take_one_slowly_effect(config: RateLimiterConfig, horizon: u64, t: Seq<Access>, granted: bool)
    requires
        config.is_valid(),
        take_one_slowly_run(config, t, granted),
        every(t, read_by(horizon)),
    ensures
        adds_up(config, horizon, t, as_count(granted), 0, as_count(granted), as_count(!granted)),
{
    let (clock, touch, refill, attempts) = choose|
        clock: Access,
        touch: Seq<Access>,
        refill: Seq<Access>,
        attempts: Seq<Access>,
    | #[trigger]
        take_one_parts(config, clock, touch, refill, attempts, granted) && t == seq![clock] + touch
            + refill + attempts;
    assert(t[0] == clock);
    assert(read_by(horizon)(t[0]));
    lemma_touch_effect(config, horizon, clock_of(clock), touch);
    lemma_due_refill_effect(config, horizon, clock_of(clock), refill);
    lemma_take_one_attempts_effect(config, horizon, 0, attempts, granted);
    lemma_four_parts_effect(
        config,
        horizon,
        clock,
        touch,
        refill,
        attempts,
        (as_count(granted), 0, as_count(granted), as_count(!granted)),
    );
}

proof fn lemma_granted_effect(config: RateLimiterConfig, horizon: u64, t: Seq<Access>)
    requires
        granted_run(t),
    ensures
        adds_up(config, horizon, t, 0, 0, 1, 0),
{
    let (acquisition, clock, touch) = choose|
        acquisition: Seq<Access>,
        clock: Access,
        touch: Seq<Access>,
    | #[trigger]
        granted_parts(acquisition, clock, touch) && t == acquisition + seq![clock] + touch;
    lemma_acquisition_effect(config, horizon, acquisition);
    lemma_touch_effect(config, horizon, clock_of(clock), touch);
    let one = seq![clock];
    lemma_adds_up_empty(config, horizon, one.skip(1));
    lemma_adds_up_first(config, horizon, one, (0, 0, 0, 0));
    lemma_adds_up_joins(config, horizon, acquisition, one, (0, 0, 1, 0), (0, 0, 0, 0));
    lemma_adds_up_joins(config, horizon, acquisition + one, touch, (0, 0, 1, 0), (0, 0, 0, 0));
}

proof fn lemma_take_one_effect(config: RateLimiterConfig, horizon: u64, t: Seq<Access>, granted: bool)
    requires
        config.is_valid(),
        take_one_run(config, t, granted),
        every(t, read_by(horizon)),
    ensures
        adds_up(config, horizon, t, as_count(granted), 0, as_count(granted), as_count(!granted)),
{
    let whole = (as_count(granted), 0int, as_count(granted), as_count(!granted));
    if loaded(t[0]) > 0 {
        match t[1]->outcome {
            Ok(_) => {
                lemma_granted_effect(config, horizon, t.skip(2));
                lemma_attempt_effect(config, horizon, 1, t, (0, 0, 1, 0));
            },
            Err(_) => {
                assert(seq![t[0], t[1]] + t.skip(2) =~= t);
                lemma_every_joins(seq![t[0], t[1]], t.skip(2), read_by(horizon));
                lemma_take_one_slowly_effect(config, horizon, t.skip(2), granted);
                lemma_attempt_effect(config, horizon, 1, t, whole);
            },
        }
    } else {
        assert(seq![t[0]] + t.skip(1) =~= t);
        lemma_every_joins(seq![t[0]], t.skip(1), read_by(horizon));
        lemma_take_one_slowly_effect(config, horizon, t.skip(1), granted);
        lemma_adds_up_first(config, horizon, t, whole);
    }
}

/// A request takes all the tokens that it asked for or none, and is counted once, as granted or
/// as refused; a request for no tokens is not counted.
pub proof fn lemma_acquire_effect(
    config: RateLimiterConfig,
    horizon: u64,
    n: u64,
    t: Seq<Access>,
    granted: bool,
)
    requires
        config.is_valid(),
        acquire_run(config, n, t, granted),
        every(t, read_by(horizon)),
    ensures
        adds_up(
            config,
            horizon,
            t,
            tokens_of(n, granted),
            0,
            as_count(n > 0 && granted),
            as_count(n > 0 && !granted),
        ),
{
    if n == 0 {
        lemma_adds_up_empty(config, horizon, t);
    } else if n == 1 {
        lemma_take_one_effect(config, horizon, t, granted);
    } else if n > config.max_tokens {
        lemma_rejection_effect(config, horizon, t);
    } else {
        let (clock, touch, refill, attempts) = choose|
            clock: Access,
            touch: Seq<Access>,
            refill: Seq<Access>,
            attempts: Seq<Access>,
        | #[trigger]
            take_many_parts(config, n, clock, touch, refill, attempts, granted) && t == seq![clock]
                + touch + refill + attempts;
        assert(t[0] == clock);
        assert(read_by(horizon)(t[0]));
        lemma_touch_effect(config, horizon, clock_of(clock), touch);
        lemma_refill_effect(config, horizon, clock_of(clock), refill);
        lemma_take_many_attempts_effect(config, horizon, n, 0, u64::MAX, 0, attempts, granted);
        lemma_four_parts_effect(
            config,
            horizon,
            clock,
            touch,
            refill,
            attempts,
            (tokens_of(n, granted), 0, as_count(granted), as_count(!granted)),
        );
    }
}

/// Adding tokens by hand puts in at most as many as were given.
pub proof fn lemma_addition_effect(config: RateLimiterConfig, horizon: u64, n: u64, t: Seq<Access>)
    requires
        pour_run(config, n, false, t),
    ensures
        adds_up(config, horizon, t, 0, n as int, 0, 0),
{
    lemma_pour_effect(config, horizon, n, false, t);
    let interval = config.refill_interval_ms;
    let added = effect(t).added;
    assert(added <= n ==> interval * added <= interval * n) by (nonlinear_arith);
    assert(config.refill_rate * 0 == 0) by (nonlinear_arith);
}

/// Counting the available tokens only refills.
pub proof fn lemma_count_effect(config: RateLimiterConfig, horizon: u64, t: Seq<Access>, tokens: u64)
    requires
        config.is_valid(),
        available_run(config, t, tokens),
        every(t, read_by(horizon)),
    ensures
        adds_up(config, horizon, t, 0, 0, 0, 0),
{
    let (clock, refill, count) = choose|clock: Access, refill: Seq<Access>, count: Access|
        #[trigger] available_parts(config, clock, refill, count) && loaded(count) == tokens && t
            == seq![clock] + refill + seq![count];
    assert(t[0] == clock);
    assert(read_by(horizon)(t[0]));
    lemma_refill_effect(config, horizon, clock_of(clock), refill);
    let one = seq![clock];
    let last = seq![count];
    lemma_adds_up_empty(config, horizon, one.skip(1));
    lemma_adds_up_first(config, horizon, one, (0, 0, 0, 0));
    lemma_adds_up_empty(config, horizon, last.skip(1));
    lemma_adds_up_first(config, horizon, last, (0, 0, 0, 0));
    lemma_adds_up_joins(config, horizon, one, refill, (0, 0, 0, 0), (0, 0, 0, 0));
    lemma_adds_up_joins(config, horizon, one + refill, last, (0, 0, 0, 0), (0, 0, 0, 0));
}

/// Accesses that only read have no effect.
pub proof fn lemma_reading_effect(config: RateLimiterConfig, horizon: u64, t: Seq<Access>)
    requires
        forall|i: int| 0 <= i < t.len() ==> #[trigger] t[i] is Clock || t[i] is Load,
    ensures
        adds_up(config, horizon, t, 0, 0, 0, 0),
    decreases t.len(),
{
    if t.len() == 0 {
        lemma_adds_up_empty(config, horizon, t);
    } else {
        lemma_reading_effect(config, horizon, t.skip(1));
        lemma_adds_up_first(config, horizon, t, (0, 0, 0, 0));
    }
}

impl Access {
    /// The access is an exchange of the token count.
    pub open spec fn is_attempt(self) -> bool {
        self matches Access::Exchange { cell: Cell::Tokens, .. }
    }

    /// The access changed the token count.
    pub open spec fn changes_tokens(self) -> bool {
        match self {
            Access::Store { cell, .. } => cell is Tokens,
            Access::Increment { cell, .. } => cell is Tokens,
            Access::Exchange { cell, outcome, .. } => cell is Tokens && outcome is Ok,
            _ => false,
        }
    }

    /// The access took `n` tokens, in one step, from a count that had as many.
    pub open spec fn takes(self, n: u64) -> bool {
        self matches Access::Exchange { cell: Cell::Tokens, expected, new, outcome: Ok(_), .. }
            && expected >= n && new == expected - n
    }
}

/// Accesses that have a property.
pub open spec fn number(t: Seq<Access>, property: spec_fn(Access) -> bool) -> int
    decreases t.len(),
{
    if t.len() == 0 {
        0
    } else {
        as_count(property(t[0])) + number(t.skip(1), property)
    }
}

/// Exchanges of the token count, successful or not.
pub open spec fn attempts_in(t: Seq<Access>) -> int {
    number(t, |access: Access| access.is_attempt())
}

/// Changes of the token count.
pub open spec fn changes_in(t: Seq<Access>) -> int {
    number(t, |access: Access| access.changes_tokens())
}

/// Steps that took `n` tokens.
pub open spec fn takes_in(t: Seq<Access>, n: u64) -> int {
    number(t, |access: Access| access.takes(n))
}

/// Counting a request neither tries nor changes the token count.
proof fn lemma_counting_changes_nothing(t: Seq<Access>, n: u64)
    requires
        acquisition_run(t) || rejection_run(t),
    ensures
        attempts_in(t) == 0,
        changes_in(t) == 0,
        takes_in(t, n) == 0,
{
    reveal_with_fuel(number, 4);
    assert(t.skip(1).skip(1) =~= t.skip(2));
    if t.len() == 3 {
        assert(t.skip(2).skip(1).len() == 0);
        assert(t.skip(2)[0] == t[2]);
    }
    assert(t.skip(1)[0] == t[1]);
}

/// The first access, and the first two, of a sequence that is counted.
proof fn lemma_number_front(t: Seq<Access>, property: spec_fn(Access) -> bool)
    requires
        t.len() >= 1,
    ensures
        number(t, property) == as_count(property(t[0])) + number(t.skip(1), property),
        t.len() >= 2 ==> number(t, property) == as_count(property(t[0])) + as_count(property(t[1]))
            + number(t.skip(2), property),
{
    reveal_with_fuel(number, 2);
    if t.len() >= 2 {
        assert(t.skip(1)[0] == t[1]);
        assert(t.skip(1).skip(1) =~= t.skip(2));
    }
}

proof fn lemma_fronts(t: Seq<Access>, n: u64)
    requires
        t.len() >= 1,
    ensures
        ({
            let rest = t.skip(1);
            &&& attempts_in(t) == as_count(t[0].is_attempt()) + attempts_in(rest)
            &&& changes_in(t) == as_count(t[0].changes_tokens()) + changes_in(rest)
            &&& takes_in(t, n) == as_count(t[0].takes(n)) + takes_in(rest, n)
        }),
        t.len() >= 2 ==> {
            let rest = t.skip(2);
            &&& attempts_in(t) == as_count(t[0].is_attempt()) + as_count(t[1].is_attempt())
                + attempts_in(rest)
            &&& changes_in(t) == as_count(t[0].changes_tokens()) + as_count(t[1].changes_tokens())
                + changes_in(rest)
            &&& takes_in(t, n) == as_count(t[0].takes(n)) + as_count(t[1].takes(n)) + takes_in(
                rest,
                n,
            )
        },
{
    lemma_number_front(t, |access: Access| access.is_attempt());
    lemma_number_front(t, |access: Access| access.changes_tokens());
    lemma_number_front(t, |access: Access| access.takes(n));
}

/// However many threads compete, the attempts to take several tokens end after at most sixteen
/// exchanges. Granted, the call changed the token count in one single step, from a count that had
/// as many tokens; refused, it never changed the count. It is counted once.
pub proof fn law_attempts_are_bounded(
    config: RateLimiterConfig,
    n: u64,
    retries: int,
    last_seen: u64,
    repeats: int,
    t: Seq<Access>,
    granted: bool,
)
    requires
        take_many_attempts(config, n, retries, last_seen, repeats, t, granted),
        0 <= retries < 16,
    ensures
        attempts_in(t) <= 16 - retries,
        changes_in(t) == as_count(granted),
        takes_in(t, n) == as_count(granted),
        effect(t).acquired == as_count(granted),
        effect(t).rejected == as_count(!granted),
    decreases t.len(),
{
    lemma_take_many_attempts_effect(
        config,
        u64::MAX,
        n,
        retries,
        last_seen,
        repeats,
        t,
        granted,
    );
    lemma_fronts(t, n);
    let current = loaded(t[0]);
    if current < n {
        lemma_counting_changes_nothing(t.skip(1), n);
    } else {
        let seen_again = if current == last_seen {
            repeats + 1
        } else {
            0
        };
        let last_chance = current == last_seen && seen_again >= MAX_REPEAT_COUNT;
        let rest = t.skip(2);
        match t[1]->outcome {
            Ok(_) => lemma_counting_changes_nothing(rest, n),
            Err(actual) => {
                if last_chance || actual < n || retries + 1 >= MAX_CAS_RETRIES {
                    lemma_counting_changes_nothing(rest, n);
                } else {
                    law_attempts_are_bounded(
                        config,
                        n,
                        retries + 1,
                        current,
                        seen_again,
                        rest,
                        granted,
                    );
                }
            },
        }
    }
}

/// The same of the attempts to take one token.
pub proof fn law_single_attempts_are_bounded(
    config: RateLimiterConfig,
    retries: int,
    t: Seq<Access>,
    granted: bool,
)
    requires
        take_one_attempts(config, retries, t, granted),
        0 <= retries < 16,
    ensures
        attempts_in(t) <= 16 - retries,
        changes_in(t) == as_count(granted),
        takes_in(t, 1) == as_count(granted),
        effect(t).acquired == as_count(granted),
        effect(t).rejected == as_count(!granted),
    decreases t.len(),
{
    lemma_take_one_attempts_effect(config, u64::MAX, retries, t, granted);
    lemma_fronts(t, 1);
    if loaded(t[0]) == 0 {
        lemma_counting_changes_nothing(t.skip(1), 1);
    } else {
        let rest = t.skip(2);
        match t[1]->outcome {
            Ok(_) => lemma_counting_changes_nothing(rest, 1),
            Err(actual) => {
                if actual == 0 || retries + 1 >= MAX_CAS_RETRIES {
                    lemma_counting_changes_nothing(rest, 1);
                } else {
                    law_single_attempts_are_bounded(config, retries + 1, rest, granted);
                }
            },
        }
    }
}

/// Some access saw fewer than `n` tokens.
pub open spec fn saw_fewer_than(t: Seq<Access>, n: u64) -> bool {
    exists|i: int|
        0 <= i < t.len() && match #[trigger] t[i] {
            Access::Load { cell: Cell::Tokens, value, .. } => value < n,
            Access::Exchange { cell: Cell::Tokens, outcome: Err(actual), .. } => actual < n,
            _ => false,
        }
}

/// A strong exchange of the token count failed.
pub open spec fn strongly_failed(t: Seq<Access>) -> bool {
    exists|i: int|
        0 <= i < t.len() && match #[trigger] t[i] {
            Access::Exchange { cell: Cell::Tokens, weak: false, outcome: Err(_), .. } => true,
            _ => false,
        }
}

/// What was seen in the end was seen.
proof fn lemma_seen_later(t: Seq<Access>, many: int, n: u64)
    requires
        0 <= many <= t.len(),
    ensures
        saw_fewer_than(t.skip(many), n) ==> saw_fewer_than(t, n),
        strongly_failed(t.skip(many)) ==> strongly_failed(t),
{
    let rest = t.skip(many);
    if saw_fewer_than(rest, n) {
        let i = choose|i: int|
            0 <= i < rest.len() && match #[trigger] rest[i] {
                Access::Load { cell: Cell::Tokens, value, .. } => value < n,
                Access::Exchange { cell: Cell::Tokens, outcome: Err(actual), .. } => actual < n,
                _ => false,
            };
        assert(t[many + i] == rest[i]);
    }
    if strongly_failed(rest) {
        let i = choose|i: int|
            0 <= i < rest.len() && match #[trigger] rest[i] {
                Access::Exchange { cell: Cell::Tokens, weak: false, outcome: Err(_), .. } => true,
                _ => false,
            };
        assert(t[many + i] == rest[i]);
    }
}

/// A request for several tokens is refused for a reason only: it saw too few tokens, or sixteen
/// exchanges failed, or a count that was seen again and again could not be exchanged with a strong
/// exchange either.
pub proof fn law_refusal_has_a_reason(
    config: RateLimiterConfig,
    n: u64,
    retries: int,
    last_seen: u64,
    repeats: int,
    t: Seq<Access>,
)
    requires
        take_many_attempts(config, n, retries, last_seen, repeats, t, false),
        0 <= retries < 16,
        0 <= repeats < 3,
    ensures
        saw_fewer_than(t, n) || attempts_in(t) == 16 - retries || (strongly_failed(t)
            && attempts_in(t) >= 3 - repeats),
    decreases t.len(),
{
    law_attempts_are_bounded(config, n, retries, last_seen, repeats, t, false);
    lemma_fronts(t, n);
    let current = loaded(t[0]);
    if current < n {
        assert(saw_fewer_than(t, n));
    } else {
        let seen_again = if current == last_seen {
            repeats + 1
        } else {
            0
        };
        let last_chance = current == last_seen && seen_again >= MAX_REPEAT_COUNT;
        let rest = t.skip(2);
        let actual = t[1]->outcome->Err_0;
        if actual < n {
            assert(match t[1] {
                Access::Exchange { cell: Cell::Tokens, outcome: Err(actual), .. } => actual < n,
                _ => false,
            });
        } else if last_chance {
            lemma_counting_changes_nothing(rest, n);
            assert(match t[1] {
                Access::Exchange { cell: Cell::Tokens, weak: false, outcome: Err(_), .. } => true,
                _ => false,
            });
            assert(strongly_failed(t));
        } else if retries + 1 >= MAX_CAS_RETRIES {
            lemma_counting_changes_nothing(rest, n);
        } else {
            law_refusal_has_a_reason(config, n, retries + 1, current, seen_again, rest);
            lemma_seen_later(t, 2, n);
        }
    }
}

/// A request for one token is refused for a reason only: it saw an empty bucket, or sixteen
/// exchanges failed.
pub proof fn law_single_refusal_has_a_reason(
    config: RateLimiterConfig,
    retries: int,
    t: Seq<Access>,
)
    requires
        take_one_attempts(config, retries, t, false),
        0 <= retries < 16,
    ensures
        saw_fewer_than(t, 1) || attempts_in(t) == 16 - retries,
    decreases t.len(),
{
    lemma_fronts(t, 1);
    if loaded(t[0]) == 0 {
        assert(saw_fewer_than(t, 1));
    } else {
        let rest = t.skip(2);
        let actual = t[1]->outcome->Err_0;
        if actual == 0 {
            assert(match t[1] {
                Access::Exchange { cell: Cell::Tokens, outcome: Err(actual), .. } => actual < 1,
                _ => false,
            });
        } else if retries + 1 >= MAX_CAS_RETRIES {
            lemma_counting_changes_nothing(rest, 1);
        } else {
            law_single_refusal_has_a_reason(config, retries + 1, rest);
            lemma_seen_later(t, 2, 1);
        }
    }
}

impl Access {
    /// The access put `amount` tokens into the bucket in one step, as far as they fit.
    pub open spec fn fills(self, amount: u64, max_tokens: u64) -> bool {
        self matches Access::Exchange { cell: Cell::Tokens, expected, new, outcome: Ok(_), .. }
            && if expected + amount <= max_tokens {
            new == expected + amount
        } else {
            new == max_tokens
        }
    }
}

/// However many threads compete, adding tokens ends after at most sixteen exchanges. Tokens are put
/// in by one step at most, and then all of them, as far as they fit; none are put in only if there
/// are none to add, no room was left, or sixteen exchanges failed.
pub proof fn law_addition_is_made_once(
    config: RateLimiterConfig,
    amount: u64,
    counted: bool,
    t: Seq<Access>,
)
    requires
        pour_run(config, amount, counted, t),
    ensures
        attempts_in(t) <= 16,
        0 <= changes_in(t) <= 1,
        changes_in(t) == number(t, |access: Access| access.fills(amount, config.max_tokens)),
        changes_in(t) == 0 ==> amount == 0 || saw_no_room(t, config.max_tokens) || attempts_in(t)
            == 16,
{
    let fills = |access: Access| access.fills(amount, config.max_tokens);
    lemma_fronts(t, 0);
    lemma_number_front(t, fills);
    lemma_pour_attempts_bounded(config, amount, counted, 0, loaded(t[0]), t.skip(1));
    if loaded(t[0]) >= config.max_tokens {
        assert(match t[0] {
            Access::Load { cell: Cell::Tokens, value, .. } => value >= config.max_tokens,
            _ => false,
        });
        assert(saw_no_room(t, config.max_tokens));
    }
    if saw_no_room(t.skip(1), config.max_tokens) {
        let rest = t.skip(1);
        let i = choose|i: int|
            0 <= i < rest.len() && match #[trigger] rest[i] {
                Access::Load { cell: Cell::Tokens, value, .. } => value >= config.max_tokens,
                Access::Exchange { cell: Cell::Tokens, outcome: Err(actual), .. } => actual
                    >= config.max_tokens,
                _ => false,
            };
        assert(t[i + 1] == rest[i]);
    }
}

/// Some access saw a full bucket.
pub open spec fn saw_no_room(t: Seq<Access>, max_tokens: u64) -> bool {
    exists|i: int|
        0 <= i < t.len() && match #[trigger] t[i] {
            Access::Load { cell: Cell::Tokens, value, .. } => value >= max_tokens,
            Access::Exchange { cell: Cell::Tokens, outcome: Err(actual), .. } => actual
                >= max_tokens,
            _ => false,
        }
}

proof fn lemma_pour_attempts_bounded(
    config: RateLimiterConfig,
    amount: u64,
    counted: bool,
    retries: int,
    current: u64,
    t: Seq<Access>,
)
    requires
        pour_attempts(config, amount, counted, retries, current, t),
        0 <= retries < 16,
    ensures
        attempts_in(t) <= 16 - retries,
        changes_in(t) <= 1,
        changes_in(t) >= 0,
        changes_in(t) == number(t, |access: Access| access.fills(amount, config.max_tokens)),
        changes_in(t) == 0 ==> amount == 0 || current >= config.max_tokens || saw_no_room(
            t,
            config.max_tokens,
        ) || attempts_in(t) == 16 - retries,
    decreases t.len(),
{
    let fills = |access: Access| access.fills(amount, config.max_tokens);
    let new = topped_up(current, amount, config.max_tokens);
    if new == current {
        if counted {
            lemma_fronts(t, 0);
            lemma_number_front(t, fills);
        }
        reveal_with_fuel(number, 2);
    } else {
        lemma_fronts(t, 0);
        lemma_number_front(t, fills);
        let rest = t.skip(1);
        match t[0]->outcome {
            Ok(_) => {
                if counted {
                    lemma_fronts(rest, 0);
                    lemma_number_front(rest, fills);
                }
                reveal_with_fuel(number, 2);
            },
            Err(actual) => {
                if retries + 1 >= MAX_CAS_RETRIES {
                    reveal_with_fuel(number, 2);
                } else {
                    lemma_pour_attempts_bounded(config, amount, counted, retries + 1, actual, rest);
                    if actual >= config.max_tokens {
                        assert(match t[0] {
                            Access::Exchange { cell: Cell::Tokens, outcome: Err(actual), .. } => {
                                actual >= config.max_tokens
                            },
                            _ => false,
                        });
                        assert(saw_no_room(t, config.max_tokens));
                    }
                    if saw_no_room(rest, config.max_tokens) {
                        let i = choose|i: int|
                            0 <= i < rest.len() && match #[trigger] rest[i] {
                                Access::Load { cell: Cell::Tokens, value, .. } => value
                                    >= config.max_tokens,
                                Access::Exchange { cell: Cell::Tokens, outcome: Err(actual), .. } => {
                                    actual >= config.max_tokens
                                },
                                _ => false,
                            };
                        assert(t[i + 1] == rest[i]);
                    }
                }
            },
        }
    }
}

/// Accesses with a property in two runs in a row.
proof fn lemma_number_joins(a: Seq<Access>, b: Seq<Access>, property: spec_fn(Access) -> bool)
    ensures
        number(a + b, property) == number(a, property) + number(b, property),
        number(a, property) >= 0,
    decreases a.len(),
{
    if a.len() == 0 {
        assert(a + b =~= b);
    } else {
        assert((a + b).skip(1) =~= a.skip(1) + b);
        lemma_number_joins(a.skip(1), b, property);
    }
}

/// A refusal of the attempts at the end is one of the whole.
proof fn lemma_reason_at_the_end(front: Seq<Access>, attempts: Seq<Access>, n: u64)
    requires
        saw_fewer_than(attempts, n) || attempts_in(attempts) >= 16 || strongly_failed(attempts),
    ensures
        saw_fewer_than(front + attempts, n) || attempts_in(front + attempts) >= 16
            || strongly_failed(front + attempts),
{
    let t = front + attempts;
    assert(t.skip(front.len() as int) =~= attempts);
    lemma_seen_later(t, front.len() as int, n);
    lemma_number_joins(front, attempts, |access: Access| access.is_attempt());
}

proof fn lemma_slow_refusal_has_a_reason(config: RateLimiterConfig, t: Seq<Access>)
    requires
        take_one_slowly_run(config, t, false),
    ensures
        saw_fewer_than(t, 1) || attempts_in(t) >= 16 || strongly_failed(t),
{
    let (clock, touch, refill, attempts) = choose|
        clock: Access,
        touch: Seq<Access>,
        refill: Seq<Access>,
        attempts: Seq<Access>,
    | #[trigger]
        take_one_parts(config, clock, touch, refill, attempts, false) && t == seq![clock] + touch
            + refill + attempts;
    law_single_refusal_has_a_reason(config, 0, attempts);
    lemma_reason_at_the_end(seq![clock] + touch + refill, attempts, 1);
}

/// Whatever other threads do, a request that the bucket could ever hold is refused for a reason
/// only: it saw too few tokens, or its exchanges failed sixteen times, or a strong exchange failed.
pub proof fn law_no_request_is_refused_without_reason(
    config: RateLimiterConfig,
    n: u64,
    t: Seq<Access>,
)
    requires
        acquire_run(config, n, t, false),
        n <= config.max_tokens,
    ensures
        saw_fewer_than(t, n) || attempts_in(t) >= 16 || strongly_failed(t),
{
    if n == 1 {
        if loaded(t[0]) > 0 {
            lemma_slow_refusal_has_a_reason(config, t.skip(2));
            assert(seq![t[0], t[1]] + t.skip(2) =~= t);
            lemma_reason_at_the_end(seq![t[0], t[1]], t.skip(2), 1);
        } else {
            lemma_slow_refusal_has_a_reason(config, t.skip(1));
            assert(seq![t[0]] + t.skip(1) =~= t);
            lemma_reason_at_the_end(seq![t[0]], t.skip(1), 1);
        }
    } else {
        let (clock, touch, refill, attempts) = choose|
            clock: Access,
            touch: Seq<Access>,
            refill: Seq<Access>,
            attempts: Seq<Access>,
        | #[trigger]
            take_many_parts(config, n, clock, touch, refill, attempts, false) && t == seq![clock]
                + touch + refill + attempts;
        law_refusal_has_a_reason(config, n, 0, u64::MAX, 0, attempts);
        lemma_reason_at_the_end(seq![clock] + touch + refill, attempts, n);
    }
}

/// A thread that claims refills pays them out: it puts tokens into the bucket in one step, unless it
/// saw a full bucket, sixteen exchanges failed, or the rate is so low that under pressure there is
/// nothing to pay. Whether it claims does not depend on the state of the bucket: it does as soon as
/// an interval has passed.
pub proof fn law_claims_are_paid_out(config: RateLimiterConfig, now: u64, t: Seq<Access>)
    requires
        config.is_valid(),
        refill_run(config, now, t),
    ensures
        t.len() >= 1,
        t[0] matches Access::Load { cell: Cell::LastRefill, value: last, .. } && {
            &&& now < last + config.refill_interval_ms ==> t.len() == 1
            &&& now >= last + config.refill_interval_ms ==> t.len() >= 2 && (
            t[1] matches Access::Exchange { cell: Cell::LastRefill, expected, new, outcome, .. } && {
                &&& expected == last
                &&& new <= now < new + config.refill_interval_ms
                &&& outcome is Ok ==> changes_in(t) == 1 || attempts_in(t) == 16 || saw_no_room(
                    t,
                    config.max_tokens,
                ) || config.refill_rate == 1
                &&& outcome is Err ==> t.len() == 2
            })
        },
{
    let last = loaded(t[0]);
    let interval = config.refill_interval_ms;
    lemma_claimed_time(last, now, interval);
    let passed = elapsed_ms(now, last) as int / interval as int;
    if now < last + interval {
        assert(passed == 0) by (nonlinear_arith)
            requires
                0 <= passed * interval < interval,
                interval > 0,
                passed >= 0,
        ;
    } else {
        assert(passed >= 1) by (nonlinear_arith)
            requires
                passed * interval + interval > interval,
                interval > 0,
        ;
        if t[1]->outcome is Ok {
            let periods = periods_due(elapsed_ms(now, last), interval);
            let paid = t.skip(2);
            let pressed = under_pressure(loaded(paid[0]));
            let many: int = if pressed {
                3
            } else {
                1
            };
            let rate = if pressed {
                adaptive_rate(config.refill_rate, loaded(paid[2]), loaded(paid[1]))
            } else {
                config.refill_rate as int
            };
            let amount = refill_amount(rate as u32, periods, config.max_tokens) as u64;
            let pour = paid.skip(many);
            assert(pour_run(config, amount, true, pour));
            law_addition_is_made_once(config, amount, true, pour);
            let front = t.take(2 + many);
            assert(front + pour =~= t);
            lemma_number_joins(front, pour, |access: Access| access.is_attempt());
            lemma_number_joins(front, pour, |access: Access| access.changes_tokens());
            lemma_none_in(front, |access: Access| access.is_attempt());
            lemma_none_in(front, |access: Access| access.changes_tokens());
            if saw_no_room(pour, config.max_tokens) {
                let i = choose|i: int|
                    0 <= i < pour.len() && match #[trigger] pour[i] {
                        Access::Load { cell: Cell::Tokens, value, .. } => value
                            >= config.max_tokens,
                        Access::Exchange { cell: Cell::Tokens, outcome: Err(actual), .. } => actual
                            >= config.max_tokens,
                        _ => false,
                    };
                assert(t[2 + many + i] == pour[i]);
            }
            if config.refill_rate >= 2 {
                assert(rate >= 1);
                assert(1 <= rate * periods) by (nonlinear_arith)
                    requires
                        rate >= 1,
                        periods >= 1,
                ;
                assert(rate * periods <= u32::MAX * 100) by (nonlinear_arith)
                    requires
                        0 <= rate <= u32::MAX,
                        0 <= periods <= 100,
                ;
                assert(amount >= 1);
            }
        }
    }
}

/// No access has a property, so none is counted.
proof fn lemma_none_in(t: Seq<Access>, property: spec_fn(Access) -> bool)
    requires
        forall|i: int| 0 <= i < t.len() ==> !property(#[trigger] t[i]),
    ensures
        number(t, property) == 0,
    decreases t.len(),
{
    if t.len() > 0 {
        let rest = t.skip(1);
        assert forall|i: int| 0 <= i < rest.len() implies !property(#[trigger] rest[i]) by {
            assert(rest[i] == t[i + 1]);
        }
        assert(!property(t[0]));
        lemma_none_in(rest, property);
    }
}

} // verus!
