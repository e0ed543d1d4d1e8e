//! What a user of a limiter can count on, in plain figures.
//!
//! The laws here speak of what a call found in the cells of a limiter, what it left there and what
//! it returned, and of nothing in between. They hold of a call that no other thread disturbs and in
//! which no weak exchange fails without a reason; what holds whatever other threads do is in
//! [`crate::execution`].

use crate::bucket::elapsed_ms;
use crate::config::RateLimiterConfig;
use crate::effects::lemma_claimed_time;
use crate::history::{lemma_explains_joins, lemma_steady_joins, steady, Access, Memory};
use crate::limiter::RateLimiter;
use crate::metrics::{RateLimiterMetrics, Ratio};
use crate::model::{
    law_reset_starts_afresh, law_undisturbed_addition, law_undisturbed_count,
    law_undisturbed_questions, law_undisturbed_request, law_undisturbed_snapshot, shows,
};
use crate::runs::{
    acquire_run, available_run, clock_of, inactive_run, last_access_run, metrics_run, pour_run,
    pressure_run, reset_run,
};
use vstd::prelude::*;

verus! {

/// A refill, in figures.
proof fn lemma_refill_in_figures(
    config: RateLimiterConfig,
    memory: Memory,
    now: u64,
    passed: int,
    rate: int,
)
    requires
        config.is_valid(),
        memory.tokens <= config.max_tokens,
        0 <= passed,
        now < memory.last_refill ==> passed == 0,
        now >= memory.last_refill ==> passed * config.refill_interval_ms <= now
            - memory.last_refill < passed * config.refill_interval_ms + config.refill_interval_ms,
        memory.consecutive_rejections <= 10 ==> rate == config.refill_rate,
        memory.consecutive_rejections > 10 && memory.total_rejected > memory.total_acquired ==> 5
            * rate <= 4 * config.refill_rate < 5 * rate + 5,
        memory.consecutive_rejections > 10 && memory.total_rejected <= memory.total_acquired && 7
            * memory.total_rejected > 3 * memory.total_acquired ==> 10 * rate <= 9
            * config.refill_rate < 10 * rate + 10,
        memory.consecutive_rejections > 10 && 7 * memory.total_rejected <= 3
            * memory.total_acquired ==> rate == config.refill_rate,
    ensures
        ({
            let end = memory.refilled(config, now);
            let due = rate * (if passed <= 100 {
                passed
            } else {
                100
            });
            let ready = if memory.tokens + due <= config.max_tokens {
                memory.tokens + due
            } else {
                config.max_tokens as int
            };
            &&& due >= 0
            &&& end.tokens == ready
            &&& end.last_refill == memory.last_refill + passed * config.refill_interval_ms
            &&& end == (Memory {
                tokens: end.tokens,
                last_refill: end.last_refill,
                total_refills: end.total_refills,
                ..memory
            })
            &&& passed == 0 ==> end == memory
            &&& passed > 0 && memory.total_refills < u64::MAX ==> end.total_refills
                == memory.total_refills + 1
        }),
{
    let interval = config.refill_interval_ms;
    let last = memory.last_refill;
    lemma_claimed_time(last, now, interval);
    let whole = elapsed_ms(now, last) as int / interval as int;
    assert(0 * interval == 0) by (nonlinear_arith);
    assert(whole == passed) by {
        if now >= last {
            let gone = now - last;
            assert(whole == passed) by (nonlinear_arith)
                requires
                    interval > 0,
                    passed * interval <= gone < passed * interval + interval,
                    whole * interval <= gone < whole * interval + interval,
            ;
        } else {
            assert(whole == 0) by (nonlinear_arith)
                requires
                    interval > 0,
                    whole == 0int / interval as int,
            ;
        }
    }
    assert(rate == memory.refill_rate(config));
    let periods = if passed <= 100 {
        passed
    } else {
        100
    };
    assert(0 <= rate * periods <= u32::MAX * 100) by (nonlinear_arith)
        requires
            0 <= rate <= u32::MAX,
            0 <= periods <= 100,
    ;
    assert(rate * 0 == 0) by (nonlinear_arith);
}

/// A request takes its tokens exactly when they are there, once what is due was paid in.
///
/// - Nothing asked for is granted, and leaves everything as it was.
/// - More than the bucket can hold is refused, and leaves the bucket as it was.
/// - One token is taken from a bucket that has one, without a look at what is due.
/// - Otherwise `rate` tokens are paid in for each interval that has passed since the last refill,
///   for at most a hundred of them and up to the capacity. The request is granted exactly when the
///   bucket then holds enough, however many requests were refused before.
///
/// The `rate` is the configured one, unless more than ten requests in a row were refused. Then it is
/// four fifths of that, rounded down, if more requests were refused than granted, and nine tenths,
/// rounded down, if more than three in ten were refused.
pub proof fn law_request_takes_what_is_there(
    config: RateLimiterConfig,
    memory: Memory,
    n: u64,
    t: Seq<Access>,
    granted: bool,
    now: u64,
    passed: int,
    rate: int,
)
    requires
        config.is_valid(),
        memory.tokens <= config.max_tokens,
        acquire_run(config, n, t, granted),
        memory.explains(t),
        steady(t),
        forall|i: int|
            0 <= i < t.len() ==> (#[trigger] t[i] matches Access::Clock { now: read, .. } ==> read
                == now),
        0 <= passed,
        now < memory.last_refill ==> passed == 0,
        now >= memory.last_refill ==> passed * config.refill_interval_ms <= now
            - memory.last_refill < passed * config.refill_interval_ms + config.refill_interval_ms,
        memory.consecutive_rejections <= 10 ==> rate == config.refill_rate,
        memory.consecutive_rejections > 10 && memory.total_rejected > memory.total_acquired ==> 5
            * rate <= 4 * config.refill_rate < 5 * rate + 5,
        memory.consecutive_rejections > 10 && memory.total_rejected <= memory.total_acquired && 7
            * memory.total_rejected > 3 * memory.total_acquired ==> 10 * rate <= 9
            * config.refill_rate < 10 * rate + 10,
        memory.consecutive_rejections > 10 && 7 * memory.total_rejected <= 3
            * memory.total_acquired ==> rate == config.refill_rate,
    ensures
        ({
            let end = memory.after_all(t);
            let due = rate * (if passed <= 100 {
                passed
            } else {
                100
            });
            let ready = if memory.tokens + due <= config.max_tokens {
                memory.tokens + due
            } else {
                config.max_tokens as int
            };
            if n == 0 {
                granted && end == memory
            } else if n > config.max_tokens {
                !granted && end.tokens == memory.tokens && end.last_refill == memory.last_refill
                    && end.total_refills == memory.total_refills
            } else if n == 1 && memory.tokens >= 1 {
                granted && end.tokens == memory.tokens - 1 && end.last_refill == memory.last_refill
                    && end.total_refills == memory.total_refills
            } else {
                &&& granted <==> ready >= n
                &&& granted ==> end.tokens == ready - n
                &&& !granted ==> end.tokens == ready
                &&& end.last_refill == memory.last_refill + passed * config.refill_interval_ms
                &&& passed == 0 ==> end.total_refills == memory.total_refills
                &&& passed > 0 && memory.total_refills < u64::MAX ==> end.total_refills
                    == memory.total_refills + 1
            }
        }),
{
    law_undisturbed_request(config, memory, n, t, granted);
    let seen = choose|seen: u64|
        {
            &&& 1 <= n <= config.max_tokens ==> shows(t, seen)
            &&& granted == #[trigger] memory.grants(config, n, seen)
            &&& memory.after_all(t) == memory.after_request(config, n, seen)
        };
    if 1 <= n <= config.max_tokens {
        assert(seen == now);
        lemma_refill_in_figures(config, memory, now, passed, rate);
        lemma_refill_in_figures(config, memory.touched(now), now, passed, rate);
    }
}

/// A request is counted once, as granted or as refused: a grant ends the series of rejections, a
/// refusal makes it longer by one. The access time is set to the time of the request, unless that
/// is at most a tenth of a second later; a request for more than the bucket can hold leaves it. A
/// request for nothing is not counted. The longest wait stays.
pub proof fn law_request_is_counted_once(
    config: RateLimiterConfig,
    memory: Memory,
    n: u64,
    t: Seq<Access>,
    granted: bool,
    now: u64,
)
    requires
        config.is_valid(),
        memory.tokens <= config.max_tokens,
        acquire_run(config, n, t, granted),
        memory.explains(t),
        steady(t),
        n >= 1,
        forall|i: int|
            0 <= i < t.len() ==> (#[trigger] t[i] matches Access::Clock { now: read, .. } ==> read
                == now),
        memory.total_acquired < u64::MAX,
        memory.total_rejected < u64::MAX,
        memory.consecutive_rejections < u32::MAX,
    ensures
        ({
            let end = memory.after_all(t);
            &&& granted ==> end.total_acquired == memory.total_acquired + 1 && end.total_rejected
                == memory.total_rejected && end.consecutive_rejections == 0
            &&& !granted ==> end.total_acquired == memory.total_acquired && end.total_rejected
                == memory.total_rejected + 1 && end.consecutive_rejections
                == memory.consecutive_rejections + 1
            &&& end.last_access == (if n <= config.max_tokens && now > memory.last_access + 100 {
                now
            } else {
                memory.last_access
            })
            &&& end.max_wait == memory.max_wait
        }),
{
    law_undisturbed_request(config, memory, n, t, granted);
    let seen = choose|seen: u64|
        {
            &&& 1 <= n <= config.max_tokens ==> shows(t, seen)
            &&& granted == #[trigger] memory.grants(config, n, seen)
            &&& memory.after_all(t) == memory.after_request(config, n, seen)
        };
    if n <= config.max_tokens {
        assert(seen == now);
    }
}

/// The accesses of calls, one call after the other.
pub open spec fn one_by_one(runs: Seq<Seq<Access>>) -> Seq<Access>
    decreases runs.len(),
{
    if runs.len() == 0 {
        Seq::empty()
    } else {
        one_by_one(runs.drop_last()) + runs.last()
    }
}

/// Until an interval has passed since the last refill, exactly as many single requests are granted as
/// there were tokens: the first ones, one after the other, and none after them.
pub proof fn law_as_many_requests_as_tokens(
    config: RateLimiterConfig,
    memory: Memory,
    runs: Seq<Seq<Access>>,
    answers: Seq<bool>,
    which: int,
)
    requires
        config.is_valid(),
        memory.tokens <= config.max_tokens,
        runs.len() == answers.len(),
        forall|i: int| 0 <= i < runs.len() ==> acquire_run(config, 1, #[trigger] runs[i], answers[i]),
        memory.explains(one_by_one(runs)),
        steady(one_by_one(runs)),
        forall|i: int, j: int|
            0 <= i < runs.len() && 0 <= j < runs[i].len() ==> (
            #[trigger] runs[i][j] matches Access::Clock { now, .. } ==> now < memory.last_refill
                + config.refill_interval_ms),
    ensures
        0 <= which < runs.len() ==> (answers[which] <==> which < memory.tokens),
        memory.after_all(one_by_one(runs)).tokens == (if runs.len() <= memory.tokens {
            memory.tokens - runs.len()
        } else {
            0
        }),
        memory.after_all(one_by_one(runs)).last_refill == memory.last_refill,
    decreases runs.len(),
{
    if runs.len() > 0 {
        let front = runs.drop_last();
        let t = runs.last();
        let last = runs.len() - 1;
        assert forall|i: int, j: int|
            0 <= i < front.len() && 0 <= j < front[i].len() implies (
        #[trigger] front[i][j] matches Access::Clock { now, .. } ==> now < memory.last_refill
            + config.refill_interval_ms) by {
            assert(runs[i][j] == front[i][j]);
        }
        lemma_explains_joins(memory, one_by_one(front), t);
        lemma_steady_joins(one_by_one(front), t);
        law_as_many_requests_as_tokens(config, memory, front, answers.drop_last(), which);
        let found = memory.after_all(one_by_one(front));
        assert(acquire_run(config, 1, runs[last], answers[last]));
        law_undisturbed_request(config, found, 1, t, answers[last]);
        let seen = choose|seen: u64|
            {
                &&& 1 <= 1u64 <= config.max_tokens ==> shows(t, seen)
                &&& answers[last] == #[trigger] found.grants(config, 1, seen)
                &&& found.after_all(t) == found.after_request(config, 1, seen)
            };
        let at = choose|at: int|
            0 <= at < t.len() && #[trigger] t[at] is Clock && clock_of(t[at]) == seen;
        assert(runs[last][at] == t[at]);
        let gone = elapsed_ms(seen, found.last_refill) as int;
        let interval = config.refill_interval_ms as int;
        assert(gone / interval == 0) by (nonlinear_arith)
            requires
                0 <= gone < interval,
        ;
        assert(found.due(config, seen) == 0);
        assert(found.touched(seen).due(config, seen) == 0);
    }
}

/// Counting the available tokens pays in what is due, as a request does, and returns what the
/// bucket then holds. It takes none, and counts no request.
pub proof fn law_count_shows_what_is_there(
    config: RateLimiterConfig,
    memory: Memory,
    t: Seq<Access>,
    tokens: u64,
    now: u64,
    passed: int,
    rate: int,
)
    requires
        config.is_valid(),
        memory.tokens <= config.max_tokens,
        available_run(config, t, tokens),
        memory.explains(t),
        steady(t),
        forall|i: int|
            0 <= i < t.len() ==> (#[trigger] t[i] matches Access::Clock { now: read, .. } ==> read
                == now),
        0 <= passed,
        now < memory.last_refill ==> passed == 0,
        now >= memory.last_refill ==> passed * config.refill_interval_ms <= now
            - memory.last_refill < passed * config.refill_interval_ms + config.refill_interval_ms,
        memory.consecutive_rejections <= 10 ==> rate == config.refill_rate,
        memory.consecutive_rejections > 10 && memory.total_rejected > memory.total_acquired ==> 5
            * rate <= 4 * config.refill_rate < 5 * rate + 5,
        memory.consecutive_rejections > 10 && memory.total_rejected <= memory.total_acquired && 7
            * memory.total_rejected > 3 * memory.total_acquired ==> 10 * rate <= 9
            * config.refill_rate < 10 * rate + 10,
        memory.consecutive_rejections > 10 && 7 * memory.total_rejected <= 3
            * memory.total_acquired ==> rate == config.refill_rate,
    ensures
        ({
            let end = memory.after_all(t);
            let due = rate * (if passed <= 100 {
                passed
            } else {
                100
            });
            let ready = if memory.tokens + due <= config.max_tokens {
                memory.tokens + due
            } else {
                config.max_tokens as int
            };
            &&& tokens == ready
            &&& end.tokens == ready
            &&& end.last_refill == memory.last_refill + passed * config.refill_interval_ms
            &&& passed == 0 ==> end.total_refills == memory.total_refills
            &&& passed > 0 && memory.total_refills < u64::MAX ==> end.total_refills
                == memory.total_refills + 1
            &&& end.last_access == memory.last_access
            &&& end.consecutive_rejections == memory.consecutive_rejections
            &&& end.max_wait == memory.max_wait
            &&& end.total_acquired == memory.total_acquired
            &&& end.total_rejected == memory.total_rejected
        }),
{
    law_undisturbed_count(config, memory, t, tokens);
    let seen = choose|seen: u64|
        {
            &&& shows(t, seen)
            &&& memory.after_all(t) == #[trigger] memory.refilled(config, seen)
            &&& tokens == memory.refilled(config, seen).tokens
        };
    assert(seen == now);
    lemma_refill_in_figures(config, memory, now, passed, rate);
}

/// Tokens added by hand are all there afterwards, as far as the bucket has room for them. Nothing
/// else changes: they are no refill.
pub proof fn law_added_tokens_are_there(
    config: RateLimiterConfig,
    memory: Memory,
    n: u64,
    t: Seq<Access>,
)
    requires
        memory.tokens <= config.max_tokens,
        pour_run(config, n, false, t),
        memory.explains(t),
        steady(t),
    ensures
        ({
            let end = memory.after_all(t);
            &&& n <= config.max_tokens - memory.tokens ==> end.tokens == memory.tokens + n
            &&& n > config.max_tokens - memory.tokens ==> end.tokens == config.max_tokens
            &&& end == (Memory { tokens: end.tokens, ..memory })
        }),
{
    law_undisturbed_addition(config, memory, n, t);
}

/// A reset leaves a full bucket, both times at the present and all counters at zero, whatever was
/// there.
pub proof fn law_reset_clears_everything(
    config: RateLimiterConfig,
    memory: Memory,
    t: Seq<Access>,
    now: u64,
)
    requires
        reset_run(config, t),
        forall|i: int|
            0 <= i < t.len() ==> (#[trigger] t[i] matches Access::Clock { now: read, .. } ==> read
                == now),
    ensures
        ({
            let end = memory.after_all(t);
            &&& end.tokens == config.max_tokens
            &&& end.last_refill == now
            &&& end.last_access == now
            &&& end.consecutive_rejections == 0
            &&& end.max_wait == 0
            &&& end.total_acquired == 0
            &&& end.total_rejected == 0
            &&& end.total_refills == 0
        }),
{
    law_reset_starts_afresh(config, memory, t);
    assert(t[0] is Clock);
}

/// A snapshot shows the cells as they are, and changes none. The pressure is the share of refused
/// requests: refused to all requests, and zero if there were none. It is the same share that the
/// snapshot itself works out.
pub proof fn law_snapshot_shows_the_cells(
    config: RateLimiterConfig,
    memory: Memory,
    t: Seq<Access>,
    metrics: RateLimiterMetrics,
    share: Ratio,
)
    requires
        metrics_run(config, t, metrics),
        memory.explains(t),
        memory.consecutive_rejections <= u32::MAX,
        call_ensures(RateLimiterMetrics::rejection_rate, (&metrics,), share),
    ensures
        memory.after_all(t) == memory,
        metrics.total_acquired == memory.total_acquired,
        metrics.total_rejected == memory.total_rejected,
        metrics.total_refills == memory.total_refills,
        metrics.current_tokens == memory.tokens,
        metrics.max_tokens == config.max_tokens,
        metrics.consecutive_rejections == memory.consecutive_rejections,
        metrics.max_wait_time_ns == memory.max_wait,
        memory.total_acquired + memory.total_rejected > 0 ==> metrics.pressure_ratio.part
            == memory.total_rejected && metrics.pressure_ratio.whole == memory.total_acquired
            + memory.total_rejected,
        memory.total_acquired + memory.total_rejected == 0 ==> metrics.pressure_ratio.part == 0
            && metrics.pressure_ratio.whole > 0,
        metrics.pressure_ratio == share,
{
    law_undisturbed_snapshot(config, memory, t, metrics);
}

/// A limiter is idle for a time when its last recorded access lies further back; it is under
/// sustained pressure when more than ten requests in a row were refused. Asking changes nothing.
pub proof fn law_questions_are_answered_from_the_cells(
    memory: Memory,
    duration_ms: u64,
    idle: Seq<Access>,
    inactive: bool,
    access: Seq<Access>,
    at_ms: u64,
    strain: Seq<Access>,
    pressed: bool,
    now: u64,
)
    requires
        inactive_run(duration_ms, idle, inactive),
        memory.explains(idle),
        forall|i: int|
            0 <= i < idle.len() ==> (#[trigger] idle[i] matches Access::Clock { now: read, .. }
                ==> read == now),
        last_access_run(access, at_ms),
        memory.explains(access),
        pressure_run(strain, pressed),
        memory.explains(strain),
    ensures
        inactive <==> now > memory.last_access + duration_ms,
        at_ms == memory.last_access,
        pressed <==> memory.consecutive_rejections > 10,
        memory.after_all(idle) == memory,
        memory.after_all(access) == memory,
        memory.after_all(strain) == memory,
{
    law_undisturbed_questions(memory, duration_ms, idle, inactive, access, at_ms, strain, pressed);
    assert(idle[0] is Clock);
}

/// A new limiter has the given settings, a full bucket and no request counted, and its times are
/// those of its making.
pub proof fn law_new_limiter_starts_full(
    max_tokens: u64,
    refill_rate: u32,
    limiter: RateLimiter,
    config: RateLimiterConfig,
    other: RateLimiter,
)
    requires
        call_ensures(RateLimiter::new, (max_tokens, refill_rate), limiter),
        call_ensures(RateLimiter::with_config, (config,), other),
    ensures
        limiter.config().max_tokens == max_tokens,
        limiter.config().refill_rate == refill_rate,
        limiter.config().refill_interval_ms == 1000,
        other.config() == config,
        forall|made: RateLimiter| made == limiter || made == other ==> {
            let start = #[trigger] made.initial();
            &&& start.tokens == made.config().max_tokens
            &&& start.last_refill == made.created().spec_now_ms()
            &&& start.last_access == made.created().spec_now_ms()
            &&& start.consecutive_rejections == 0
            &&& start.max_wait == 0
            &&& start.total_acquired == 0
            &&& start.total_rejected == 0
            &&& start.total_refills == 0
        },
{
}

} // verus!
