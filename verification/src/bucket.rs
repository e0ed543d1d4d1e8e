//! The arithmetic of a token bucket: how much a refill adds, when a bucket is idle, how long a
//! failed exchange backs off.

use crate::clock::lesser;
use crate::config::MAX_REFILL_PERIODS;
use vstd::prelude::*;

verus! {

/// Attempts at an exchange before an operation gives up.
pub const MAX_CAS_RETRIES: u32 = 16;

/// Failed attempts up to which the backoff is a single pause.
pub const CAS_BACKOFF_THRESHOLD: u32 = 4;

/// Times that one unchanged token count is seen before the last, strong attempt.
pub const MAX_REPEAT_COUNT: u32 = 3;

/// An access time is recorded again only after this many milliseconds.
pub const LAST_ACCESS_UPDATE_INTERVAL_MS: u64 = 100;

/// Rejections in a row above which demand counts as sustained pressure.
pub const PRESSURE_REJECTIONS: u64 = 10;

/// Milliseconds from `earlier` to `now`. None have passed if `earlier` lies ahead: another thread
/// may have read the clock later and been faster to record its reading.
pub open spec fn elapsed_ms(now: u64, earlier: u64) -> u64 {
    if now >= earlier {
        (now - earlier) as u64
    } else {
        0
    }
}

/// Whole refill periods that have passed and are paid out: at most `MAX_REFILL_PERIODS`.
pub open spec fn periods_due(elapsed: u64, interval: u64) -> int {
    lesser(elapsed as int / interval as int, MAX_REFILL_PERIODS as int)
}

/// Time up to which refills are settled by a refill at `now`: all whole periods that have passed,
/// paid out or not.
pub open spec fn refill_time(last: u64, now: u64, interval: u64) -> u64 {
    (last + elapsed_ms(now, last) as int / interval as int * interval) as u64
}

/// Tokens that a refill of some periods adds to a bucket.
pub open spec fn refill_amount(rate: u32, periods: int, max_tokens: u64) -> int {
    lesser(rate * periods, max_tokens as int)
}

/// Tokens in a bucket of `max_tokens` after adding some.
pub open spec fn topped_up(current: u64, amount: u64, max_tokens: u64) -> u64 {
    lesser(current + amount, max_tokens as int) as u64
}

/// The refill rate under sustained pressure: four fifths when more than half of all requests were
/// refused, nine tenths when more than three in ten were, else the full rate.
pub open spec fn adaptive_rate(rate: u32, acquired: u64, rejected: u64) -> int {
    let requests = acquired + rejected;
    if rejected * 2 > requests {
        rate * 4 / 5
    } else if rejected * 10 > requests * 3 {
        rate * 9 / 10
    } else {
        rate as int
    }
}

/// Whether the rejections in a row show sustained pressure.
pub open spec fn under_pressure(consecutive_rejections: u64) -> bool {
    consecutive_rejections > PRESSURE_REJECTIONS
}

/// Pauses made after the given number of failed attempts: one, then twice as many with each
/// further failure, up to sixteen.
pub open spec fn backoff_pauses(retries: int) -> int {
    let extra = retries - CAS_BACKOFF_THRESHOLD;
    if extra <= 0 {
        1
    } else if extra == 1 {
        2
    } else if extra == 2 {
        4
    } else if extra == 3 {
        8
    } else {
        16
    }
}

/// Whole refill periods that have passed and are paid out.
pub fn due_periods(elapsed: u64, interval: u64) -> (r: u64)
    requires
        interval > 0,
    ensures
        r == periods_due(elapsed, interval),
        r * interval <= elapsed,
{
    let passed: u64 = elapsed / interval;
    let periods: u64 = if passed <= MAX_REFILL_PERIODS {
        passed
    } else {
        MAX_REFILL_PERIODS
    };
    assert(periods * interval <= elapsed) by (nonlinear_arith)
        requires
            periods <= elapsed / interval,
            interval > 0,
    ;
    periods
}

/// Milliseconds from `earlier` to `now`; none if `earlier` lies ahead.
pub fn time_since(now: u64, earlier: u64) -> (r: u64)
    ensures
        r == elapsed_ms(now, earlier),
{
    now.saturating_sub(earlier)
}

/// Time up to which refills are settled by a refill at `now`. It never moves back, and never ahead
/// of the clock.
pub fn next_refill_time(last: u64, now: u64, interval: u64) -> (r: u64)
    requires
        interval > 0,
    ensures
        r == refill_time(last, now, interval),
        last <= r,
        r <= now || r == last,
{
    let elapsed: u64 = time_since(now, last);
    let passed: u64 = elapsed / interval;
    assert(0 <= passed * interval <= elapsed) by (nonlinear_arith)
        requires
            passed == elapsed / interval,
            interval > 0,
    ;
    last + passed * interval
}

/// Tokens that a refill of some periods adds to a bucket.
pub fn tokens_to_add(rate: u32, periods: u64, max_tokens: u64) -> (r: u64)
    ensures
        r == refill_amount(rate, periods as int, max_tokens),
{
    assert(rate * periods <= u32::MAX * u64::MAX) by (nonlinear_arith)
        requires
            rate <= u32::MAX,
            periods <= u64::MAX,
    ;
    assert(0 <= rate * periods) by (nonlinear_arith);
    let earned: u128 = rate as u128 * periods as u128;
    if earned <= max_tokens as u128 {
        earned as u64
    } else {
        max_tokens
    }
}

/// Tokens in a bucket of `max_tokens` after adding some.
pub fn top_up(current: u64, amount: u64, max_tokens: u64) -> (r: u64)
    ensures
        r == topped_up(current, amount, max_tokens),
{
    let sum: u64 = current.saturating_add(amount);
    if sum <= max_tokens {
        sum
    } else {
        max_tokens
    }
}

/// The refill rate under sustained pressure.
pub fn reduced_rate(rate: u32, acquired: u64, rejected: u64) -> (r: u32)
    ensures
        r == adaptive_rate(rate, acquired, rejected),
        r <= rate,
{
    let requests: u128 = acquired as u128 + rejected as u128;
    let refused: u128 = rejected as u128;
    if refused * 2 > requests {
        (rate as u64 * 4 / 5) as u32
    } else if refused * 10 > requests * 3 {
        (rate as u64 * 9 / 10) as u32
    } else {
        rate
    }
}

/// Whether more than `limit` milliseconds have passed since `last`.
pub fn passed_more_than(now: u64, last: u64, limit: u64) -> (r: bool)
    ensures
        r == (elapsed_ms(now, last) > limit),
{
    time_since(now, last) > limit
}

/// Pauses made after the given number of failed attempts.
pub fn pauses_after(retries: u32) -> (r: u32)
    ensures
        r == backoff_pauses(retries as int),
{
    if retries <= CAS_BACKOFF_THRESHOLD {
        1
    } else {
        let extra: u32 = retries - CAS_BACKOFF_THRESHOLD;
        if extra == 1 {
            2
        } else if extra == 2 {
            4
        } else if extra == 3 {
            8
        } else {
            16
        }
    }
}

/// A refill pays out the whole intervals that have passed, a hundred at most.
pub proof fn law_whole_intervals_are_due(elapsed: u64, interval: u64, periods: u64)
    requires
        interval > 0,
        call_ensures(due_periods, (elapsed, interval), periods),
    ensures
        periods <= 100,
        periods * interval <= elapsed,
        periods < 100 ==> elapsed < periods * interval + interval,
{
    assert(periods == elapsed as int / interval as int ==> elapsed < periods * interval + interval)
        by (nonlinear_arith)
        requires
            interval > 0,
            elapsed >= 0,
    ;
}

/// The refill time moves on by whole intervals to less than an interval before the present, and not
/// at all if it lies ahead.
pub proof fn law_refill_time_keeps_to_intervals(last: u64, now: u64, interval: u64, next: u64)
    requires
        interval > 0,
        call_ensures(next_refill_time, (last, now, interval), next),
    ensures
        now < last ==> next == last,
        now >= last ==> last <= next <= now < next + interval,
        (next - last) % interval as int == 0,
{
    let gone = elapsed_ms(now, last) as int;
    let passed = gone / interval as int;
    assert(0 <= passed * interval <= gone < passed * interval + interval) by (nonlinear_arith)
        requires
            interval > 0,
            gone >= 0,
            passed == gone / interval as int,
    ;
    vstd::arithmetic::div_mod::lemma_mod_multiples_basic(passed, interval as int);
}

/// What a refill adds, and what a bucket then holds: as much as was earned, as far as it fits.
pub proof fn law_no_more_than_fits(
    rate: u32,
    periods: u64,
    max_tokens: u64,
    amount: u64,
    current: u64,
    filled: u64,
)
    requires
        call_ensures(tokens_to_add, (rate, periods, max_tokens), amount),
        call_ensures(top_up, (current, amount, max_tokens), filled),
    ensures
        rate * periods <= max_tokens ==> amount == rate * periods,
        rate * periods > max_tokens ==> amount == max_tokens,
        current + amount <= max_tokens ==> filled == current + amount,
        current + amount > max_tokens ==> filled == max_tokens,
{
}

/// The rate under sustained pressure: four fifths, rounded down, when more requests were refused than
/// granted, nine tenths, rounded down, when more than three in ten were, and else all of it.
pub proof fn law_pressure_slows_refills(rate: u32, acquired: u64, rejected: u64, slow: u32)
    requires
        call_ensures(reduced_rate, (rate, acquired, rejected), slow),
    ensures
        rejected > acquired ==> 5 * slow <= 4 * rate < 5 * slow + 5,
        rejected <= acquired && 7 * rejected > 3 * acquired ==> 10 * slow <= 9 * rate < 10 * slow
            + 10,
        7 * rejected <= 3 * acquired ==> slow == rate,
{
}

/// Time that has passed, and whether it is more than a limit; a time that lies ahead has not passed.
pub proof fn law_time_passes(now: u64, earlier: u64, limit: u64, gone: u64, more: bool)
    requires
        call_ensures(time_since, (now, earlier), gone),
        call_ensures(passed_more_than, (now, earlier, limit), more),
    ensures
        now >= earlier ==> earlier + gone == now,
        now < earlier ==> gone == 0,
        more <==> now > earlier + limit,
{
}

/// The backoff is a single pause up to the fourth failure, and doubles with each further one up to
/// sixteen.
pub proof fn law_backoff_doubles(retries: u32, pauses: u32, next: u32)
    requires
        retries < u32::MAX,
        call_ensures(pauses_after, (retries,), pauses),
        call_ensures(pauses_after, ((retries + 1) as u32,), next),
    ensures
        1 <= pauses <= 16,
        retries <= 4 ==> pauses == 1,
        retries >= 4 && pauses < 16 ==> next == 2 * pauses,
        retries >= 4 && pauses == 16 ==> next == 16,
{
}

} // verus!
