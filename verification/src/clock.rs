//! Reading the time, and the hint for spin loops.
//!
//! A [`TimeBase`] reads the wall clock once and then counts on a monotonic clock, so that a jump
//! of the wall clock never moves the time that a limiter sees. Readings from one base never go back,
//! and its three units agree. Readings from two bases have nothing in common but the wall clock: a
//! program whose readings are to be compared keeps one base and hands it to
//! [`crate::RateLimiter::with_clock`] and [`crate::ConcurrentIpManager::with_clock`].

use std::time::{Instant, SystemTime, UNIX_EPOCH};
use vstd::prelude::*;

verus! {

/// `std::time::Instant`: a point on the monotonic clock.
#[verifier::external_type_specification]
#[verifier::external_body]
pub struct ExInstant(std::time::Instant);

/// `std::time::SystemTime`: a point on the wall clock.
#[verifier::external_type_specification]
#[verifier::external_body]
pub struct ExSystemTime(std::time::SystemTime);

/// `std::time::Instant::now`. Which instant it returns depends on the moment of the call, so
/// nothing is claimed of it.
pub assume_specification[ std::time::Instant::now ]() -> Instant;

/// `std::time::SystemTime::now`. Which time it returns depends on the moment of the call, so
/// nothing is claimed of it.
pub assume_specification[ std::time::SystemTime::now ]() -> SystemTime;

/// `std::hint::spin_loop`. It tells the processor that the caller spins; it changes no value.
pub assume_specification[ std::hint::spin_loop ]();

/// `std::time::Instant::elapsed`, in nanoseconds. The count depends on the moment of the call,
/// so nothing is claimed of it.
#[verifier::external_body]
fn nanos_since(start: &Instant) -> u128 {
    start.elapsed().as_nanos()
}

/// `std::time::SystemTime::duration_since` the UNIX epoch, in nanoseconds, or `None` for a time
/// before the epoch. A `SystemTime` shows no value to compare the count with, so nothing is
/// claimed of it.
#[verifier::external_body]
fn nanos_since_epoch(time: &SystemTime) -> Option<u128> {
    match time.duration_since(UNIX_EPOCH) {
        Ok(duration) => Some(duration.as_nanos()),
        Err(_) => None,
    }
}

/// The monotonic clock counted `elapsed` nanoseconds since `start`.
pub closed spec fn measured(start: Instant, elapsed: u128) -> bool {
    call_ensures(nanos_since, (&start,), elapsed)
}

/// The wall clock showed the given nanoseconds since the epoch, or a time before the epoch.
pub closed spec fn wall_clock_showed(since_epoch: Option<u128>) -> bool {
    exists|time: SystemTime|
        showed_at(time, since_epoch) && #[trigger] call_ensures(SystemTime::now, (), time)
}

/// The given time lies the given nanoseconds after the epoch, or before it.
closed spec fn showed_at(time: SystemTime, since_epoch: Option<u128>) -> bool {
    call_ensures(nanos_since_epoch, (&time,), since_epoch)
}

/// One more than the largest `u64`.
pub open spec fn two_pow_64() -> int {
    0x1_0000_0000_0000_0000
}

/// The smaller of two numbers.
pub open spec fn lesser(a: int, b: int) -> int {
    if a <= b {
        a
    } else {
        b
    }
}

/// The low 64 bits of a count.
fn low_64_bits(count: u128) -> (r: u64)
    ensures
        r == count as int % two_pow_64(),
{
    assert(count as u64 == count % 0x1_0000_0000_0000_0000u128) by (bit_vector);
    #[verifier::truncate]
    (count as u64)
}

/// Microseconds of a wall clock that shows the given nanoseconds since the epoch; none for a time
/// before the epoch.
pub open spec fn epoch_us(since_epoch: Option<u128>) -> int {
    match since_epoch {
        Some(nanos) => (nanos as int / 1_000) % two_pow_64(),
        None => 0,
    }
}

/// Milliseconds since the epoch, `elapsed` nanoseconds after `base_ms`.
pub open spec fn ms_after(base_ms: u64, elapsed: u128) -> int {
    (base_ms + elapsed as int / 1_000_000) % two_pow_64()
}

/// Microseconds since the epoch, `elapsed` nanoseconds after `base_us`; saturates.
pub open spec fn us_after(base_us: u64, elapsed: u128) -> int {
    lesser(base_us + (elapsed as int / 1_000) % two_pow_64(), u64::MAX as int)
}

/// Nanoseconds since the epoch, `elapsed` nanoseconds after `base_us`; saturates.
pub open spec fn ns_after(base_us: u64, elapsed: u128) -> int {
    lesser(
        lesser(base_us * 1_000, u64::MAX as int) + elapsed as int % two_pow_64(),
        u64::MAX as int,
    )
}

/// The wall clock time at `base_ms`, moved on by `elapsed` nanoseconds, in milliseconds.
pub fn advance_ms(base_ms: u64, elapsed: u128) -> (r: u64)
    ensures
        r == ms_after(base_ms, elapsed),
{
    let passed: u64 = low_64_bits(elapsed / 1_000_000);
    assert((base_ms + passed) % two_pow_64() == ms_after(base_ms, elapsed)) by {
        vstd::arithmetic::div_mod::lemma_add_mod_noop_right(
            base_ms as int,
            elapsed as int / 1_000_000,
            two_pow_64(),
        );
    }
    base_ms.wrapping_add(passed)
}

/// The wall clock time at `base_us`, moved on by `elapsed` nanoseconds, in microseconds.
pub fn advance_us(base_us: u64, elapsed: u128) -> (r: u64)
    ensures
        r == us_after(base_us, elapsed),
{
    base_us.saturating_add(low_64_bits(elapsed / 1_000))
}

/// The wall clock time at `base_us`, moved on by `elapsed` nanoseconds, in nanoseconds.
pub fn advance_ns(base_us: u64, elapsed: u128) -> (r: u64)
    ensures
        r == ns_after(base_us, elapsed),
{
    let base_ns: u64 = if base_us <= u64::MAX / 1_000 {
        base_us * 1_000
    } else {
        u64::MAX
    };
    base_ns.saturating_add(low_64_bits(elapsed))
}

/// A wall clock reading and the monotonic instant at which it was taken.
#[derive(Debug, Clone, Copy)]
pub struct TimeBase {
    start: Instant,
    base_us: u64,
    base_ms: u64,
}

impl TimeBase {
    /// The base in whole milliseconds is the base in microseconds, rounded down.
    #[verifier::type_invariant]
    spec fn bases_agree(self) -> bool {
        self.base_ms == self.base_us / 1_000
    }

    /// Microseconds from the epoch to the start of this base.
    pub closed spec fn base_us(self) -> u64 {
        self.base_us
    }

    /// The instant at which this base was taken.
    pub closed spec fn start(self) -> Instant {
        self.start
    }

    /// Reads both clocks. A wall clock before the epoch counts as the epoch.
    ///
    /// What the clocks show depends on the moment of the call.
    /// [`TimeBase::from_readings`] says what becomes of it.
    pub fn new() -> (r: TimeBase)
        ensures
            call_ensures(Instant::now, (), r.start()),
            exists|since_epoch: Option<u128>|
                wall_clock_showed(since_epoch) && r.base_us() == #[trigger] epoch_us(since_epoch),
    {
        let time: SystemTime = SystemTime::now();
        let since_epoch: Option<u128> = nanos_since_epoch(&time);
        assert(call_ensures(SystemTime::now, (), time) && showed_at(time, since_epoch));
        assert(wall_clock_showed(since_epoch));
        TimeBase::from_readings(Instant::now(), since_epoch)
    }

    /// The base taken at `start`, when the wall clock showed the given nanoseconds since the epoch,
    /// or a time before the epoch.
    pub fn from_readings(start: Instant, since_epoch: Option<u128>) -> (r: TimeBase)
        ensures
            r.start() == start,
            r.base_us() == epoch_us(since_epoch),
    {
        let base_us: u64 = match since_epoch {
            Some(nanos) => low_64_bits(nanos / 1_000),
            None => 0,
        };
        TimeBase { start, base_us, base_ms: base_us / 1_000 }
    }

    /// Milliseconds since the epoch. How much time has passed since the base was taken is left
    /// open; what follows from it is exact.
    pub fn now_ms(&self) -> (r: u64)
        ensures
            exists|elapsed: u128|
                measured(self.start(), elapsed) && r == #[trigger] ms_after(self.base_us() / 1_000, elapsed),
    {
        proof {
            use_type_invariant(self);
        }
        let elapsed: u128 = nanos_since(&self.start);
        let now: u64 = advance_ms(self.base_ms, elapsed);
        assert(measured(self.start(), elapsed));
        assert(now == ms_after(self.base_us() / 1_000, elapsed));
        now
    }

    /// Microseconds since the epoch.
    pub fn now_us(&self) -> (r: u64)
        ensures
            exists|elapsed: u128|
                measured(self.start(), elapsed) && r == #[trigger] us_after(self.base_us(), elapsed),
    {
        let elapsed: u128 = nanos_since(&self.start);
        let now: u64 = advance_us(self.base_us, elapsed);
        assert(measured(self.start(), elapsed));
        assert(now == us_after(self.base_us(), elapsed));
        now
    }

    /// Nanoseconds since the epoch.
    pub fn now_ns(&self) -> (r: u64)
        ensures
            exists|elapsed: u128|
                measured(self.start(), elapsed) && r == #[trigger] ns_after(self.base_us(), elapsed),
    {
        let elapsed: u128 = nanos_since(&self.start);
        let now: u64 = advance_ns(self.base_us, elapsed);
        assert(measured(self.start(), elapsed));
        assert(now == ns_after(self.base_us(), elapsed));
        now
    }
}

/// Milliseconds since the UNIX epoch, from a base taken for this reading alone: a later reading may
/// be smaller if the wall clock was set back. Keep a [`TimeBase`] to compare readings.
pub fn current_time_ms() -> (r: u64)
    ensures
        exists|base_us: u64, elapsed: u128| r == #[trigger] ms_after(base_us / 1_000, elapsed),
        exists|base: TimeBase| call_ensures(TimeBase::new, (), base) && call_ensures(
            TimeBase::now_ms,
            (&base,),
            r,
        ),
{
    let base: TimeBase = TimeBase::new();
    let now: u64 = base.now_ms();
    assert(call_ensures(TimeBase::new, (), base) && call_ensures(TimeBase::now_ms, (&base,), now));
    now
}

/// Microseconds since the UNIX epoch, from a base taken for this reading alone, as
/// [`current_time_ms`].
pub fn current_time_us() -> (r: u64)
    ensures
        exists|base_us: u64, elapsed: u128| r == #[trigger] us_after(base_us, elapsed),
        exists|base: TimeBase| call_ensures(TimeBase::new, (), base) && call_ensures(
            TimeBase::now_us,
            (&base,),
            r,
        ),
{
    let base: TimeBase = TimeBase::new();
    let now: u64 = base.now_us();
    assert(call_ensures(TimeBase::new, (), base) && call_ensures(TimeBase::now_us, (&base,), now));
    now
}

/// Nanoseconds since the UNIX epoch, from a base taken for this reading alone, as
/// [`current_time_ms`].
pub fn current_time_ns() -> (r: u64)
    ensures
        exists|base_us: u64, elapsed: u128| r == #[trigger] ns_after(base_us, elapsed),
        exists|base: TimeBase| call_ensures(TimeBase::new, (), base) && call_ensures(
            TimeBase::now_ns,
            (&base,),
            r,
        ),
{
    let base: TimeBase = TimeBase::new();
    let now: u64 = base.now_ns();
    assert(call_ensures(TimeBase::new, (), base) && call_ensures(TimeBase::now_ns, (&base,), now));
    now
}

/// Hint to the processor that the caller is in a spin loop.
pub fn cpu_relax()
    ensures
        call_ensures(std::hint::spin_loop, (), ()),
{
    std::hint::spin_loop();
}

/// A clock never goes back: later readings from one base are no smaller, in the same unit or from
/// milliseconds to microseconds, as long as the counts fit in 64 bits.
pub proof fn law_clock_never_goes_back(base_us: u64, earlier: u128, later: u128)
    requires
        earlier <= later,
        base_us as int / 1_000 + later as int / 1_000_000 < two_pow_64(),
    ensures
        ms_after(base_us / 1_000, earlier) <= ms_after(base_us / 1_000, later),
        later as int / 1_000 < two_pow_64() ==> us_after(base_us, earlier) <= us_after(
            base_us,
            later,
        ),
        later < two_pow_64() ==> ns_after(base_us, earlier) <= ns_after(base_us, later),
        base_us + later as int / 1_000 < u64::MAX ==> ms_after(base_us / 1_000, earlier) * 1_000
            <= us_after(base_us, later) < u64::MAX,
{
    assert(earlier as int / 1_000_000 <= later as int / 1_000_000);
    assert(earlier as int / 1_000 <= later as int / 1_000);
}

/// The three units tell the same time: a reading in microseconds lies within the milliseconds
/// read at the same moment and the following one, and one in nanoseconds within the microsecond
/// read at the same moment, as long as none of them runs over 64 bits.
pub proof fn law_units_agree(base_us: u64, elapsed: u128)
    requires
        base_us * 1_000 + elapsed < two_pow_64(),
    ensures
        ({
            let ms = ms_after(base_us / 1_000, elapsed);
            let us = us_after(base_us, elapsed);
            let ns = ns_after(base_us, elapsed);
            &&& ms * 1_000 <= us < (ms + 2) * 1_000
            &&& us * 1_000 <= ns < (us + 1) * 1_000
        }),
{
}

/// A time moves on by what has passed, in whole units; in micro- and nanoseconds it stops at the
/// largest time.
pub proof fn law_time_moves_on(
    base: u64,
    elapsed: u128,
    ms: u64,
    us: u64,
    ns: u64,
)
    requires
        call_ensures(advance_ms, (base, elapsed), ms),
        call_ensures(advance_us, (base, elapsed), us),
        call_ensures(advance_ns, (base, elapsed), ns),
        elapsed <= u64::MAX,
    ensures
        base + elapsed as int / 1_000_000 <= u64::MAX ==> ms == base + elapsed as int / 1_000_000,
        base + elapsed as int / 1_000 <= u64::MAX ==> us == base + elapsed as int / 1_000,
        base + elapsed as int / 1_000 > u64::MAX ==> us == u64::MAX,
        base * 1_000 + elapsed <= u64::MAX ==> ns == base * 1_000 + elapsed,
        base * 1_000 + elapsed > u64::MAX ==> ns == u64::MAX,
{
}

/// A base tells the time that it was taken at and what has passed since, in every unit; a time before
/// the epoch counts as the epoch.
pub proof fn law_base_tells_the_time(
    start: Instant,
    since_epoch: Option<u128>,
    base: TimeBase,
    ms: u64,
    us: u64,
    ns: u64,
)
    requires
        call_ensures(TimeBase::from_readings, (start, since_epoch), base),
        call_ensures(TimeBase::now_ms, (&base,), ms),
        call_ensures(TimeBase::now_us, (&base,), us),
        call_ensures(TimeBase::now_ns, (&base,), ns),
        since_epoch matches Some(nanos) ==> nanos as int / 1_000 <= u64::MAX,
    ensures
        ({
            let base_us = match since_epoch {
                Some(nanos) => nanos as int / 1_000,
                None => 0,
            };
            &&& exists|a: u128| #[trigger]
                measured(start, a) && (base_us / 1_000 + a as int / 1_000_000 <= u64::MAX ==> ms
                    == base_us / 1_000 + a as int / 1_000_000)
            &&& exists|b: u128| #[trigger]
                measured(start, b) && (base_us + b as int / 1_000 <= u64::MAX ==> us == base_us
                    + b as int / 1_000)
            &&& exists|c: u128| #[trigger]
                measured(start, c) && (base_us * 1_000 + c <= u64::MAX ==> ns == base_us * 1_000
                    + c)
        }),
{
    let a = choose|a: u128|
        measured(base.start(), a) && ms == #[trigger] ms_after(base.base_us() / 1_000, a);
    let b = choose|b: u128|
        measured(base.start(), b) && us == #[trigger] us_after(base.base_us(), b);
    let c = choose|c: u128|
        measured(base.start(), c) && ns == #[trigger] ns_after(base.base_us(), c);
    assert(measured(start, a) && measured(start, b) && measured(start, c));
    lemma_units_in_figures(base.base_us(), a);
    lemma_units_in_figures(base.base_us(), b);
    lemma_units_in_figures(base.base_us(), c);
    if since_epoch is Some {
        let whole = since_epoch->0 as int / 1_000;
        vstd::arithmetic::div_mod::lemma_small_mod(whole as nat, two_pow_64() as nat);
    }
}

/// What has passed since a base was taken, in each unit.
proof fn lemma_units_in_figures(base_us: u64, elapsed: u128)
    ensures
        base_us as int / 1_000 + elapsed as int / 1_000_000 <= u64::MAX ==> ms_after(
            base_us / 1_000,
            elapsed,
        ) == base_us as int / 1_000 + elapsed as int / 1_000_000,
        base_us + elapsed as int / 1_000 <= u64::MAX ==> us_after(base_us, elapsed) == base_us
            + elapsed as int / 1_000,
        base_us * 1_000 + elapsed <= u64::MAX ==> ns_after(base_us, elapsed) == base_us * 1_000
            + elapsed,
{
    let ms = base_us as int / 1_000 + elapsed as int / 1_000_000;
    let us = elapsed as int / 1_000;
    let ns = elapsed as int;
    if ms <= u64::MAX {
        vstd::arithmetic::div_mod::lemma_small_mod(ms as nat, two_pow_64() as nat);
    }
    if us <= u64::MAX {
        vstd::arithmetic::div_mod::lemma_small_mod(us as nat, two_pow_64() as nat);
    }
    if ns <= u64::MAX {
        vstd::arithmetic::div_mod::lemma_small_mod(ns as nat, two_pow_64() as nat);
    }
}

} // verus!
