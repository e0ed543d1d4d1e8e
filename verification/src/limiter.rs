//! The lock-free token bucket.

use crate::bucket::{
    adaptive_rate, backoff_pauses, due_periods, next_refill_time, passed_more_than, pauses_after,
    reduced_rate, time_since, tokens_to_add, top_up, LAST_ACCESS_UPDATE_INTERVAL_MS, MAX_CAS_RETRIES,
    MAX_REPEAT_COUNT, PRESSURE_REJECTIONS,
};
use crate::cells::{all_on, clamp_to_u32, only_on, Cells, Moment, Step, TokenCounter, Trace};
use crate::clock::{cpu_relax, TimeBase};
use crate::config::{MemoryOrdering, RateLimiterConfig};
use crate::effects::{
    as_count, attempts_in, changes_in, effect, law_attempts_are_bounded, takes_in,
};
use crate::history::{
    extends, lemma_one_in_front, lemma_since_joins, lemma_since_push, lemma_since_push_two,
    lemma_since_self, lemma_two_in_front, since, Access, Cell, Memory, Order,
};
use crate::metrics::{RateLimiterMetrics, Ratio};
use crate::runs::{
    acquire_run, acquisition_run, available_parts, available_run, clock_of, exchanging,
    granted_parts, inactive_run, is_clock, is_load, last_access_run, loaded, metrics_run,
    payout_run, pour_attempts, pour_run, pressure, pressure_run, reading, refill_run, rejection_run,
    reset_run, reset_store, take_many_attempts, take_many_parts, take_one_attempts, take_one_parts,
    take_one_slowly_run, touch_run, writing,
};
use vstd::prelude::*;

verus! {

/// A token bucket that many threads share without locks.
///
/// Its state lies in atomic cells, so a method cannot say what the cells hold before and after
/// it: another thread may change them at any moment. Each method says instead which accesses it
/// makes and how its result follows from their answers. The methods that end in `_traced` append
/// these accesses to the given trace; the others make the same accesses.
#[derive(Debug)]
pub struct RateLimiter {
    cells: Cells,
    created: Moment,
    max_tokens: u64,
    refill_rate: u32,
    refill_interval_ms: u64,
    ordering: MemoryOrdering,
    ordering_load: Order,
    ordering_rmw: Order,
    ordering_store: Order,
}

/// What follows the accesses `done` as attempts to take one token completes the whole.
spec fn take_one_goes_on(config: RateLimiterConfig, retries: int, done: Seq<Access>) -> bool {
    forall|rest: Seq<Access>, granted: bool| #[trigger]
        take_one_attempts(config, retries, rest, granted) ==> take_one_attempts(
            config,
            0,
            done + rest,
            granted,
        )
}

/// What follows the accesses `done` as attempts to add tokens completes the whole.
spec fn pour_goes_on(
    config: RateLimiterConfig,
    amount: u64,
    counted: bool,
    first: u64,
    retries: int,
    current: u64,
    done: Seq<Access>,
) -> bool {
    forall|rest: Seq<Access>| #[trigger]
        pour_attempts(config, amount, counted, retries, current, rest) ==> pour_attempts(
            config,
            amount,
            counted,
            0,
            first,
            done + rest,
        )
}

/// What follows the accesses `done` as attempts to take several tokens completes the whole.
spec fn take_many_goes_on(
    config: RateLimiterConfig,
    n: u64,
    retries: int,
    last_seen: u64,
    repeats: int,
    done: Seq<Access>,
) -> bool {
    forall|rest: Seq<Access>, granted: bool| #[trigger]
        take_many_attempts(config, n, retries, last_seen, repeats, rest, granted)
            ==> take_many_attempts(config, n, 0, u64::MAX, 0, done + rest, granted)
}

impl RateLimiter {
    /// The settings are valid, and the token counter is wide enough for them.
    #[verifier::type_invariant]
    spec fn settings_hold(self) -> bool {
        &&& self.config().is_valid()
        &&& self.ordering_load == reading(self.ordering)
        &&& self.ordering_rmw == exchanging(self.ordering)
        &&& self.ordering_store == writing(self.ordering)
        &&& self.max_tokens <= self.cells.capacity_of(Cell::Tokens)
        &&& forall|cell: Cell|
            cell !is Tokens ==> #[trigger] self.cells.capacity_of(cell) == cell.limit()
    }

    /// The settings of the limiter.
    pub closed spec fn config(self) -> RateLimiterConfig {
        RateLimiterConfig {
            max_tokens: self.max_tokens,
            refill_rate: self.refill_rate,
            refill_interval_ms: self.refill_interval_ms,
            ordering: self.ordering,
        }
    }

    /// What the cells of the limiter held when it was made.
    pub closed spec fn initial(self) -> Memory {
        self.cells.initial()
    }

    /// The token counter of the limiter, by which its cells are told from those of others.
    pub closed spec fn counter(self) -> TokenCounter {
        self.cells.counter()
    }

    /// The moment at which the limiter was made.
    pub closed spec fn created(self) -> Moment {
        self.created
    }

    /// The clock that the limiter reads: the one that showed when it was made.
    pub open spec fn clock(self) -> TimeBase {
        self.created().clock()
    }

    /// The record is that of accesses that were in fact made, all of them to the cells and the clock
    /// of this limiter.
    pub open spec fn recorded(self, made: Trace) -> bool {
        made.is_real() && all_on(made.steps(), self.counter(), self.clock())
    }

    /// The limiter was made with a full bucket and no request counted, and its times were set to
    /// what its clock showed then.
    pub open spec fn started_full(self) -> bool {
        self.initial() == Memory::fresh(self.config(), self.created().spec_now_ms())
    }

    /// A limiter with the given burst and refill per second.
    pub fn new(max_tokens: u64, refill_rate: u32) -> (r: Self)
        requires
            (RateLimiterConfig {
                max_tokens,
                refill_rate,
                refill_interval_ms: 1000,
                ordering: MemoryOrdering::AcquireRelease,
            }).is_valid(),
        ensures
            r.config() == (RateLimiterConfig {
                max_tokens,
                refill_rate,
                refill_interval_ms: 1000,
                ordering: MemoryOrdering::AcquireRelease,
            }),
            r.started_full(),
            call_ensures(TimeBase::new, (), r.clock()),
    {
        let defaults: RateLimiterConfig = RateLimiterConfig::default();
        RateLimiter::with_config(RateLimiterConfig { max_tokens, refill_rate, ..defaults })
    }

    /// A limiter with a full bucket and the given settings.
    pub fn with_config(config: RateLimiterConfig) -> (r: Self)
        requires
            config.is_valid(),
        ensures
            r.config() == config,
            r.started_full(),
            call_ensures(TimeBase::new, (), r.clock()),
    {
        RateLimiter::with_clock(config, TimeBase::new())
    }

    /// A limiter with the given settings that reads the given clock.
    pub fn with_clock(config: RateLimiterConfig, clock: TimeBase) -> (r: Self)
        requires
            config.is_valid(),
        ensures
            r.config() == config,
            r.started_full(),
            r.clock() == clock,
            r.counter().label() == (0u8, 0u128),
    {
        let mut trace: Trace = Trace::new();
        let moment: Moment = trace.read_clock(&clock);
        RateLimiter::made_at(config, moment, (0, 0))
    }

    /// A limiter with the given settings made at the given moment. It reads the clock that showed
    /// the moment, and bears a label that tells it from others.
    pub fn made_at(config: RateLimiterConfig, moment: Moment, label: (u8, u128)) -> (r: Self)
        requires
            config.is_valid(),
        ensures
            r.config() == config,
            r.created() == moment,
            r.initial() == Memory::fresh(config, moment.spec_now_ms()),
            r.counter().label() == label,
    {
        RateLimiter {
            cells: Cells::new(config.max_tokens, moment.now_ms(), label),
            created: moment,
            max_tokens: config.max_tokens,
            refill_rate: config.refill_rate,
            refill_interval_ms: config.refill_interval_ms,
            ordering_load: Order::of(config.ordering.load()),
            ordering_rmw: Order::of(config.ordering.rmw()),
            ordering_store: Order::of(config.ordering.store()),
            ordering: config.ordering,
        }
    }

    /// The moment at which the limiter was made, by its own clock.
    pub fn creation(&self) -> (r: Moment)
        ensures
            r == self.created(),
    {
        self.created
    }

    /// Counts a granted request, and ends a series of rejections.
    fn on_acquisition(&self, trace: &mut Trace)
        ensures
            only_on(*final(trace), *old(trace), self.counter(), self.clock()),
            extends(final(trace)@, old(trace)@),
            acquisition_run(since(final(trace)@, old(trace)@)),
    {
        proof {
            use_type_invariant(self);
        }
        let ghost start = trace@;
        self.cells.increment(Cell::TotalAcquired, trace);
        let ghost counted = trace@.last();
        let rejections: u64 = self.cells.read(
            Cell::ConsecutiveRejections,
            Order::Relaxed,
            trace,
        );
        let ghost seen = trace@.last();
        proof {
            lemma_since_push_two(start, counted, seen);
        }
        if rejections != 0 {
            let ghost before = trace@;
            self.cells.write(Cell::ConsecutiveRejections, 0, Order::Relaxed, trace);
            proof {
                lemma_since_push(before, trace@.last());
                lemma_since_joins(start, before, trace@);
            }
        }
    }

    /// Counts a refused request, and lengthens the series of rejections.
    fn on_rejection(&self, trace: &mut Trace)
        ensures
            only_on(*final(trace), *old(trace), self.counter(), self.clock()),
            extends(final(trace)@, old(trace)@),
            rejection_run(since(final(trace)@, old(trace)@)),
    {
        let ghost start = trace@;
        self.cells.increment(Cell::TotalRejected, trace);
        let ghost first = trace@.last();
        self.cells.increment(Cell::ConsecutiveRejections, trace);
        proof {
            lemma_since_push_two(start, first, trace@.last());
        }
    }

    /// Sets the access time to `now_ms`, unless it was set a short while ago.
    fn touch_last_access(&self, now_ms: u64, trace: &mut Trace)
        ensures
            only_on(*final(trace), *old(trace), self.counter(), self.clock()),
            extends(final(trace)@, old(trace)@),
            touch_run(now_ms, since(final(trace)@, old(trace)@)),
    {
        proof {
            use_type_invariant(self);
        }
        let ghost start = trace@;
        let last: u64 = self.cells.read(Cell::LastAccess, Order::Relaxed, trace);
        let ghost seen = trace@.last();
        proof {
            lemma_since_push(start, seen);
        }
        if passed_more_than(now_ms, last, LAST_ACCESS_UPDATE_INTERVAL_MS) {
            self.cells.write(Cell::LastAccess, now_ms, Order::Relaxed, trace);
            proof {
                lemma_since_push_two(start, seen, trace@.last());
            }
        }
    }

    /// Pauses after a failed exchange, longer with each failure. Returns the pauses made.
    fn backoff(retries: u32) -> (made: u32)
        ensures
            made == backoff_pauses(retries as int),
            call_ensures(cpu_relax, (), ()),
    {
        let pauses: u32 = pauses_after(retries);
        let mut made: u32 = 0;
        while made < pauses
            invariant
                made <= pauses,
                made > 0 ==> call_ensures(cpu_relax, (), ()),
            decreases pauses - made,
        {
            cpu_relax();
            made = made + 1;
        }
        made
    }

    /// The attempts to take one token.
    fn take_one(&self, trace: &mut Trace) -> (granted: bool)
        ensures
            only_on(*final(trace), *old(trace), self.counter(), self.clock()),
            extends(final(trace)@, old(trace)@),
            take_one_attempts(self.config(), 0, since(final(trace)@, old(trace)@), granted),
    {
        proof {
            use_type_invariant(self);
        }
        let ghost start = trace@;
        let ghost config = self.config();
        let mut retries: u32 = 0;
        proof {
            lemma_since_self(start);
            assert forall|rest: Seq<Access>, granted: bool| #[trigger]
                take_one_attempts(config, 0, rest, granted) implies take_one_attempts(
                config,
                0,
                since(start, start) + rest,
                granted,
            ) by {
                assert(since(start, start) + rest =~= rest);
            }
        }
        loop
            invariant
                start == old(trace)@,
                only_on(*trace, *old(trace), self.counter(), self.clock()),
                config == self.config(),
                self.settings_hold(),
                retries < MAX_CAS_RETRIES,
                extends(trace@, start),
                take_one_goes_on(config, retries as int, since(trace@, start)),
            decreases MAX_CAS_RETRIES - retries,
        {
            let ghost before = trace@;
            let current: u64 = self.cells.read(Cell::Tokens, self.ordering_load, trace);
            let ghost seen = trace@.last();
            if current == 0 {
                let ghost read = trace@;
                self.on_rejection(trace);
                proof {
                    let tail = since(trace@, read);
                    lemma_since_push(before, seen);
                    lemma_since_joins(before, read, trace@);
                    lemma_since_joins(start, before, trace@);
                    lemma_one_in_front(seen, tail);
                    assert(take_one_attempts(config, retries as int, seq![seen] + tail, false));
                }
                return false;
            }
            let outcome: Result<(), u64> = self.cells.exchange(
                Cell::Tokens,
                true,
                current,
                current - 1,
                self.ordering_rmw,
                trace,
            );
            let ghost tried = trace@.last();
            let ghost mid = trace@;
            proof {
                lemma_since_push_two(before, seen, tried);
            }
            match outcome {
                Ok(_) => {
                    self.on_acquisition(trace);
                    proof {
                        let tail = since(trace@, mid);
                        lemma_since_joins(before, mid, trace@);
                        lemma_since_joins(start, before, trace@);
                        lemma_two_in_front(seen, tried, tail);
                        assert(take_one_attempts(
                            config,
                            retries as int,
                            seq![seen, tried] + tail,
                            true,
                        ));
                    }
                    return true;
                },
                Err(actual) => {
                    if actual == 0 || retries + 1 >= MAX_CAS_RETRIES {
                        self.on_rejection(trace);
                        proof {
                            let tail = since(trace@, mid);
                            lemma_since_joins(before, mid, trace@);
                            lemma_since_joins(start, before, trace@);
                            lemma_two_in_front(seen, tried, tail);
                            assert(take_one_attempts(
                                config,
                                retries as int,
                                seq![seen, tried] + tail,
                                false,
                            ));
                        }
                        return false;
                    }
                    proof {
                        lemma_since_joins(start, before, mid);
                        assert forall|rest: Seq<Access>, granted: bool| #[trigger]
                            take_one_attempts(
                                config,
                                retries + 1,
                                rest,
                                granted,
                            ) implies take_one_attempts(
                            config,
                            0,
                            since(mid, start) + rest,
                            granted,
                        ) by {
                            lemma_two_in_front(seen, tried, rest);
                            assert(take_one_attempts(
                                config,
                                retries as int,
                                seq![seen, tried] + rest,
                                granted,
                            ));
                            assert(since(before, start) + (seq![seen, tried] + rest) =~= since(
                                mid,
                                start,
                            ) + rest);
                        }
                    }
                    retries = retries + 1;
                    RateLimiter::backoff(retries);
                },
            }
        }
    }

    /// Adds tokens, up to the capacity of the bucket. A refill is counted.
    fn pour(&self, amount: u64, counted: bool, trace: &mut Trace)
        ensures
            only_on(*final(trace), *old(trace), self.counter(), self.clock()),
            extends(final(trace)@, old(trace)@),
            pour_run(self.config(), amount, counted, since(final(trace)@, old(trace)@)),
    {
        proof {
            use_type_invariant(self);
        }
        let ghost start = trace@;
        let ghost config = self.config();
        let mut current: u64 = self.cells.read(Cell::Tokens, self.ordering_load, trace);
        let ghost first = current;
        let ghost seen = trace@.last();
        let ghost begun = trace@;
        let mut retries: u32 = 0;
        proof {
            lemma_since_push(start, seen);
            lemma_since_self(begun);
            assert forall|rest: Seq<Access>| #[trigger]
                pour_attempts(config, amount, counted, 0, first, rest) implies pour_attempts(
                config,
                amount,
                counted,
                0,
                first,
                since(begun, begun) + rest,
            ) by {
                assert(since(begun, begun) + rest =~= rest);
            }
        }
        loop
            invariant
                config == self.config(),
                self.settings_hold(),
                start == old(trace)@,
                only_on(*trace, *old(trace), self.counter(), self.clock()),
                extends(begun, start),
                since(begun, start) == seq![seen],
                is_load(seen, Cell::Tokens, reading(config.ordering)),
                loaded(seen) == first,
                retries < MAX_CAS_RETRIES,
                current <= self.cells.capacity_of(Cell::Tokens),
                extends(trace@, begun),
                pour_goes_on(
                    config,
                    amount,
                    counted,
                    first,
                    retries as int,
                    current,
                    since(trace@, begun),
                ),
            decreases MAX_CAS_RETRIES - retries,
        {
            let ghost before = trace@;
            let new_tokens: u64 = top_up(current, amount, self.max_tokens);
            if new_tokens == current {
                if counted {
                    self.cells.increment(Cell::TotalRefills, trace);
                }
                proof {
                    if counted {
                        lemma_since_push(before, trace@.last());
                    } else {
                        lemma_since_self(before);
                    }
                    assert(pour_attempts(
                        config,
                        amount,
                        counted,
                        retries as int,
                        current,
                        since(trace@, before),
                    ));
                    lemma_since_joins(begun, before, trace@);
                    lemma_since_joins(start, begun, trace@);
                    lemma_one_in_front(seen, since(trace@, begun));
                }
                return ;
            }
            let outcome: Result<(), u64> = self.cells.exchange(
                Cell::Tokens,
                true,
                current,
                new_tokens,
                self.ordering_rmw,
                trace,
            );
            let ghost tried = trace@.last();
            let ghost mid = trace@;
            proof {
                lemma_since_push(before, tried);
            }
            match outcome {
                Ok(_) => {
                    if counted {
                        self.cells.increment(Cell::TotalRefills, trace);
                    }
                    proof {
                        if counted {
                            lemma_since_push(mid, trace@.last());
                        } else {
                            lemma_since_self(mid);
                        }
                        let tail = since(trace@, mid);
                        lemma_one_in_front(tried, tail);
                        assert(pour_attempts(
                            config,
                            amount,
                            counted,
                            retries as int,
                            current,
                            seq![tried] + tail,
                        ));
                        lemma_since_joins(before, mid, trace@);
                        lemma_since_joins(begun, before, trace@);
                        lemma_since_joins(start, begun, trace@);
                        lemma_one_in_front(seen, since(trace@, begun));
                    }
                    return ;
                },
                Err(actual) => {
                    if retries + 1 >= MAX_CAS_RETRIES {
                        proof {
                            assert(pour_attempts(
                                config,
                                amount,
                                counted,
                                retries as int,
                                current,
                                seq![tried],
                            ));
                            lemma_since_joins(begun, before, trace@);
                            lemma_since_joins(start, begun, trace@);
                            lemma_one_in_front(seen, since(trace@, begun));
                        }
                        return ;
                    }
                    proof {
                        lemma_since_joins(begun, before, mid);
                        assert forall|rest: Seq<Access>| #[trigger]
                            pour_attempts(
                                config,
                                amount,
                                counted,
                                retries + 1,
                                actual,
                                rest,
                            ) implies pour_attempts(
                            config,
                            amount,
                            counted,
                            0,
                            first,
                            since(mid, begun) + rest,
                        ) by {
                            lemma_one_in_front(tried, rest);
                            assert(pour_attempts(
                                config,
                                amount,
                                counted,
                                retries as int,
                                current,
                                seq![tried] + rest,
                            ));
                            assert(since(before, begun) + (seq![tried] + rest) =~= since(mid, begun)
                                + rest);
                        }
                    }
                    current = actual;
                    retries = retries + 1;
                    RateLimiter::backoff(retries);
                },
            }
        }
    }

    /// Pays out some refill periods: under sustained pressure, at the adaptive rate.
    fn perform_refill(&self, periods: u64, trace: &mut Trace)
        ensures
            only_on(*final(trace), *old(trace), self.counter(), self.clock()),
            extends(final(trace)@, old(trace)@),
            payout_run(self.config(), periods as int, since(final(trace)@, old(trace)@)),
    {
        let ghost start = trace@;
        let pressed: bool = self.is_under_sustained_pressure_traced(trace);
        let ghost pressure = since(trace@, start)[0];
        assert(since(trace@, start) =~= seq![pressure]);
        if pressed {
            let ghost measured = trace@;
            let rate: u32 = self.adaptive_refill_rate(trace);
            let ghost rated = trace@;
            let amount: u64 = tokens_to_add(rate, periods, self.max_tokens);
            self.pour(amount, true, trace);
            proof {
                lemma_since_joins(start, measured, rated);
                lemma_since_joins(start, rated, trace@);
                let rates = since(rated, measured);
                let poured = since(trace@, rated);
                let all = since(trace@, start);
                assert(all =~= seq![pressure] + rates + poured);
                assert(all[0] == pressure && all[1] == rates[0] && all[2] == rates[1]);
                assert(all.skip(3) =~= poured);
            }
        } else {
            let ghost measured = trace@;
            let amount: u64 = tokens_to_add(self.refill_rate, periods, self.max_tokens);
            self.pour(amount, true, trace);
            proof {
                lemma_since_joins(start, measured, trace@);
                lemma_one_in_front(pressure, since(trace@, measured));
            }
        }
    }

    /// The refill rate that fits the share of requests refused so far.
    fn adaptive_refill_rate(&self, trace: &mut Trace) -> (rate: u32)
        ensures
            only_on(*final(trace), *old(trace), self.counter(), self.clock()),
            extends(final(trace)@, old(trace)@),
            ({
                let t = since(final(trace)@, old(trace)@);
                &&& t.len() == 2
                &&& is_load(t[0], Cell::TotalRejected, Order::Relaxed)
                &&& is_load(t[1], Cell::TotalAcquired, Order::Relaxed)
                &&& rate == adaptive_rate(self.config().refill_rate, loaded(t[1]), loaded(t[0]))
            }),
    {
        let ghost start = trace@;
        let rejected: u64 = self.cells.read(Cell::TotalRejected, Order::Relaxed, trace);
        let ghost first = trace@.last();
        let acquired: u64 = self.cells.read(Cell::TotalAcquired, Order::Relaxed, trace);
        proof {
            lemma_since_push_two(start, first, trace@.last());
        }
        reduced_rate(self.refill_rate, acquired, rejected)
    }

    /// Claims the refill periods that are due at `now_ms`, and pays them out.
    fn refill_if_needed(&self, now_ms: u64, trace: &mut Trace)
        ensures
            only_on(*final(trace), *old(trace), self.counter(), self.clock()),
            extends(final(trace)@, old(trace)@),
            refill_run(self.config(), now_ms, since(final(trace)@, old(trace)@)),
    {
        proof {
            use_type_invariant(self);
        }
        let ghost start = trace@;
        let last: u64 = self.cells.read(Cell::LastRefill, Order::Relaxed, trace);
        let ghost seen = trace@.last();
        proof {
            lemma_since_push(start, seen);
        }
        let periods: u64 = due_periods(time_since(now_ms, last), self.refill_interval_ms);
        if periods == 0 {
            return ;
        }
        let next: u64 = next_refill_time(last, now_ms, self.refill_interval_ms);
        let outcome: Result<(), u64> = self.cells.exchange(
            Cell::LastRefill,
            false,
            last,
            next,
            self.ordering_rmw,
            trace,
        );
        let ghost claimed = trace@.last();
        let ghost mid = trace@;
        proof {
            lemma_since_push_two(start, seen, claimed);
        }
        if outcome.is_ok() {
            self.perform_refill(periods, trace);
            proof {
                lemma_since_joins(start, mid, trace@);
                lemma_two_in_front(seen, claimed, since(trace@, mid));
            }
        }
    }

    /// Sets the access time to the present, unless it was set a short while ago.
    fn touch_last_access_lazy(&self, trace: &mut Trace)
        ensures
            only_on(*final(trace), *old(trace), self.counter(), self.clock()),
            extends(final(trace)@, old(trace)@),
            ({
                let t = since(final(trace)@, old(trace)@);
                t.len() >= 1 && is_clock(t[0]) && touch_run(clock_of(t[0]), t.skip(1))
            }),
    {
        let ghost start = trace@;
        let now: u64 = self.cells.read_clock(self.created.base(), trace);
        let ghost clock = trace@.last();
        let ghost read = trace@;
        self.touch_last_access(now, trace);
        proof {
            lemma_since_push(start, clock);
            lemma_since_joins(start, read, trace@);
            lemma_one_in_front(clock, since(trace@, read));
        }
    }

    /// Takes one token after the first attempt found none: refills if that is due, then tries
    /// until it succeeds, the bucket is empty or too many attempts have failed.
    fn try_acquire_full(&self, trace: &mut Trace) -> (granted: bool)
        ensures
            only_on(*final(trace), *old(trace), self.counter(), self.clock()),
            extends(final(trace)@, old(trace)@),
            take_one_slowly_run(self.config(), since(final(trace)@, old(trace)@), granted),
    {
        let ghost start = trace@;
        let now_ms: u64 = self.cells.read_clock(self.created.base(), trace);
        let ghost clock = trace@.last();
        let ghost timed = trace@;
        self.touch_last_access(now_ms, trace);
        let ghost touched = trace@;
        let last_refill: u64 = self.cells.read(Cell::LastRefill, Order::Relaxed, trace);
        let ghost seen = trace@.last();
        let ghost checked = trace@;
        proof {
            lemma_since_push(touched, seen);
        }
        if time_since(now_ms, last_refill) >= self.refill_interval_ms {
            self.refill_if_needed(now_ms, trace);
            proof {
                lemma_since_joins(touched, checked, trace@);
                lemma_one_in_front(seen, since(trace@, checked));
            }
        }
        let ghost refilled = trace@;
        let granted: bool = self.take_one(trace);
        proof {
            lemma_since_push(start, clock);
            lemma_since_joins(start, timed, touched);
            lemma_since_joins(start, touched, refilled);
            lemma_since_joins(start, refilled, trace@);
            assert(take_one_parts(
                self.config(),
                clock,
                since(touched, timed),
                since(refilled, touched),
                since(trace@, refilled),
                granted,
            ));
        }
        granted
    }

    /// [`RateLimiter::try_acquire`] with a record of its accesses.
    pub fn try_acquire_traced(&self, trace: &mut Trace) -> (granted: bool)
        ensures
            only_on(*final(trace), *old(trace), self.counter(), self.clock()),
            extends(final(trace)@, old(trace)@),
            acquire_run(self.config(), 1, since(final(trace)@, old(trace)@), granted),
    {
        proof {
            use_type_invariant(self);
        }
        let ghost start = trace@;
        let current: u64 = self.cells.read(Cell::Tokens, self.ordering_load, trace);
        let ghost seen = trace@.last();
        let ghost read = trace@;
        proof {
            lemma_since_push(start, seen);
        }
        if current > 0 {
            let outcome: Result<(), u64> = self.cells.exchange(
                Cell::Tokens,
                true,
                current,
                current - 1,
                self.ordering_rmw,
                trace,
            );
            let ghost tried = trace@.last();
            let ghost mid = trace@;
            proof {
                lemma_since_push_two(start, seen, tried);
            }
            if outcome.is_ok() {
                self.on_acquisition(trace);
                let ghost counted = trace@;
                self.touch_last_access_lazy(trace);
                proof {
                    let touch = since(trace@, counted);
                    lemma_since_joins(mid, counted, trace@);
                    lemma_since_joins(start, mid, trace@);
                    lemma_two_in_front(seen, tried, since(trace@, mid));
                    assert(granted_parts(since(counted, mid), touch[0], touch.skip(1)));
                    assert(since(trace@, mid) =~= since(counted, mid) + seq![touch[0]]
                        + touch.skip(1));
                }
                return true;
            }
            let granted: bool = self.try_acquire_full(trace);
            proof {
                lemma_since_joins(start, mid, trace@);
                lemma_two_in_front(seen, tried, since(trace@, mid));
            }
            return granted;
        }
        let granted: bool = self.try_acquire_full(trace);
        proof {
            lemma_since_joins(start, read, trace@);
            lemma_one_in_front(seen, since(trace@, read));
        }
        granted
    }

    /// Takes one token if there is one.
    pub fn try_acquire(&self) -> (granted: bool)
        ensures
            exists|made: Trace| #[trigger] self.recorded(made) && acquire_run(self.config(), 1, made@, granted),
    {
        let mut trace: Trace = Trace::new();
        let ghost start = trace@;
        let granted: bool = self.try_acquire_traced(&mut trace);
        proof {
            use_type_invariant(&trace);
            assert(since(trace@, start) =~= trace@);
            assert(self.recorded(trace) && acquire_run(self.config(), 1, trace@, granted));
        }
        granted
    }

    /// The attempts to take `n` tokens at once. A count that stays the same although exchanges
    /// fail is tried once more with a strong exchange.
    ///
    /// Whatever other threads do, there are at most `MAX_CAS_RETRIES` attempts. Granted, a single
    /// step took all the tokens; refused, the call never changed the count. It is counted once.
    pub fn try_acquire_with_bounded_cas(&self, n: u64, trace: &mut Trace) -> (granted: bool)
        ensures
            only_on(*final(trace), *old(trace), self.counter(), self.clock()),
            extends(final(trace)@, old(trace)@),
            take_many_attempts(
                self.config(),
                n,
                0,
                u64::MAX,
                0,
                since(final(trace)@, old(trace)@),
                granted,
            ),
            ({
                let t = since(final(trace)@, old(trace)@);
                &&& attempts_in(t) <= MAX_CAS_RETRIES
                &&& changes_in(t) == as_count(granted)
                &&& takes_in(t, n) == as_count(granted)
                &&& effect(t).acquired == as_count(granted)
                &&& effect(t).rejected == as_count(!granted)
            }),
    {
        proof {
            use_type_invariant(self);
        }
        let ghost start = trace@;
        let ghost config = self.config();
        let mut retries: u32 = 0;
        let mut last_seen: u64 = u64::MAX;
        let mut repeat_count: u32 = 0;
        proof {
            lemma_since_self(start);
            assert forall|rest: Seq<Access>, granted: bool| #[trigger]
                take_many_attempts(
                    config,
                    n,
                    0,
                    u64::MAX,
                    0,
                    rest,
                    granted,
                ) implies take_many_attempts(
                config,
                n,
                0,
                u64::MAX,
                0,
                since(start, start) + rest,
                granted,
            ) by {
                assert(since(start, start) + rest =~= rest);
            }
        }
        loop
            invariant
                start == old(trace)@,
                only_on(*trace, *old(trace), self.counter(), self.clock()),
                config == self.config(),
                self.settings_hold(),
                retries < MAX_CAS_RETRIES,
                repeat_count < MAX_REPEAT_COUNT,
                extends(trace@, start),
                take_many_goes_on(
                    config,
                    n,
                    retries as int,
                    last_seen,
                    repeat_count as int,
                    since(trace@, start),
                ),
            decreases MAX_CAS_RETRIES - retries,
        {
            let ghost before = trace@;
            let ghost old_seen = last_seen;
            let ghost old_count = repeat_count as int;
            let current: u64 = self.cells.read(Cell::Tokens, self.ordering_load, trace);
            let ghost seen = trace@.last();
            let mut last_chance: bool = false;
            if current == last_seen {
                repeat_count = repeat_count + 1;
                last_chance = repeat_count >= MAX_REPEAT_COUNT;
            } else {
                last_seen = current;
                repeat_count = 0;
            }
            if current < n {
                let ghost read = trace@;
                self.on_rejection(trace);
                proof {
                    let tail = since(trace@, read);
                    lemma_since_push(before, seen);
                    lemma_since_joins(before, read, trace@);
                    lemma_since_joins(start, before, trace@);
                    lemma_one_in_front(seen, tail);
                    assert(take_many_attempts(
                        config,
                        n,
                        retries as int,
                        old_seen,
                        old_count,
                        seq![seen] + tail,
                        false,
                    ));
                    law_attempts_are_bounded(
                        config,
                        n,
                        0,
                        u64::MAX,
                        0,
                        since(trace@, start),
                        false,
                    );
                }
                return false;
            }
            let outcome: Result<(), u64> = self.cells.exchange(
                Cell::Tokens,
                !last_chance,
                current,
                current - n,
                self.ordering_rmw,
                trace,
            );
            let ghost tried = trace@.last();
            let ghost mid = trace@;
            proof {
                lemma_since_push_two(before, seen, tried);
            }
            match outcome {
                Ok(_) => {
                    self.on_acquisition(trace);
                    proof {
                        let tail = since(trace@, mid);
                        lemma_since_joins(before, mid, trace@);
                        lemma_since_joins(start, before, trace@);
                        lemma_two_in_front(seen, tried, tail);
                        assert(take_many_attempts(
                            config,
                            n,
                            retries as int,
                            old_seen,
                            old_count,
                            seq![seen, tried] + tail,
                            true,
                        ));
                        law_attempts_are_bounded(
                            config,
                            n,
                            0,
                            u64::MAX,
                            0,
                            since(trace@, start),
                            true,
                        );
                    }
                    return true;
                },
                Err(actual) => {
                    if last_chance || actual < n || retries + 1 >= MAX_CAS_RETRIES {
                        self.on_rejection(trace);
                        proof {
                            let tail = since(trace@, mid);
                            lemma_since_joins(before, mid, trace@);
                            lemma_since_joins(start, before, trace@);
                            lemma_two_in_front(seen, tried, tail);
                            assert(take_many_attempts(
                                config,
                                n,
                                retries as int,
                                old_seen,
                                old_count,
                                seq![seen, tried] + tail,
                                false,
                            ));
                            law_attempts_are_bounded(
                                config,
                                n,
                                0,
                                u64::MAX,
                                0,
                                since(trace@, start),
                                false,
                            );
                        }
                        return false;
                    }
                    proof {
                        lemma_since_joins(start, before, mid);
                        assert forall|rest: Seq<Access>, granted: bool| #[trigger]
                            take_many_attempts(
                                config,
                                n,
                                retries + 1,
                                current,
                                repeat_count as int,
                                rest,
                                granted,
                            ) implies take_many_attempts(
                            config,
                            n,
                            0,
                            u64::MAX,
                            0,
                            since(mid, start) + rest,
                            granted,
                        ) by {
                            lemma_two_in_front(seen, tried, rest);
                            assert(take_many_attempts(
                                config,
                                n,
                                retries as int,
                                old_seen,
                                old_count,
                                seq![seen, tried] + rest,
                                granted,
                            ));
                            assert(since(before, start) + (seq![seen, tried] + rest) =~= since(
                                mid,
                                start,
                            ) + rest);
                        }
                    }
                    retries = retries + 1;
                    RateLimiter::backoff(retries);
                },
            }
        }
    }

    /// [`RateLimiter::try_acquire_n`] with a record of its accesses.
    pub fn try_acquire_n_traced(&self, n: u64, trace: &mut Trace) -> (granted: bool)
        ensures
            only_on(*final(trace), *old(trace), self.counter(), self.clock()),
            extends(final(trace)@, old(trace)@),
            acquire_run(self.config(), n, since(final(trace)@, old(trace)@), granted),
    {
        let ghost start = trace@;
        if n == 0 {
            proof {
                lemma_since_self(start);
            }
            return true;
        }
        if n == 1 {
            return self.try_acquire_traced(trace);
        }
        if n > self.max_tokens {
            self.on_rejection(trace);
            return false;
        }
        let now_ms: u64 = self.cells.read_clock(self.created.base(), trace);
        let ghost clock = trace@.last();
        let ghost timed = trace@;
        self.touch_last_access(now_ms, trace);
        let ghost touched = trace@;
        self.refill_if_needed(now_ms, trace);
        let ghost refilled = trace@;
        let granted: bool = self.try_acquire_with_bounded_cas(n, trace);
        proof {
            lemma_since_push(start, clock);
            lemma_since_joins(start, timed, touched);
            lemma_since_joins(start, touched, refilled);
            lemma_since_joins(start, refilled, trace@);
            assert(take_many_parts(
                self.config(),
                n,
                clock,
                since(touched, timed),
                since(refilled, touched),
                since(trace@, refilled),
                granted,
            ));
        }
        granted
    }

    /// Takes `n` tokens if there are as many, and else none.
    pub fn try_acquire_n(&self, n: u64) -> (granted: bool)
        ensures
            exists|made: Trace| #[trigger] self.recorded(made) && acquire_run(self.config(), n, made@, granted),
    {
        let mut trace: Trace = Trace::new();
        let ghost start = trace@;
        let granted: bool = self.try_acquire_n_traced(n, &mut trace);
        proof {
            use_type_invariant(&trace);
            assert(since(trace@, start) =~= trace@);
            assert(self.recorded(trace) && acquire_run(self.config(), n, trace@, granted));
        }
        granted
    }

    /// [`RateLimiter::available_tokens`] with a record of its accesses.
    pub fn available_tokens_traced(&self, trace: &mut Trace) -> (tokens: u64)
        ensures
            only_on(*final(trace), *old(trace), self.counter(), self.clock()),
            extends(final(trace)@, old(trace)@),
            available_run(self.config(), since(final(trace)@, old(trace)@), tokens),
    {
        proof {
            use_type_invariant(self);
        }
        let ghost start = trace@;
        let now_ms: u64 = self.cells.read_clock(self.created.base(), trace);
        let ghost clock = trace@.last();
        let ghost timed = trace@;
        self.refill_if_needed(now_ms, trace);
        let ghost refilled = trace@;
        let tokens: u64 = self.cells.read(Cell::Tokens, self.ordering_load, trace);
        let ghost count = trace@.last();
        proof {
            lemma_since_push(start, clock);
            lemma_since_push(refilled, count);
            lemma_since_joins(start, timed, refilled);
            lemma_since_joins(start, refilled, trace@);
            assert(available_parts(self.config(), clock, since(refilled, timed), count));
        }
        tokens
    }

    /// Tokens in the bucket, after a refill if one is due.
    pub fn available_tokens(&self) -> (tokens: u64)
        ensures
            exists|made: Trace| #[trigger] self.recorded(made) && available_run(self.config(), made@, tokens),
    {
        let mut trace: Trace = Trace::new();
        let ghost start = trace@;
        let tokens: u64 = self.available_tokens_traced(&mut trace);
        proof {
            use_type_invariant(&trace);
            assert(since(trace@, start) =~= trace@);
            assert(self.recorded(trace) && available_run(self.config(), trace@, tokens));
        }
        tokens
    }

    /// [`RateLimiter::is_inactive`] with a record of its accesses.
    pub fn is_inactive_traced(&self, inactive_duration_ms: u64, trace: &mut Trace) -> (inactive:
        bool)
        ensures
            only_on(*final(trace), *old(trace), self.counter(), self.clock()),
            extends(final(trace)@, old(trace)@),
            inactive_run(inactive_duration_ms, since(final(trace)@, old(trace)@), inactive),
    {
        let ghost start = trace@;
        let (now_ms, last_ms) = self.read_times(trace);
        proof {
            lemma_since_push_two(
                start,
                self.clock_step(now_ms).access,
                self.last_access_step(last_ms).access,
            );
        }
        passed_more_than(now_ms, last_ms, inactive_duration_ms)
    }

    /// Whether the last access was more than `inactive_duration_ms` ago.
    pub fn is_inactive(&self, inactive_duration_ms: u64) -> (inactive: bool)
        ensures
            exists|made: Trace| #[trigger] self.recorded(made) && inactive_run(inactive_duration_ms, made@, inactive),
    {
        let mut trace: Trace = Trace::new();
        let ghost start = trace@;
        let inactive: bool = self.is_inactive_traced(inactive_duration_ms, &mut trace);
        proof {
            use_type_invariant(&trace);
            assert(since(trace@, start) =~= trace@);
            assert(self.recorded(trace) && inactive_run(inactive_duration_ms, trace@, inactive));
        }
        inactive
    }

    /// [`RateLimiter::add_tokens`] with a record of its accesses.
    pub fn add_tokens_traced(&self, n: u64, trace: &mut Trace)
        ensures
            only_on(*final(trace), *old(trace), self.counter(), self.clock()),
            extends(final(trace)@, old(trace)@),
            pour_run(self.config(), n, false, since(final(trace)@, old(trace)@)),
    {
        self.pour(n, false, trace);
    }

    /// Adds `n` tokens, up to the capacity of the bucket. Returns the record of its accesses,
    /// which exists only for proofs.
    pub fn add_tokens(&self, n: u64) -> (made: Trace)
        ensures
            pour_run(self.config(), n, false, made@),
            self.recorded(made),
    {
        let mut trace: Trace = Trace::new();
        let ghost start = trace@;
        self.add_tokens_traced(n, &mut trace);
        proof {
            use_type_invariant(&trace);
        }
        assert(since(trace@, start) =~= trace@);
        trace
    }

    /// [`RateLimiter::reset`] with a record of its accesses.
    pub fn reset_traced(&self, trace: &mut Trace)
        ensures
            only_on(*final(trace), *old(trace), self.counter(), self.clock()),
            extends(final(trace)@, old(trace)@),
            reset_run(self.config(), since(final(trace)@, old(trace)@)),
    {
        proof {
            use_type_invariant(self);
        }
        let ghost start = trace@;
        let now_ms: u64 = self.cells.read_clock(self.created.base(), trace);
        self.cells.write(Cell::Tokens, self.max_tokens, self.ordering_store, trace);
        self.cells.write(Cell::LastRefill, now_ms, self.ordering_store, trace);
        self.cells.write(Cell::LastAccess, now_ms, self.ordering_store, trace);
        self.cells.write(Cell::ConsecutiveRejections, 0, self.ordering_store, trace);
        self.cells.write(Cell::MaxWait, 0, self.ordering_store, trace);
        self.cells.write(Cell::TotalAcquired, 0, self.ordering_store, trace);
        self.cells.write(Cell::TotalRejected, 0, self.ordering_store, trace);
        self.cells.write(Cell::TotalRefills, 0, self.ordering_store, trace);
        proof {
            assert(trace@.take(start.len() as int) =~= start);
            let t = since(trace@, start);
            assert(t =~= seq![
                t[0],
                reset_store(self.config(), Cell::Tokens, self.max_tokens),
                reset_store(self.config(), Cell::LastRefill, now_ms),
                reset_store(self.config(), Cell::LastAccess, now_ms),
                reset_store(self.config(), Cell::ConsecutiveRejections, 0),
                reset_store(self.config(), Cell::MaxWait, 0),
                reset_store(self.config(), Cell::TotalAcquired, 0),
                reset_store(self.config(), Cell::TotalRejected, 0),
                reset_store(self.config(), Cell::TotalRefills, 0),
            ]);
        }
    }

    /// Fills the bucket and sets all counters to zero. Returns the record of its accesses, which
    /// exists only for proofs.
    pub fn reset(&self) -> (made: Trace)
        ensures
            reset_run(self.config(), made@),
            self.recorded(made),
    {
        let mut trace: Trace = Trace::new();
        let ghost start = trace@;
        self.reset_traced(&mut trace);
        proof {
            use_type_invariant(&trace);
        }
        assert(since(trace@, start) =~= trace@);
        trace
    }

    /// Capacity of the bucket.
    pub fn get_max_tokens(&self) -> (r: u64)
        ensures
            r == self.config().max_tokens,
    {
        self.max_tokens
    }

    /// A reading of the access time of this limiter.
    pub open spec fn last_access_step(self, last_ms: u64) -> Step {
        Step {
            on: Some(self.counter()),
            access: Access::Load { cell: Cell::LastAccess, order: Order::Relaxed, value: last_ms },
        }
    }

    /// A reading of the clock of this limiter.
    pub open spec fn clock_step(self, now: u64) -> Step {
        Step { on: Some(self.counter()), access: Access::Clock { clock: self.clock(), now } }
    }

    /// Reads the clock and then the time of the last recorded access.
    pub fn read_times(&self, trace: &mut Trace) -> (r: (u64, u64))
        ensures
            final(trace).steps() == old(trace).steps().push(self.clock_step(r.0)).push(
                self.last_access_step(r.1),
            ),
            final(trace)@ == old(trace)@.push(self.clock_step(r.0).access).push(
                self.last_access_step(r.1).access,
            ),
    {
        let now_ms: u64 = self.cells.read_clock(self.created.base(), trace);
        let last_ms: u64 = self.cells.read(Cell::LastAccess, Order::Relaxed, trace);
        (now_ms, last_ms)
    }

    /// [`RateLimiter::get_last_access_ms`] with a record of its access.
    pub fn get_last_access_ms_traced(&self, trace: &mut Trace) -> (last_ms: u64)
        ensures
            only_on(*final(trace), *old(trace), self.counter(), self.clock()),
            extends(final(trace)@, old(trace)@),
            last_access_run(since(final(trace)@, old(trace)@), last_ms),
            final(trace).steps() == old(trace).steps().push(self.last_access_step(last_ms)),
    {
        let ghost start = trace@;
        let last_ms: u64 = self.cells.read(Cell::LastAccess, Order::Relaxed, trace);
        proof {
            lemma_since_push(start, trace@.last());
        }
        last_ms
    }

    /// Time of the last recorded access, in milliseconds since the epoch.
    pub fn get_last_access_ms(&self) -> (last_ms: u64)
        ensures
            exists|made: Trace| #[trigger] self.recorded(made) && last_access_run(made@, last_ms),
    {
        let mut trace: Trace = Trace::new();
        let ghost start = trace@;
        let last_ms: u64 = self.get_last_access_ms_traced(&mut trace);
        proof {
            use_type_invariant(&trace);
            assert(since(trace@, start) =~= trace@);
            assert(self.recorded(trace) && last_access_run(trace@, last_ms));
        }
        last_ms
    }

    /// [`RateLimiter::is_under_sustained_pressure`] with a record of its access.
    pub fn is_under_sustained_pressure_traced(&self, trace: &mut Trace) -> (pressed: bool)
        ensures
            only_on(*final(trace), *old(trace), self.counter(), self.clock()),
            extends(final(trace)@, old(trace)@),
            pressure_run(since(final(trace)@, old(trace)@), pressed),
    {
        let ghost start = trace@;
        let rejections: u64 = self.cells.read(Cell::ConsecutiveRejections, Order::Relaxed, trace);
        proof {
            lemma_since_push(start, trace@.last());
        }
        rejections > PRESSURE_REJECTIONS
    }

    /// Whether there were more than ten rejections in a row.
    pub fn is_under_sustained_pressure(&self) -> (pressed: bool)
        ensures
            exists|made: Trace| #[trigger] self.recorded(made) && pressure_run(made@, pressed),
    {
        let mut trace: Trace = Trace::new();
        let ghost start = trace@;
        let pressed: bool = self.is_under_sustained_pressure_traced(&mut trace);
        proof {
            use_type_invariant(&trace);
            assert(since(trace@, start) =~= trace@);
            assert(self.recorded(trace) && pressure_run(trace@, pressed));
        }
        pressed
    }

    /// Share of the requests that were refused.
    fn calculate_pressure_ratio(&self, trace: &mut Trace) -> (share: Ratio)
        ensures
            only_on(*final(trace), *old(trace), self.counter(), self.clock()),
            extends(final(trace)@, old(trace)@),
            ({
                let t = since(final(trace)@, old(trace)@);
                &&& t.len() == 2
                &&& is_load(t[0], Cell::TotalRejected, Order::Relaxed)
                &&& is_load(t[1], Cell::TotalAcquired, Order::Relaxed)
                &&& share == pressure(loaded(t[0]), loaded(t[1]))
            }),
    {
        let ghost start = trace@;
        let rejected: u64 = self.cells.read(Cell::TotalRejected, Order::Relaxed, trace);
        let ghost first = trace@.last();
        let acquired: u64 = self.cells.read(Cell::TotalAcquired, Order::Relaxed, trace);
        proof {
            lemma_since_push_two(start, first, trace@.last());
        }
        let requests: u128 = acquired as u128 + rejected as u128;
        if requests == 0 {
            Ratio { part: 0, whole: 1 }
        } else {
            Ratio { part: rejected as i128, whole: requests }
        }
    }

    /// [`RateLimiter::metrics`] with a record of its accesses.
    pub fn metrics_traced(&self, trace: &mut Trace) -> (metrics: RateLimiterMetrics)
        ensures
            only_on(*final(trace), *old(trace), self.counter(), self.clock()),
            extends(final(trace)@, old(trace)@),
            metrics_run(self.config(), since(final(trace)@, old(trace)@), metrics),
    {
        proof {
            use_type_invariant(self);
        }
        let ghost start = trace@;
        let total_acquired: u64 = self.cells.read(Cell::TotalAcquired, Order::Relaxed, trace);
        let total_rejected: u64 = self.cells.read(Cell::TotalRejected, Order::Relaxed, trace);
        let total_refills: u64 = self.cells.read(Cell::TotalRefills, Order::Relaxed, trace);
        let current_tokens: u64 = self.cells.read(Cell::Tokens, Order::Relaxed, trace);
        let rejections: u64 = self.cells.read(Cell::ConsecutiveRejections, Order::Relaxed, trace);
        let max_wait_time_ns: u64 = self.cells.read(Cell::MaxWait, Order::Relaxed, trace);
        let ghost read = trace@;
        let pressure_ratio: Ratio = self.calculate_pressure_ratio(trace);
        proof {
            assert(read.take(start.len() as int) =~= start);
            lemma_since_joins(start, read, trace@);
            assert(since(read, start).len() == 6);
            assert(self.cells.capacity_of(Cell::ConsecutiveRejections)
                == Cell::ConsecutiveRejections.limit());
        }
        RateLimiterMetrics {
            total_acquired,
            total_rejected,
            total_refills,
            current_tokens,
            max_tokens: self.max_tokens,
            consecutive_rejections: clamp_to_u32(rejections),
            max_wait_time_ns,
            pressure_ratio,
        }
    }

    /// A snapshot of the figures of the limiter.
    pub fn metrics(&self) -> (metrics: RateLimiterMetrics)
        ensures
            exists|made: Trace| #[trigger] self.recorded(made) && metrics_run(self.config(), made@, metrics),
    {
        let mut trace: Trace = Trace::new();
        let ghost start = trace@;
        let metrics: RateLimiterMetrics = self.metrics_traced(&mut trace);
        proof {
            use_type_invariant(&trace);
            assert(since(trace@, start) =~= trace@);
            assert(self.recorded(trace) && metrics_run(self.config(), trace@, metrics));
        }
        metrics
    }
}

} // verus!
