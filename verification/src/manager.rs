//! One limiter per client address, within bounds.

use crate::address::IpAddress;
use crate::cells::{
    accesses_of, all_on, continues, lemma_only_on, new_steps, Moment, Step, TokenCounter, Trace,
};
use crate::clock::TimeBase;
use crate::config::RateLimiterConfig;
use crate::eviction::{first_keys, inactive_keys, is_ranking, rank, Reading};
use crate::history::Access;
use crate::limiter::RateLimiter;
use crate::metrics::{ratio, Ratio};
use crate::runs::{acquire_run, clock_of};
use crate::table::{
    contents, count, empty_out, empty_table, entries, find, find_or_put, give_back, no_limiters,
    room, take_out,
};
use ahash::RandomState;
use dashmap::DashMap;
use std::sync::Arc;
use vstd::prelude::*;

verus! {

/// Most addresses that are tracked at once.
pub const MAX_TRACKED_IPS: usize = 10_000;

/// Tracked addresses from which on a new one calls for an eviction.
pub const CLEANUP_THRESHOLD: usize = 9_000;

/// Tracked addresses that an eviction aims at.
pub const CLEANUP_TARGET: usize = 7_000;

/// An eviction spares addresses that were idle for less than the inactive duration, divided by
/// this.
pub const EMERGENCY_CLEANUP_INACTIVE_FACTOR: u64 = 2;

/// An eviction spares addresses that were idle for less than this many milliseconds.
pub const EMERGENCY_CLEANUP_MIN_INACTIVE_MS: u64 = 1000;

/// Milliseconds between two cleanups, unless set otherwise.
pub const DEFAULT_CLEANUP_INTERVAL_MS: u64 = 60_000;

/// Milliseconds after which an address counts as inactive, unless set otherwise.
pub const DEFAULT_INACTIVE_DURATION_MS: u64 = 300_000;

/// Threads that a table is laid out for, unless set otherwise.
pub const DEFAULT_PARALLELISM: usize = 8;

/// What a manager knows.
pub struct ManagerState {
    /// The limiters, by the key of their address.
    pub limiters: Map<(u8, u128), Arc<RateLimiter>>,
    /// Limiters made so far.
    pub created: u64,
    /// Limiters removed so far.
    pub cleaned: u64,
    /// Settings of every limiter.
    pub config: RateLimiterConfig,
    /// Milliseconds between two cleanups.
    pub cleanup_interval_ms: u64,
    /// Milliseconds after which an address counts as inactive.
    pub inactive_duration_ms: u64,
    /// The clock that the manager and all limiters read.
    pub clock: TimeBase,
}

/// Readings of exactly the limiters in a table, one of each.
pub open spec fn covers(
    readings: Seq<Reading>,
    limiters: Map<(u8, u128), Arc<RateLimiter>>,
) -> bool {
    &&& forall|i: int| 0 <= i < readings.len() ==> limiters.contains_key((#[trigger] readings[i]).key)
    &&& forall|i: int, j: int|
        0 <= i < j < readings.len() ==> (#[trigger] readings[i]).key != (#[trigger] readings[j]).key
    &&& forall|key: (u8, u128)| #[trigger]
        limiters.contains_key(key) ==> exists|i: int|
            0 <= i < readings.len() && (#[trigger] readings[i]).key == key
}

/// The steps of a look at every limiter: the given clock is read once, then the access time of each.
/// The readings are what was seen.
pub open spec fn looked(
    readings: Seq<Reading>,
    limiters: Map<(u8, u128), Arc<RateLimiter>>,
    clock: TimeBase,
    look: Seq<Step>,
) -> bool {
    &&& covers(readings, limiters)
    &&& look.len() == readings.len() + 1
    &&& look[0] == reading_of(clock, look[0])
    &&& forall|i: int|
        0 <= i < readings.len() ==> (#[trigger] readings[i]).now_ms == clock_of(look[0].access)
            && look[i + 1] == limiters[readings[i].key].last_access_step(readings[i].last_ms)
}

/// The steps of a look at every limiter that reads the clock of each anew. The readings are what was
/// seen.
pub open spec fn looked_each(
    readings: Seq<Reading>,
    limiters: Map<(u8, u128), Arc<RateLimiter>>,
    look: Seq<Step>,
) -> bool {
    &&& covers(readings, limiters)
    &&& look.len() == 2 * readings.len()
    &&& forall|i: int|
        0 <= i < readings.len() ==> look[2 * i] == limiters[(#[trigger] readings[i]).key].clock_step(
            readings[i].now_ms,
        ) && look[2 * i + 1] == limiters[readings[i].key].last_access_step(readings[i].last_ms)
}

/// The reading of a clock for no limiter in particular that showed the same time as `step`.
pub open spec fn reading_of(clock: TimeBase, step: Step) -> Step {
    Step { on: None, access: Access::Clock { clock, now: clock_of(step.access) } }
}

/// The look at all limiters, out of the steps of asking for a limiter: all steps, but for the
/// reading of the clock by which a new limiter is made.
pub open spec fn look_of(steps: Seq<Step>, answer: Option<Arc<RateLimiter>>) -> Seq<Step> {
    if answer is Some {
        steps.drop_last()
    } else {
        steps
    }
}

/// The set of a sequence with one element more.
proof fn lemma_set_of_more(keys: Seq<(u8, u128)>, key: (u8, u128))
    ensures
        keys.push(key).to_set() == keys.to_set().insert(key),
{
    let more = keys.push(key);
    assert forall|k: (u8, u128)| keys.to_set().insert(key).contains(k) implies more.to_set().contains(
        k,
    ) by {
        if k == key {
            assert(more[keys.len() as int] == k);
        } else {
            let at = choose|at: int| 0 <= at < keys.len() && keys[at] == k;
            assert(more[at] == k);
        }
    }
    assert(more.to_set() =~= keys.to_set().insert(key));
}

/// The inactive keys with one reading more.
proof fn lemma_inactive_keys_of_more(readings: Seq<Reading>, i: int, threshold_ms: u64)
    requires
        0 <= i < readings.len(),
    ensures
        inactive_keys(readings.take(i + 1), threshold_ms) == (if readings[i].is_inactive(
            threshold_ms,
        ) {
            inactive_keys(readings.take(i), threshold_ms).insert(readings[i].key)
        } else {
            inactive_keys(readings.take(i), threshold_ms)
        }),
{
    let fewer = readings.take(i);
    let more = readings.take(i + 1);
    let reading = readings[i];
    assert forall|key: (u8, u128)|
        inactive_keys(more, threshold_ms).contains(key) == (inactive_keys(
            fewer,
            threshold_ms,
        ).contains(key) || (reading.is_inactive(threshold_ms) && reading.key == key)) by {
        if inactive_keys(fewer, threshold_ms).contains(key) {
            let j = choose|j: int|
                0 <= j < fewer.len() && (#[trigger] fewer[j]).key == key && fewer[j].is_inactive(
                    threshold_ms,
                );
            assert(more[j].key == key);
        }
        if inactive_keys(more, threshold_ms).contains(key) {
            let j = choose|j: int|
                0 <= j < more.len() && (#[trigger] more[j]).key == key && more[j].is_inactive(
                    threshold_ms,
                );
            if j < i {
                assert(fewer[j].key == key);
            }
        }
        assert(more[i] == reading);
    }
    if reading.is_inactive(threshold_ms) {
        assert(inactive_keys(more, threshold_ms) =~= inactive_keys(fewer, threshold_ms).insert(
            reading.key,
        ));
    } else {
        assert(inactive_keys(more, threshold_ms) =~= inactive_keys(fewer, threshold_ms));
    }
}

/// Removing limiters leaves no more than there were, and adds none.
pub proof fn lemma_removal_keeps(state: ManagerState, keys: Set<(u8, u128)>)
    requires
        state.is_well_formed(),
    ensures
        state.without(keys).limiters.len() <= state.limiters.len(),
        state.without(keys).limiters.submap_of(state.limiters),
        state.without(keys).is_well_formed(),
{
    let after = state.without(keys);
    assert(after.limiters.dom().subset_of(state.limiters.dom()));
    vstd::set_lib::lemma_len_subset(after.limiters.dom(), state.limiters.dom());
}

/// An eviction leaves no more limiters than there were, and adds none.
pub proof fn lemma_eviction_keeps(state: ManagerState, readings: Seq<Reading>, after: ManagerState)
    requires
        state.is_well_formed(),
        state.evicts(readings, after),
    ensures
        after.limiters.len() <= state.limiters.len(),
        after.limiters.submap_of(state.limiters),
        after.is_well_formed(),
        after.config == state.config,
{
    if state.limiters.len() > CLEANUP_TARGET {
        let order = choose|order: Seq<usize>| #[trigger]
            is_ranking(readings, state.eviction_threshold_ms(), order) && after == state.without(
                first_keys(readings, order, state.limiters.len() - CLEANUP_TARGET),
            );
        lemma_removal_keeps(
            state,
            first_keys(readings, order, state.limiters.len() - CLEANUP_TARGET),
        );
    }
}

impl ManagerState {
    /// The bounds are kept, every limiter has the settings and the clock of the manager and bears
    /// the key of its address, and each limiter made is either tracked or was removed.
    pub open spec fn is_well_formed(self) -> bool {
        &&& self.limiters.dom().finite()
        &&& self.limiters.len() <= MAX_TRACKED_IPS
        &&& self.created == self.cleaned.wrapping_add(self.limiters.len() as u64)
        &&& forall|key: (u8, u128)| #[trigger]
            self.limiters.contains_key(key) ==> self.limiters[key].config() == self.config
                && self.limiters[key].clock() == self.clock && self.limiters[key].counter().label()
                == key
    }

    /// The limiters under the given keys were removed.
    pub open spec fn without(self, keys: Set<(u8, u128)>) -> ManagerState {
        let limiters = self.limiters.remove_keys(keys);
        ManagerState {
            limiters,
            cleaned: self.cleaned.wrapping_add((self.limiters.len() - limiters.len()) as u64),
            ..self
        }
    }

    /// All limiters were removed.
    pub open spec fn cleared(self) -> ManagerState {
        ManagerState {
            limiters: no_limiters(),
            cleaned: self.cleaned.wrapping_add(self.limiters.len() as u64),
            ..self
        }
    }

    /// The figures that describe the state.
    pub open spec fn figures(self) -> ManagerStats {
        ManagerStats {
            active_ips: self.limiters.len() as usize,
            total_created: self.created,
            total_cleaned: self.cleaned,
            capacity_used: ratio(self.limiters.len() as int, MAX_TRACKED_IPS as int),
            max_capacity: MAX_TRACKED_IPS,
        }
    }

    /// A limiter was made for an address that had none.
    pub open spec fn with(self, key: (u8, u128), limiter: Arc<RateLimiter>) -> ManagerState {
        ManagerState {
            limiters: self.limiters.insert(key, limiter),
            created: self.created.wrapping_add(1),
            ..self
        }
    }

    /// Idle time beyond which a cleanup removes a limiter: half of the inactive duration once the
    /// table is nearly full.
    pub open spec fn cleanup_threshold_ms(self) -> u64 {
        if self.limiters.len() > CLEANUP_THRESHOLD {
            self.inactive_duration_ms / 2
        } else {
            self.inactive_duration_ms
        }
    }

    /// Idle time from which on an eviction may remove a limiter.
    pub open spec fn eviction_threshold_ms(self) -> u64 {
        let part = self.inactive_duration_ms / EMERGENCY_CLEANUP_INACTIVE_FACTOR;
        if part >= EMERGENCY_CLEANUP_MIN_INACTIVE_MS {
            part
        } else {
            EMERGENCY_CLEANUP_MIN_INACTIVE_MS
        }
    }

    /// A cleanup after the given readings.
    pub open spec fn cleaned_up(self, readings: Seq<Reading>) -> ManagerState {
        self.without(inactive_keys(readings, self.cleanup_threshold_ms()))
    }

    /// `after` is what a cleanup with the given look leaves.
    pub open spec fn sweeps(self, look: Seq<Step>, after: ManagerState) -> bool {
        exists|readings: Seq<Reading>| #[trigger]
            looked_each(readings, self.limiters, look) && after == self.cleaned_up(readings)
    }

    /// `after` is what an eviction after the given readings leaves: of the limiters that were idle
    /// for long enough, the longest idle are gone, as many as are over the target.
    pub open spec fn evicts(self, readings: Seq<Reading>, after: ManagerState) -> bool {
        if self.limiters.len() <= CLEANUP_TARGET {
            after == self
        } else {
            exists|order: Seq<usize>| #[trigger]
                is_ranking(readings, self.eviction_threshold_ms(), order) && after == self.without(
                    first_keys(readings, order, self.limiters.len() - CLEANUP_TARGET),
                )
        }
    }

    /// `room` is what an eviction with the given look leaves.
    pub open spec fn makes_room(self, look: Seq<Step>, room: ManagerState) -> bool {
        exists|readings: Seq<Reading>| #[trigger]
            looked(readings, self.limiters, self.clock, look) && self.evicts(readings, room)
    }

    /// A new limiter with a full bucket was made for an address, at the time that the clock of the
    /// manager showed in the given step.
    pub open spec fn takes_in(
        self,
        key: (u8, u128),
        creation: Step,
        after: ManagerState,
        answer: Option<Arc<RateLimiter>>,
    ) -> bool {
        &&& answer is Some
        &&& answer->0.config() == self.config
        &&& answer->0.clock() == self.clock
        &&& answer->0.created().step() == creation
        &&& answer->0.started_full()
        &&& answer->0.counter().label() == key
        &&& after == self.with(key, answer->0)
    }

    /// `after` and `answer` are what asking for the limiter under a key leaves and returns: the
    /// limiter that is there, or else a new one. Once the table is nearly full, room is made before
    /// a new one is taken in; it is refused only if the table is full nevertheless. The steps are
    /// those of the look at all limiters that making room takes, and the reading of the clock by
    /// which a new limiter is made.
    pub open spec fn serves(
        self,
        key: (u8, u128),
        steps: Seq<Step>,
        after: ManagerState,
        answer: Option<Arc<RateLimiter>>,
    ) -> bool {
        if self.limiters.contains_key(key) {
            steps.len() == 0 && after == self && answer == Some(self.limiters[key])
        } else if self.limiters.len() < CLEANUP_THRESHOLD {
            steps.len() == 1 && self.takes_in(key, steps[0], after, answer)
        } else {
            exists|room: ManagerState| #[trigger]
                self.makes_room(look_of(steps, answer), room) && if room.limiters.len()
                    >= MAX_TRACKED_IPS {
                    after == room && answer is None
                } else {
                    steps.len() >= 1 && room.takes_in(key, steps.last(), after, answer)
                }
        }
    }

    /// `after` and `granted` are what a request for `n` tokens leaves and returns. Its steps are
    /// those of asking for the limiter, and then those of the request at that limiter and no other.
    pub open spec fn replies(
        self,
        key: (u8, u128),
        n: u64,
        steps: Seq<Step>,
        after: ManagerState,
        granted: bool,
    ) -> bool {
        exists|asking: Seq<Step>, own: Seq<Step>, answer: Option<Arc<RateLimiter>>|
            {
                &&& #[trigger] self.serves(key, asking, after, answer)
                &&& #[trigger] asks(answer, n, own, granted)
                &&& steps == asking + own
            }
    }
}

/// The steps of a request for `n` tokens at a limiter, all made to its cells. Without a limiter the
/// request is refused and makes none.
pub open spec fn asks(
    answer: Option<Arc<RateLimiter>>,
    n: u64,
    own: Seq<Step>,
    granted: bool,
) -> bool {
    match answer {
        Some(limiter) => {
            &&& all_on(own, limiter.counter(), limiter.clock())
            &&& acquire_run(limiter.config(), n, accesses_of(own), granted)
        },
        None => !granted && own.len() == 0,
    }
}

/// Keeps a limiter for each client address.
///
/// A client gets a limiter with its first request. There are never more than `MAX_TRACKED_IPS`:
/// limiters of clients that stay away are removed.
#[derive(Debug)]
pub struct IpRateLimiterManager {
    limiters: DashMap<(u8, u128), Arc<RateLimiter>, RandomState>,
    active_count: usize,
    config: RateLimiterConfig,
    cleanup_interval_ms: u64,
    inactive_duration_ms: u64,
    total_created: u64,
    total_cleaned: u64,
    clock: TimeBase,
}

impl View for IpRateLimiterManager {
    type V = ManagerState;

    closed spec fn view(&self) -> ManagerState {
        ManagerState {
            limiters: contents(self.limiters),
            created: self.total_created,
            cleaned: self.total_cleaned,
            config: self.config,
            cleanup_interval_ms: self.cleanup_interval_ms,
            inactive_duration_ms: self.inactive_duration_ms,
            clock: self.clock,
        }
    }
}

/// Shards for a number of threads: a power of two, at least one per thread as far as 64 allow.
fn shard_count(parallelism: usize) -> (r: usize)
    ensures
        r == 2 || r == 4 || r == 8 || r == 16 || r == 32 || r == 64,
        r == 64 || parallelism <= r,
        r == 2 || r / 2 < parallelism,
{
    if parallelism <= 2 {
        2
    } else if parallelism <= 4 {
        4
    } else if parallelism <= 8 {
        8
    } else if parallelism <= 16 {
        16
    } else if parallelism <= 32 {
        32
    } else {
        64
    }
}

/// Whether a table with room for `capacity` limiters is much larger than `active` of them need.
pub fn is_oversized(capacity: usize, active: usize) -> (r: bool)
    ensures
        r == (capacity > active * 4 && capacity > 1024),
{
    capacity > 1024 && (capacity - 1) / 4 >= active
}

/// Readings of all entries of a table cover it.
proof fn lemma_entries_cover(
    all: Seq<((u8, u128), Arc<RateLimiter>)>,
    readings: Seq<Reading>,
    limiters: Map<(u8, u128), Arc<RateLimiter>>,
)
    requires
        forall|i: int| 0 <= i < all.len() ==> limiters.contains_key((#[trigger] all[i]).0),
        forall|i: int, j: int| 0 <= i < j < all.len() ==> all[i].0 != all[j].0,
        forall|key: (u8, u128)| #[trigger]
            limiters.contains_key(key) ==> exists|i: int|
                0 <= i < all.len() && (#[trigger] all[i]).0 == key,
        readings.len() == all.len(),
        forall|i: int| 0 <= i < readings.len() ==> (#[trigger] readings[i]).key == all[i].0,
    ensures
        covers(readings, limiters),
{
    assert forall|key: (u8, u128)| #[trigger] limiters.contains_key(key) implies exists|k: int|
        0 <= k < readings.len() && (#[trigger] readings[k]).key == key by {
        let k = choose|k: int| 0 <= k < all.len() && (#[trigger] all[k]).0 == key;
        assert(readings[k].key == key);
    }
}

impl IpRateLimiterManager {
    /// The state is well-formed, and the count of limiters is theirs.
    pub closed spec fn is_well_formed(self) -> bool {
        &&& self@.is_well_formed()
        &&& self.active_count == self@.limiters.len()
    }

    /// A well-formed manager has a well-formed state.
    pub proof fn lemma_state_is_well_formed(self)
        requires
            self.is_well_formed(),
        ensures
            self@.is_well_formed(),
    {
    }

    /// A manager without clients: cleanups every minute, clients inactive after five minutes.
    pub fn new(config: RateLimiterConfig) -> (r: Self)
        ensures
            r.is_well_formed(),
            r@ == (ManagerState {
                limiters: no_limiters(),
                created: 0,
                cleaned: 0,
                config,
                cleanup_interval_ms: DEFAULT_CLEANUP_INTERVAL_MS,
                inactive_duration_ms: DEFAULT_INACTIVE_DURATION_MS,
                clock: r@.clock,
            }),
            call_ensures(TimeBase::new, (), r@.clock),
    {
        IpRateLimiterManager::with_cleanup_settings(
            config,
            DEFAULT_CLEANUP_INTERVAL_MS,
            DEFAULT_INACTIVE_DURATION_MS,
        )
    }

    /// A manager without clients, with the given cleanup settings.
    pub fn with_cleanup_settings(
        config: RateLimiterConfig,
        cleanup_interval_ms: u64,
        inactive_duration_ms: u64,
    ) -> (r: Self)
        ensures
            r.is_well_formed(),
            r@ == (ManagerState {
                limiters: no_limiters(),
                created: 0,
                cleaned: 0,
                config,
                cleanup_interval_ms,
                inactive_duration_ms,
                clock: r@.clock,
            }),
            call_ensures(TimeBase::new, (), r@.clock),
    {
        IpRateLimiterManager::with_parallelism(
            config,
            cleanup_interval_ms,
            inactive_duration_ms,
            DEFAULT_PARALLELISM,
        )
    }

    /// A manager whose table is laid out for the given number of threads.
    pub fn with_parallelism(
        config: RateLimiterConfig,
        cleanup_interval_ms: u64,
        inactive_duration_ms: u64,
        parallelism: usize,
    ) -> (r: Self)
        ensures
            r.is_well_formed(),
            r@ == (ManagerState {
                limiters: no_limiters(),
                created: 0,
                cleaned: 0,
                config,
                cleanup_interval_ms,
                inactive_duration_ms,
                clock: r@.clock,
            }),
            call_ensures(TimeBase::new, (), r@.clock),
    {
        IpRateLimiterManager::with_clock(
            config,
            cleanup_interval_ms,
            inactive_duration_ms,
            parallelism,
            TimeBase::new(),
        )
    }

    /// A manager that reads the given clock, and so do all its limiters. Its table is laid out for
    /// the given number of threads.
    pub fn with_clock(
        config: RateLimiterConfig,
        cleanup_interval_ms: u64,
        inactive_duration_ms: u64,
        parallelism: usize,
        clock: TimeBase,
    ) -> (r: Self)
        ensures
            r.is_well_formed(),
            r@ == (ManagerState {
                limiters: no_limiters(),
                created: 0,
                cleaned: 0,
                config,
                cleanup_interval_ms,
                inactive_duration_ms,
                clock,
            }),
    {
        let shards: usize = shard_count(parallelism);
        let share: usize = MAX_TRACKED_IPS / shards;
        let capacity: usize = if share >= 128 {
            share
        } else {
            128
        };
        IpRateLimiterManager {
            limiters: empty_table(capacity, RandomState::new(), shards),
            active_count: 0,
            config,
            cleanup_interval_ms,
            inactive_duration_ms,
            total_created: 0,
            total_cleaned: 0,
            clock,
        }
    }

    /// Looks at every limiter, at one moment.
    pub fn inspect(&self, trace: &mut Trace) -> (readings: Vec<Reading>)
        ensures
            continues(*final(trace), *old(trace)),
            looked(readings@, self@.limiters, self@.clock, new_steps(*final(trace), *old(trace))),
    {
        let ghost start = trace.steps().len();
        let moment: Moment = trace.read_clock(&self.clock);
        let now_ms: u64 = moment.now_ms();
        let all: Vec<((u8, u128), Arc<RateLimiter>)> = entries(&self.limiters);
        let mut readings: Vec<Reading> = Vec::new();
        let mut i: usize = 0;
        while i < all.len()
            invariant
                i <= all@.len(),
                readings@.len() == i,
                start == old(trace).steps().len(),
                continues(*trace, *old(trace)),
                trace.steps().len() == start + 1 + i,
                trace.steps()[start as int] == moment.step(),
                moment.clock() == self.clock,
                moment.spec_now_ms() == now_ms,
                forall|k: int|
                    0 <= k < i ==> (#[trigger] readings@[k]).key == all@[k].0 && readings@[k].now_ms
                        == now_ms && trace.steps()[start + 1 + k] == all@[k].1.last_access_step(
                        readings@[k].last_ms,
                    ),
            decreases all@.len() - i,
        {
            let last_ms: u64 = all[i].1.get_last_access_ms_traced(trace);
            readings.push(Reading { key: all[i].0, last_ms, now_ms });
            i = i + 1;
        }
        proof {
            lemma_entries_cover(all@, readings@, self@.limiters);
        }
        readings
    }

    /// Looks at every limiter, one after the other.
    pub fn inspect_each(&self, trace: &mut Trace) -> (readings: Vec<Reading>)
        ensures
            continues(*final(trace), *old(trace)),
            looked_each(readings@, self@.limiters, new_steps(*final(trace), *old(trace))),
    {
        let ghost start = trace.steps().len();
        let all: Vec<((u8, u128), Arc<RateLimiter>)> = entries(&self.limiters);
        let mut readings: Vec<Reading> = Vec::new();
        let mut i: usize = 0;
        while i < all.len()
            invariant
                i <= all@.len(),
                readings@.len() == i,
                start == old(trace).steps().len(),
                continues(*trace, *old(trace)),
                trace.steps().len() == start + 2 * i,
                forall|k: int|
                    0 <= k < i ==> (#[trigger] readings@[k]).key == all@[k].0 && trace.steps()[start
                        + 2 * k] == all@[k].1.clock_step(readings@[k].now_ms)
                        && trace.steps()[start + 2 * k + 1] == all@[k].1.last_access_step(
                        readings@[k].last_ms,
                    ),
            decreases all@.len() - i,
        {
            let (now_ms, last_ms) = all[i].1.read_times(trace);
            readings.push(Reading { key: all[i].0, last_ms, now_ms });
            i = i + 1;
        }
        proof {
            lemma_entries_cover(all@, readings@, self@.limiters);
        }
        readings
    }

    /// Removes the limiters under the given keys.
    fn remove_each(&mut self, keys: &Vec<(u8, u128)>)
        requires
            old(self).is_well_formed(),
        ensures
            final(self).is_well_formed(),
            final(self)@ == old(self)@.without(keys@.to_set()),
    {
        let ghost start = self@;
        let mut removed: u64 = 0;
        let mut i: usize = 0;
        proof {
            assert(start.limiters.remove_keys(keys@.take(0).to_set()) =~= start.limiters);
        }
        while i < keys.len()
            invariant
                i <= keys@.len(),
                start == old(self)@,
                start.is_well_formed(),
                self@ == (ManagerState {
                    limiters: start.limiters.remove_keys(keys@.take(i as int).to_set()),
                    ..start
                }),
                self@.limiters.dom().finite(),
                self.active_count == self@.limiters.len(),
                removed == start.limiters.len() - self@.limiters.len(),
                removed <= MAX_TRACKED_IPS,
            decreases keys@.len() - i,
        {
            let key: (u8, u128) = keys[i];
            let ghost before = self@.limiters;
            if take_out(&mut self.limiters, key) {
                proof {
                    assert(before.remove(key).dom() =~= before.dom().remove(key));
                    assert(before.dom().contains(key));
                }
                self.active_count = self.active_count - 1;
                removed = removed + 1;
            } else {
                assert(before.remove(key) =~= before);
            }
            proof {
                let done = keys@.take(i as int);
                let more = keys@.take(i + 1);
                assert(more =~= done.push(key));
                lemma_set_of_more(done, key);
                assert(start.limiters.remove_keys(more.to_set()) =~= before.remove(key));
            }
            i = i + 1;
        }
        assert(keys@.take(keys@.len() as int) =~= keys@);
        self.total_cleaned = self.total_cleaned.wrapping_add(removed);
    }

    /// Removes the limiters that the readings show as inactive.
    pub fn remove_inactive(&mut self, readings: &Vec<Reading>)
        requires
            old(self).is_well_formed(),
        ensures
            final(self).is_well_formed(),
            final(self)@ == old(self)@.cleaned_up(readings@),
    {
        let threshold_ms: u64 = if self.active_count > CLEANUP_THRESHOLD {
            self.inactive_duration_ms / 2
        } else {
            self.inactive_duration_ms
        };
        let mut keys: Vec<(u8, u128)> = Vec::new();
        let mut i: usize = 0;
        proof {
            assert(keys@.to_set() =~= inactive_keys(readings@.take(0), threshold_ms));
        }
        while i < readings.len()
            invariant
                i <= readings@.len(),
                keys@.to_set() == inactive_keys(readings@.take(i as int), threshold_ms),
            decreases readings@.len() - i,
        {
            proof {
                lemma_inactive_keys_of_more(readings@, i as int, threshold_ms);
            }
            if readings[i].has_been_inactive(threshold_ms) {
                proof {
                    lemma_set_of_more(keys@, readings@[i as int].key);
                }
                keys.push(readings[i].key);
            }
            i = i + 1;
        }
        assert(readings@.take(readings@.len() as int) =~= readings@);
        self.remove_each(&keys);
    }

    /// Makes room: of the limiters that the readings show as idle for long, removes the longest
    /// idle, as many as are over the target.
    pub fn evict(&mut self, readings: &Vec<Reading>)
        requires
            old(self).is_well_formed(),
        ensures
            final(self).is_well_formed(),
            old(self)@.evicts(readings@, final(self)@),
    {
        if self.active_count <= CLEANUP_TARGET {
            return ;
        }
        let to_remove: usize = self.active_count - CLEANUP_TARGET;
        let part: u64 = self.inactive_duration_ms / EMERGENCY_CLEANUP_INACTIVE_FACTOR;
        let threshold_ms: u64 = if part >= EMERGENCY_CLEANUP_MIN_INACTIVE_MS {
            part
        } else {
            EMERGENCY_CLEANUP_MIN_INACTIVE_MS
        };
        let order: Vec<usize> = rank(readings, threshold_ms);
        let mut keys: Vec<(u8, u128)> = Vec::new();
        while keys.len() < to_remove && keys.len() < order.len()
            invariant
                keys@.len() <= to_remove,
                keys@.len() <= order@.len(),
                is_ranking(readings@, threshold_ms, order@),
                forall|k: int|
                    0 <= k < keys@.len() ==> readings@[#[trigger] order@[k] as int].key == keys@[k],
            decreases order@.len() - keys@.len(),
        {
            let at: usize = order[keys.len()];
            keys.push(readings[at].key);
        }
        proof {
            let chosen = first_keys(readings@, order@, to_remove as int);
            assert forall|key: (u8, u128)| chosen.contains(key) implies keys@.contains(key) by {
                let k = choose|k: int|
                    0 <= k < to_remove && k < order@.len()
                        && readings@[#[trigger] order@[k] as int].key == key;
                assert(keys@[k] == key);
            }
            assert forall|key: (u8, u128)| keys@.contains(key) implies chosen.contains(key) by {
                let k = choose|k: int| 0 <= k < keys@.len() && keys@[k] == key;
                assert(readings@[order@[k] as int].key == key);
            }
            assert(keys@.to_set() =~= chosen);
            assert(is_ranking(readings@, self@.eviction_threshold_ms(), order@));
        }
        self.remove_each(&keys);
    }

    /// Makes room after a look at every limiter.
    fn emergency_cleanup(&mut self, trace: &mut Trace)
        requires
            old(self).is_well_formed(),
        ensures
            final(self).is_well_formed(),
            continues(*final(trace), *old(trace)),
            old(self)@.makes_room(new_steps(*final(trace), *old(trace)), final(self)@),
    {
        let readings: Vec<Reading> = self.inspect(trace);
        self.evict(&readings);
        assert(looked(
            readings@,
            old(self)@.limiters,
            old(self)@.clock,
            new_steps(*trace, *old(trace)),
        ));
    }

    /// [`IpRateLimiterManager::get_limiter`] with a record of its steps.
    pub fn get_limiter_traced(&mut self, ip: IpAddress, trace: &mut Trace) -> (answer: Option<
        Arc<RateLimiter>,
    >)
        requires
            old(self).is_well_formed(),
            old(self)@.config.is_valid(),
        ensures
            final(self).is_well_formed(),
            continues(*final(trace), *old(trace)),
            old(self)@.serves(
                ip.spec_key(),
                new_steps(*final(trace), *old(trace)),
                final(self)@,
                answer,
            ),
    {
        let key: (u8, u128) = ip.key();
        let known: Option<Arc<RateLimiter>> = self.known_limiter(ip);
        if known.is_some() {
            return known;
        }
        let crowded: bool = self.active_count >= CLEANUP_THRESHOLD;
        if crowded {
            self.emergency_cleanup(trace);
        }
        let ghost look = new_steps(*trace, *old(trace));
        let ghost room = self@;
        proof {
            if crowded {
                let readings = choose|readings: Seq<Reading>| #[trigger]
                    looked(readings, old(self)@.limiters, old(self)@.clock, look) && old(self)@.evicts(
                        readings,
                        room,
                    );
                lemma_eviction_keeps(old(self)@, readings, room);
                assert(old(self)@.makes_room(look, room));
            }
        }
        if self.active_count >= MAX_TRACKED_IPS {
            assert(look_of(look, None) == look);
            return None;
        }
        let moment: Moment = trace.read_clock(&self.clock);
        let made: Arc<RateLimiter> = Arc::new(
            RateLimiter::made_at(self.config.clone(), moment, key),
        );
        let limiter: Arc<RateLimiter> = find_or_put(&mut self.limiters, key, made);
        self.active_count = self.active_count + 1;
        self.total_created = self.total_created.wrapping_add(1);
        assert(self@ == room.with(key, limiter));
        proof {
            let steps = new_steps(*trace, *old(trace));
            assert(look_of(steps, Some(limiter)) =~= look);
            assert(steps.last() == moment.step());
            assert(room.takes_in(key, moment.step(), self@, Some(limiter)));
        }
        Some(limiter)
    }

    /// The limiter of an address, if it has one.
    pub fn known_limiter(&self, ip: IpAddress) -> (answer: Option<Arc<RateLimiter>>)
        ensures
            answer == (if self@.limiters.contains_key(ip.spec_key()) {
                Some(self@.limiters[ip.spec_key()])
            } else {
                None
            }),
    {
        find(&self.limiters, ip.key())
    }

    /// The limiter of an address. A new address gets a new limiter, unless the table is full and no
    /// room can be made.
    pub fn get_limiter(&mut self, ip: IpAddress) -> (answer: Option<Arc<RateLimiter>>)
        requires
            old(self).is_well_formed(),
            old(self)@.config.is_valid(),
        ensures
            final(self).is_well_formed(),
            exists|made: Trace| #[trigger]
                made.is_real() && old(self)@.serves(
                    ip.spec_key(),
                    made.steps(),
                    final(self)@,
                    answer,
                ),
    {
        let mut trace: Trace = Trace::new();
        let ghost start = trace;
        let answer: Option<Arc<RateLimiter>> = self.get_limiter_traced(ip, &mut trace);
        proof {
            use_type_invariant(&trace);
            assert(new_steps(trace, start) =~= trace.steps());
        }
        answer
    }

    /// [`IpRateLimiterManager::try_acquire`] with a record of its steps.
    pub fn try_acquire_traced(&mut self, ip: IpAddress, trace: &mut Trace) -> (granted: bool)
        requires
            old(self).is_well_formed(),
            old(self)@.config.is_valid(),
        ensures
            final(self).is_well_formed(),
            continues(*final(trace), *old(trace)),
            old(self)@.replies(
                ip.spec_key(),
                1,
                new_steps(*final(trace), *old(trace)),
                final(self)@,
                granted,
            ),
    {
        self.try_acquire_n_traced(ip, 1, trace)
    }

    /// Takes a token from the limiter of an address, if there is one.
    pub fn try_acquire(&mut self, ip: IpAddress) -> (granted: bool)
        requires
            old(self).is_well_formed(),
            old(self)@.config.is_valid(),
        ensures
            final(self).is_well_formed(),
            exists|made: Trace| #[trigger]
                made.is_real() && old(self)@.replies(
                    ip.spec_key(),
                    1,
                    made.steps(),
                    final(self)@,
                    granted,
                ),
    {
        let mut trace: Trace = Trace::new();
        let ghost start = trace;
        let granted: bool = self.try_acquire_traced(ip, &mut trace);
        proof {
            use_type_invariant(&trace);
            assert(new_steps(trace, start) =~= trace.steps());
        }
        granted
    }

    /// [`IpRateLimiterManager::try_acquire_n`] with a record of its steps.
    pub fn try_acquire_n_traced(&mut self, ip: IpAddress, n: u64, trace: &mut Trace) -> (granted:
        bool)
        requires
            old(self).is_well_formed(),
            old(self)@.config.is_valid(),
        ensures
            final(self).is_well_formed(),
            continues(*final(trace), *old(trace)),
            old(self)@.replies(
                ip.spec_key(),
                n,
                new_steps(*final(trace), *old(trace)),
                final(self)@,
                granted,
            ),
    {
        let answer: Option<Arc<RateLimiter>> = self.get_limiter_traced(ip, trace);
        let ghost served = *trace;
        let granted: bool = match &answer {
            Some(limiter) => limiter.try_acquire_n_traced(n, trace),
            None => false,
        };
        proof {
            let asking = new_steps(served, *old(trace));
            let own = new_steps(*trace, served);
            if answer is Some {
                lemma_only_on(*trace, served, counter_of(answer->0), clock_read_by(answer->0));
            } else {
                assert(own =~= Seq::<Step>::empty());
            }
            assert(asks(answer, n, own, granted));
            assert(new_steps(*trace, *old(trace)) =~= asking + own);
        }
        granted
    }

    /// Takes `n` tokens from the limiter of an address, if there are as many.
    pub fn try_acquire_n(&mut self, ip: IpAddress, n: u64) -> (granted: bool)
        requires
            old(self).is_well_formed(),
            old(self)@.config.is_valid(),
        ensures
            final(self).is_well_formed(),
            exists|made: Trace| #[trigger]
                made.is_real() && old(self)@.replies(
                    ip.spec_key(),
                    n,
                    made.steps(),
                    final(self)@,
                    granted,
                ),
    {
        let mut trace: Trace = Trace::new();
        let ghost start = trace;
        let granted: bool = self.try_acquire_n_traced(ip, n, &mut trace);
        proof {
            use_type_invariant(&trace);
            assert(new_steps(trace, start) =~= trace.steps());
        }
        granted
    }

    /// [`IpRateLimiterManager::cleanup`] with a record of its steps.
    pub fn cleanup_traced(&mut self, trace: &mut Trace)
        requires
            old(self).is_well_formed(),
        ensures
            final(self).is_well_formed(),
            continues(*final(trace), *old(trace)),
            old(self)@.sweeps(new_steps(*final(trace), *old(trace)), final(self)@),
            exists|kept: IpRateLimiterManager| #[trigger]
                kept.was_trimmed() && kept@ == final(self)@,
    {
        let readings: Vec<Reading> = self.inspect_each(trace);
        self.remove_inactive(&readings);
        let ghost kept = *self;
        self.shrink_to_fit();
        assert(kept.was_trimmed());
        assert(looked_each(
            readings@,
            old(self)@.limiters,
            new_steps(*trace, *old(trace)),
        ));
    }

    /// Removes the limiters of inactive addresses. Returns the record of its steps, which exists
    /// only for proofs.
    pub fn cleanup(&mut self) -> (made: Trace)
        requires
            old(self).is_well_formed(),
        ensures
            final(self).is_well_formed(),
            old(self)@.sweeps(made.steps(), final(self)@),
            made.is_real(),
            exists|kept: IpRateLimiterManager| #[trigger]
                kept.was_trimmed() && kept@ == final(self)@,
    {
        let mut trace: Trace = Trace::new();
        let ghost start = trace;
        self.cleanup_traced(&mut trace);
        proof {
            use_type_invariant(&trace);
        }
        assert(new_steps(trace, start) =~= trace.steps());
        trace
    }

    /// The table said that it has room for `capacity` limiters.
    pub closed spec fn has_room_for(self, capacity: usize) -> bool {
        call_ensures(room, (&self.limiters,), capacity)
    }

    /// The table was told to give memory back.
    pub closed spec fn gave_back(self) -> bool {
        exists|table: &mut DashMap<(u8, u128), Arc<RateLimiter>, RandomState>|
            *table == self.limiters && #[trigger] call_ensures(give_back, (table,), ())
    }

    /// The table was asked for its room, and told to give memory back if it has room for more than
    /// 1,024 limiters and for more than four times as many as it holds.
    pub open spec fn was_trimmed(self) -> bool {
        exists|capacity: usize| #[trigger]
            self.has_room_for(capacity) && (capacity > 1_024 && capacity > 4 * self@.limiters.len()
                ==> self.gave_back())
    }

    /// Gives memory back if the table is much larger than it has to be. No limiter is added,
    /// removed or changed.
    ///
    /// The room in the table is the allocator's, so it is no part of what a manager knows.
    pub fn shrink_to_fit(&mut self)
        requires
            old(self).is_well_formed(),
        ensures
            final(self).is_well_formed(),
            final(self)@ == old(self)@,
            old(self).was_trimmed(),
    {
        let capacity: usize = room(&self.limiters);
        assert(old(self).has_room_for(capacity));
        if is_oversized(capacity, self.active_count) {
            give_back(&mut self.limiters);
            assert(old(self).gave_back());
        }
    }

    /// Addresses that are tracked.
    pub fn active_ips(&self) -> (r: usize)
        requires
            self.is_well_formed(),
        ensures
            r == self@.limiters.len(),
    {
        self.active_count
    }

    /// Milliseconds between two cleanups.
    pub fn cleanup_interval_ms(&self) -> (r: u64)
        ensures
            r == self@.cleanup_interval_ms,
    {
        self.cleanup_interval_ms
    }

    /// Milliseconds after which an address counts as inactive.
    pub fn inactive_duration_ms(&self) -> (r: u64)
        ensures
            r == self@.inactive_duration_ms,
    {
        self.inactive_duration_ms
    }

    /// Figures that describe the manager.
    pub fn stats(&self) -> (r: ManagerStats)
        requires
            self.is_well_formed(),
        ensures
            r == self@.figures(),
    {
        ManagerStats {
            active_ips: self.active_ips(),
            total_created: self.total_created,
            total_cleaned: self.total_cleaned,
            capacity_used: Ratio {
                part: self.active_ips() as i128,
                whole: MAX_TRACKED_IPS as u128,
            },
            max_capacity: MAX_TRACKED_IPS,
        }
    }

    /// Removes all limiters.
    pub fn clear(&mut self)
        requires
            old(self).is_well_formed(),
        ensures
            final(self).is_well_formed(),
            final(self)@ == old(self)@.cleared(),
    {
        let removed: usize = count(&self.limiters);
        empty_out(&mut self.limiters);
        self.active_count = 0;
        self.total_cleaned = self.total_cleaned.wrapping_add(removed as u64);
    }
}

/// Figures that describe a manager.
#[derive(Debug)]
pub struct ManagerStats {
    /// Addresses that are tracked.
    pub active_ips: usize,
    /// Limiters made so far.
    pub total_created: u64,
    /// Limiters removed so far.
    pub total_cleaned: u64,
    /// Share of the capacity that is in use.
    pub capacity_used: Ratio,
    /// Most addresses that are tracked at once.
    pub max_capacity: usize,
}

impl Clone for ManagerStats {
    fn clone(&self) -> (r: Self)
        ensures
            r == *self,
    {
        ManagerStats {
            active_ips: self.active_ips,
            total_created: self.total_created,
            total_cleaned: self.total_cleaned,
            capacity_used: self.capacity_used,
            max_capacity: self.max_capacity,
        }
    }
}

impl ManagerStats {
    /// Whether more than eight tenths of the capacity are in use.
    pub fn is_near_capacity(&self) -> (r: bool)
        ensures
            r == self.capacity_used.exceeds(8, 10),
    {
        self.capacity_used.is_above(8, 10)
    }

    /// Limiters removed for each one made; none if none was made.
    pub fn cleanup_ratio(&self) -> (r: Ratio)
        ensures
            r == (if self.total_created == 0 {
                ratio(0, 1)
            } else {
                ratio(self.total_cleaned as int, self.total_created as int)
            }),
    {
        if self.total_created == 0 {
            Ratio { part: 0, whole: 1 }
        } else {
            Ratio { part: self.total_cleaned as i128, whole: self.total_created as u128 }
        }
    }

    /// Addresses that still fit.
    pub fn available_slots(&self) -> (r: usize)
        requires
            self.active_ips <= self.max_capacity,
        ensures
            r == self.max_capacity - self.active_ips,
    {
        self.max_capacity - self.active_ips
    }

    /// Limiters made and not removed; none if more were removed than made.
    pub fn net_active(&self) -> (r: u64)
        ensures
            r == (if self.total_created >= self.total_cleaned {
                self.total_created - self.total_cleaned
            } else {
                0
            }),
    {
        self.total_created.saturating_sub(self.total_cleaned)
    }
}

/// What wakes a thread that cleans up at intervals.
#[derive(Debug, Clone, Copy, PartialEq, Eq, Structural)]
pub enum Wakeup {
    /// It was asked to stop.
    StopRequested,
    /// Nobody is left to ask it to stop.
    OwnerGone,
    /// The interval has passed.
    IntervalPassed,
}

impl Wakeup {
    /// Whether the thread cleans up and goes on. Otherwise it ends.
    pub fn calls_for_cleanup(self) -> (r: bool)
        ensures
            r == (self == Wakeup::IntervalPassed),
    {
        matches!(self, Wakeup::IntervalPassed)
    }
}

/// Per cent of the capacity in use, if so many addresses are tracked that an operator should know.
pub fn usage_alert(active_ips: usize) -> (r: Option<usize>)
    requires
        active_ips <= MAX_TRACKED_IPS,
    ensures
        r == (if active_ips > CLEANUP_THRESHOLD {
            Some((active_ips * 100 / MAX_TRACKED_IPS as int) as usize)
        } else {
            None
        }),
{
    if active_ips > CLEANUP_THRESHOLD {
        Some(active_ips * 100 / MAX_TRACKED_IPS)
    } else {
        None
    }
}

/// The clock that a limiter reads.
pub open spec fn clock_read_by(limiter: Arc<RateLimiter>) -> TimeBase {
    limiter.clock()
}

/// What tells a limiter from others.
pub open spec fn counter_of(limiter: Arc<RateLimiter>) -> TokenCounter {
    limiter.counter()
}

} // verus!
