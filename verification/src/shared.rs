//! A manager that threads share.
//!
//! Every method takes the lock around the manager, makes one step of the manager and gives the lock
//! back. The methods that end in `_traced` say which states they found and gave back, and which
//! steps they made; the others do the same.

use crate::address::IpAddress;
use crate::cells::{continues, lemma_only_on, new_steps, Step, Trace};
use crate::clock::TimeBase;
use crate::config::RateLimiterConfig;
use crate::eviction::{inactive_keys, Reading};
use crate::limiter::RateLimiter;
use crate::lock::{LockRecord, ManagerLock, ManagerSettings, Turn};
use crate::manager::{
    asks, clock_read_by, counter_of, lemma_eviction_keeps, lemma_removal_keeps, look_of, looked, looked_each,
    IpRateLimiterManager, ManagerState, ManagerStats, CLEANUP_THRESHOLD,
    DEFAULT_CLEANUP_INTERVAL_MS, DEFAULT_INACTIVE_DURATION_MS, DEFAULT_PARALLELISM,
    MAX_TRACKED_IPS,
};
use crate::table::no_limiters;
use std::sync::Arc;
use vstd::prelude::*;

verus! {

/// `later` goes on where `earlier` ended.
pub open spec fn goes_on(later: LockRecord, earlier: LockRecord) -> bool {
    &&& earlier@.len() <= later@.len()
    &&& forall|i: int| 0 <= i < earlier@.len() ==> #[trigger] later@[i] == earlier@[i]
}

/// The records are those of turns that were in fact had and of steps that were in fact made.
pub open spec fn are_real(turns: LockRecord, steps: Trace) -> bool {
    turns.is_real() && steps.is_real()
}

/// A table that was given back was trimmed before.
pub open spec fn trimmed(turns: Seq<Turn>) -> bool {
    turns.len() > 0 ==> (turns.last() matches Turn::Held { after, .. } ==> exists|
        kept: IpRateLimiterManager,
    | #[trigger]
        kept.was_trimmed() && kept@ == after)
}

/// The turns in `later` that follow `earlier`.
pub open spec fn new_turns(later: LockRecord, earlier: LockRecord) -> Seq<Turn> {
    later@.skip(earlier@.len() as int)
}

/// A manager that threads share.
pub struct ConcurrentIpManager {
    lock: ManagerLock,
    cleanup_interval_ms: u64,
    inactive_duration_ms: u64,
}

impl ConcurrentIpManager {
    /// The settings are those that the lock keeps.
    #[verifier::type_invariant]
    spec fn settings_agree(self) -> bool {
        &&& self.cleanup_interval_ms == self.lock.settings().cleanup_interval_ms
        &&& self.inactive_duration_ms == self.lock.settings().inactive_duration_ms
    }

    /// The settings of the manager.
    pub closed spec fn settings(self) -> ManagerSettings {
        self.lock.settings()
    }

    /// The lock around the manager.
    pub closed spec fn lock(self) -> ManagerLock {
        self.lock
    }

    /// All turns were had with the lock and the flag of this manager.
    pub open spec fn all_here(self, turns: Seq<Turn>) -> bool {
        forall|i: int|
            0 <= i < turns.len() ==> match #[trigger] turns[i] {
                Turn::Held { lock, .. } => lock == self.lock(),
                Turn::Asked { flag, .. } => flag == self.lock().flag(),
                Turn::Raised { flag } => flag == self.lock().flag(),
                Turn::Lowered { flag } => flag == self.lock().flag(),
            }
    }

    /// The state that the first thread finds.
    pub closed spec fn initial(self) -> ManagerState {
        self.lock.initial()
    }

    /// The manager was made without clients.
    pub open spec fn started_empty(self) -> bool {
        &&& self.settings().fit(self.initial())
        &&& self.initial().limiters == no_limiters()
        &&& self.initial().created == 0
        &&& self.initial().cleaned == 0
    }

    /// The turns of asking for the limiter under a key. A look finds the limiter; or it finds none,
    /// and then the lock is held for a step that serves the key. If the table is nearly full, the
    /// other threads are told that room is being made, and then that it was made.
    pub open spec fn serving(
        self,
        key: (u8, u128),
        turns: Seq<Turn>,
        steps: Seq<Step>,
        answer: Option<Arc<RateLimiter>>,
    ) -> bool {
        &&& self.all_here(turns)
        &&& turns.len() >= 1
        &&& turns.last() matches Turn::Held { before, after, .. } && {
            &&& self.settings().fit(before)
            &&& self.settings().fit(after)
            &&& before.serves(key, steps, after, answer)
            &&& if turns.len() == 1 {
                before.limiters.contains_key(key)
            } else if before.limiters.len() < CLEANUP_THRESHOLD {
                turns.len() == 2
            } else {
                turns.len() == 4 && turns[1] is Raised && turns[2] is Lowered
            }
        }
        &&& turns.len() > 1 ==> (turns[0] matches Turn::Held { before, after, .. }
            && self.settings().fit(before) && after == before && !before.limiters.contains_key(key))
    }

    /// The turns and steps of a request for `n` tokens: those of asking for the limiter, and then
    /// those of the request at that limiter and no other.
    pub open spec fn replying(
        self,
        key: (u8, u128),
        n: u64,
        turns: Seq<Turn>,
        steps: Seq<Step>,
        granted: bool,
    ) -> bool {
        exists|asking: Seq<Step>, own: Seq<Step>, answer: Option<Arc<RateLimiter>>|
            {
                &&& #[trigger] self.serving(key, turns, asking, answer)
                &&& #[trigger] asks(answer, n, own, granted)
                &&& steps == asking + own
            }
    }

    /// The turns and steps of a cleanup: none if room is being made already.
    pub open spec fn cleaning(self, turns: Seq<Turn>, steps: Seq<Step>) -> bool {
        &&& self.all_here(turns)
        &&& turns.len() >= 1
        &&& turns[0] matches Turn::Asked { raised, .. } && if raised {
            turns.len() == 1 && steps.len() == 0
        } else {
            &&& turns.len() == 2
            &&& turns[1] matches Turn::Held { before, after, .. } && self.settings().fit(before)
                && before.sweeps(steps, after)
        }
    }

    /// The turn of removing all limiters.
    pub open spec fn clearing(self, turns: Seq<Turn>) -> bool {
        &&& self.all_here(turns)
        &&& turns.len() == 1
        &&& turns[0] matches Turn::Held { before, after, .. } && self.settings().fit(before) && after
            == before.cleared()
    }

    /// The turn of looking at a state without changing it.
    pub open spec fn looking(self, turns: Seq<Turn>, state: ManagerState) -> bool {
        &&& turns == seq![Turn::Held { lock: self.lock(), before: state, after: state }]
        &&& self.settings().fit(state)
    }

    /// A manager without clients: cleanups every minute, clients inactive after five minutes.
    pub fn new(config: RateLimiterConfig) -> (r: Self)
        ensures
            r.settings() == (ManagerSettings {
                config,
                cleanup_interval_ms: DEFAULT_CLEANUP_INTERVAL_MS,
                inactive_duration_ms: DEFAULT_INACTIVE_DURATION_MS,
                clock: r.settings().clock,
            }),
            r.started_empty(),
            call_ensures(TimeBase::new, (), r.settings().clock),
    {
        ConcurrentIpManager::with_cleanup_settings(
            config,
            DEFAULT_CLEANUP_INTERVAL_MS,
            DEFAULT_INACTIVE_DURATION_MS,
        )
    }

    /// A manager without clients, with the given cleanup settings.
    pub fn with_cleanup_settings(
        config: RateLimiterConfig,
        cleanup_interval_ms: u64,
        inactive_duration_ms: u64,
    ) -> (r: Self)
        ensures
            r.settings() == (ManagerSettings {
                config,
                cleanup_interval_ms,
                inactive_duration_ms,
                clock: r.settings().clock,
            }),
            r.started_empty(),
            call_ensures(TimeBase::new, (), r.settings().clock),
    {
        ConcurrentIpManager::with_parallelism(
            config,
            cleanup_interval_ms,
            inactive_duration_ms,
            DEFAULT_PARALLELISM,
        )
    }

    /// A manager without clients, with the given cleanup settings, whose table is laid out for the
    /// given number of threads.
    pub fn with_parallelism(
        config: RateLimiterConfig,
        cleanup_interval_ms: u64,
        inactive_duration_ms: u64,
        parallelism: usize,
    ) -> (r: Self)
        ensures
            r.settings() == (ManagerSettings {
                config,
                cleanup_interval_ms,
                inactive_duration_ms,
                clock: r.settings().clock,
            }),
            r.started_empty(),
            call_ensures(TimeBase::new, (), r.settings().clock),
    {
        ConcurrentIpManager::with_clock(
            config,
            cleanup_interval_ms,
            inactive_duration_ms,
            parallelism,
            TimeBase::new(),
        )
    }

    /// A manager without clients that reads the given clock, with the given cleanup settings, whose
    /// table is laid out for the given number of threads.
    pub fn with_clock(
        config: RateLimiterConfig,
        cleanup_interval_ms: u64,
        inactive_duration_ms: u64,
        parallelism: usize,
        clock: TimeBase,
    ) -> (r: Self)
        ensures
            r.settings() == (ManagerSettings {
                config,
                cleanup_interval_ms,
                inactive_duration_ms,
                clock,
            }),
            r.started_empty(),
    {
        let manager: IpRateLimiterManager = IpRateLimiterManager::with_clock(
            config,
            cleanup_interval_ms,
            inactive_duration_ms,
            parallelism,
            clock,
        );
        proof {
            manager.lemma_state_is_well_formed();
        }
        ConcurrentIpManager {
            lock: ManagerLock::new(manager),
            cleanup_interval_ms,
            inactive_duration_ms,
        }
    }

    /// Milliseconds between two cleanups.
    pub fn cleanup_interval_ms(&self) -> (r: u64)
        ensures
            r == self.settings().cleanup_interval_ms,
    {
        proof {
            use_type_invariant(self);
        }
        self.cleanup_interval_ms
    }

    /// Milliseconds after which an address counts as inactive.
    pub fn inactive_duration_ms(&self) -> (r: u64)
        ensures
            r == self.settings().inactive_duration_ms,
    {
        proof {
            use_type_invariant(self);
        }
        self.inactive_duration_ms
    }

    /// [`ConcurrentIpManager::get_limiter`] with a record of its turns and steps.
    pub fn get_limiter_traced(
        &self,
        ip: IpAddress,
        record: &mut LockRecord,
        trace: &mut Trace,
    ) -> (answer: Option<Arc<RateLimiter>>)
        requires
            self.settings().config.is_valid(),
        ensures
            goes_on(*final(record), *old(record)),
            continues(*final(trace), *old(trace)),
            self.serving(
                ip.spec_key(),
                new_turns(*final(record), *old(record)),
                new_steps(*final(trace), *old(trace)),
                answer,
            ),
    {
        let reader = self.lock.look(record);
        let known: Option<Arc<RateLimiter>> = reader.borrow().known_limiter(ip);
        reader.release_read();
        if known.is_some() {
            return known;
        }
        let (mut manager, ticket) = self.lock.take();
        let answer: Option<Arc<RateLimiter>> = if manager.active_ips() >= CLEANUP_THRESHOLD {
            let guard = self.lock.raise(record);
            let served: Option<Arc<RateLimiter>> = manager.get_limiter_traced(ip, trace);
            guard.release(record);
            served
        } else {
            manager.get_limiter_traced(ip, trace)
        };
        proof {
            manager.lemma_state_is_well_formed();
            lemma_serving_keeps_settings(
                ticket.found(),
                ip.spec_key(),
                new_steps(*trace, *old(trace)),
                manager@,
                answer,
            );
        }
        ticket.give_back(manager, record);
        answer
    }

    /// The limiter of an address. A new address gets a new limiter, unless the table is full and no
    /// room can be made.
    pub fn get_limiter(&self, ip: IpAddress) -> (answer: Option<Arc<RateLimiter>>)
        requires
            self.settings().config.is_valid(),
        ensures
            exists|turns: LockRecord, steps: Trace| #[trigger]
                are_real(turns, steps) && self.serving(
                    ip.spec_key(),
                    turns@,
                    steps.steps(),
                    answer,
                ),
    {
        let mut record: LockRecord = LockRecord::new();
        let mut trace: Trace = Trace::new();
        let ghost start = (record, trace);
        let answer: Option<Arc<RateLimiter>> = self.get_limiter_traced(
            ip,
            &mut record,
            &mut trace,
        );
        proof {
            use_type_invariant(&record);
            use_type_invariant(&trace);
            assert(new_turns(record, start.0) =~= record@);
            assert(new_steps(trace, start.1) =~= trace.steps());
            assert(are_real(record, trace));
        }
        answer
    }

    /// [`ConcurrentIpManager::try_acquire_n`] with a record of its turns and steps.
    pub fn try_acquire_n_traced(
        &self,
        ip: IpAddress,
        n: u64,
        record: &mut LockRecord,
        trace: &mut Trace,
    ) -> (granted: bool)
        requires
            self.settings().config.is_valid(),
        ensures
            goes_on(*final(record), *old(record)),
            continues(*final(trace), *old(trace)),
            self.replying(
                ip.spec_key(),
                n,
                new_turns(*final(record), *old(record)),
                new_steps(*final(trace), *old(trace)),
                granted,
            ),
    {
        let answer: Option<Arc<RateLimiter>> = self.get_limiter_traced(ip, record, trace);
        let ghost served = *trace;
        let granted: bool = match &answer {
            Some(limiter) => limiter.try_acquire_n_traced(n, trace),
            None => false,
        };
        proof {
            let asking = new_steps(served, *old(trace));
            let own = new_steps(*trace, served);
            if answer is Some {
                lemma_only_on(*trace, served, counter_of(answer->0), clock_read_by(answer->0));
            } else {
                assert(own =~= Seq::<Step>::empty());
            }
            assert(asks(answer, n, own, granted));
            assert(new_steps(*trace, *old(trace)) =~= asking + own);
        }
        granted
    }

    /// Takes a token from the limiter of an address, if there is one.
    pub fn try_acquire(&self, ip: IpAddress) -> (granted: bool)
        requires
            self.settings().config.is_valid(),
        ensures
            exists|turns: LockRecord, steps: Trace| #[trigger]
                are_real(turns, steps) && self.replying(
                    ip.spec_key(),
                    1,
                    turns@,
                    steps.steps(),
                    granted,
                ),
    {
        self.try_acquire_n(ip, 1)
    }

    /// Takes `n` tokens from the limiter of an address, if there are as many.
    pub fn try_acquire_n(&self, ip: IpAddress, n: u64) -> (granted: bool)
        requires
            self.settings().config.is_valid(),
        ensures
            exists|turns: LockRecord, steps: Trace| #[trigger]
                are_real(turns, steps) && self.replying(
                    ip.spec_key(),
                    n,
                    turns@,
                    steps.steps(),
                    granted,
                ),
    {
        let mut record: LockRecord = LockRecord::new();
        let mut trace: Trace = Trace::new();
        let ghost start = (record, trace);
        let granted: bool = self.try_acquire_n_traced(ip, n, &mut record, &mut trace);
        proof {
            use_type_invariant(&record);
            use_type_invariant(&trace);
            assert(new_turns(record, start.0) =~= record@);
            assert(new_steps(trace, start.1) =~= trace.steps());
            assert(are_real(record, trace));
        }
        granted
    }

    /// [`ConcurrentIpManager::cleanup`] with a record of its turns and steps.
    pub fn cleanup_traced(&self, record: &mut LockRecord, trace: &mut Trace)
        ensures
            goes_on(*final(record), *old(record)),
            continues(*final(trace), *old(trace)),
            self.cleaning(
                new_turns(*final(record), *old(record)),
                new_steps(*final(trace), *old(trace)),
            ),
            trimmed(new_turns(*final(record), *old(record))),
    {
        if self.lock.is_making_room(record) {
            return ;
        }
        let (mut manager, ticket) = self.lock.take();
        manager.cleanup_traced(trace);
        proof {
            manager.lemma_state_is_well_formed();
        }
        ticket.give_back(manager, record);
    }

    /// Removes the limiters of inactive addresses, unless room is being made already. Returns the
    /// records of its turns and steps, which exist only for proofs.
    pub fn cleanup(&self) -> (made: (LockRecord, Trace))
        ensures
            self.cleaning(made.0@, made.1.steps()),
            are_real(made.0, made.1),
            trimmed(made.0@),
    {
        let mut record: LockRecord = LockRecord::new();
        let mut trace: Trace = Trace::new();
        let ghost start = (record, trace);
        self.cleanup_traced(&mut record, &mut trace);
        proof {
            use_type_invariant(&record);
            use_type_invariant(&trace);
        }
        assert(new_turns(record, start.0) =~= record@);
        assert(new_steps(trace, start.1) =~= trace.steps());
        (record, trace)
    }

    /// [`ConcurrentIpManager::shrink_to_fit`] with a record of its turn.
    pub fn shrink_to_fit_traced(&self, record: &mut LockRecord)
        ensures
            goes_on(*final(record), *old(record)),
            exists|state: ManagerState| #[trigger]
                self.looking(new_turns(*final(record), *old(record)), state),
            trimmed(new_turns(*final(record), *old(record))),
    {
        let (mut manager, ticket) = self.lock.take();
        let ghost kept = manager;
        manager.shrink_to_fit();
        assert(kept.was_trimmed());
        let ghost state = ticket.found();
        ticket.give_back(manager, record);
        assert(new_turns(*record, *old(record)) =~= seq![
            Turn::Held { lock: self.lock(), before: state, after: state },
        ]);
        assert(self.looking(new_turns(*record, *old(record)), state));
    }

    /// Gives memory back if the table is much larger than it has to be. Returns the record of its
    /// turn, which exists only for proofs.
    pub fn shrink_to_fit(&self) -> (made: LockRecord)
        ensures
            exists|state: ManagerState| #[trigger] self.looking(made@, state),
            made.is_real(),
            trimmed(made@),
    {
        let mut record: LockRecord = LockRecord::new();
        let ghost start = record;
        self.shrink_to_fit_traced(&mut record);
        proof {
            use_type_invariant(&record);
        }
        assert(new_turns(record, start) =~= record@);
        record
    }

    /// [`ConcurrentIpManager::active_ips`] with a record of its turn.
    pub fn active_ips_traced(&self, record: &mut LockRecord) -> (r: usize)
        ensures
            goes_on(*final(record), *old(record)),
            exists|state: ManagerState| #[trigger]
                self.looking(new_turns(*final(record), *old(record)), state) && r
                    == state.limiters.len(),
    {
        let reader = self.lock.look(record);
        let active: usize = reader.borrow().active_ips();
        let ghost state = reader.view()@;
        reader.release_read();
        assert(new_turns(*record, *old(record)) =~= seq![
            Turn::Held { lock: self.lock(), before: state, after: state },
        ]);
        assert(self.looking(new_turns(*record, *old(record)), state));
        active
    }

    /// Addresses that are tracked.
    pub fn active_ips(&self) -> (r: usize)
        ensures
            exists|turns: LockRecord, state: ManagerState|
                turns.is_real() && #[trigger] self.looking(turns@, state) && r == state.limiters.len(),
            r <= MAX_TRACKED_IPS,
    {
        let mut record: LockRecord = LockRecord::new();
        let ghost start = record;
        let r: usize = self.active_ips_traced(&mut record);
        proof {
            use_type_invariant(&record);
            assert(new_turns(record, start) =~= record@);
        }
        r
    }

    /// [`ConcurrentIpManager::stats`] with a record of its turn.
    pub fn stats_traced(&self, record: &mut LockRecord) -> (r: ManagerStats)
        ensures
            goes_on(*final(record), *old(record)),
            exists|state: ManagerState| #[trigger]
                self.looking(new_turns(*final(record), *old(record)), state) && r == state.figures(),
    {
        let reader = self.lock.look(record);
        let stats: ManagerStats = reader.borrow().stats();
        let ghost state = reader.view()@;
        reader.release_read();
        assert(new_turns(*record, *old(record)) =~= seq![
            Turn::Held { lock: self.lock(), before: state, after: state },
        ]);
        assert(self.looking(new_turns(*record, *old(record)), state));
        stats
    }

    /// Figures that describe the manager.
    pub fn stats(&self) -> (r: ManagerStats)
        ensures
            exists|turns: LockRecord, state: ManagerState|
                turns.is_real() && #[trigger] self.looking(turns@, state) && r == state.figures(),
            r.active_ips <= r.max_capacity,
            r.total_created == r.total_cleaned.wrapping_add(r.active_ips as u64),
    {
        let mut record: LockRecord = LockRecord::new();
        let ghost start = record;
        let r: ManagerStats = self.stats_traced(&mut record);
        proof {
            use_type_invariant(&record);
            assert(new_turns(record, start) =~= record@);
        }
        r
    }

    /// [`ConcurrentIpManager::clear`] with a record of its turn.
    pub fn clear_traced(&self, record: &mut LockRecord)
        ensures
            goes_on(*final(record), *old(record)),
            self.clearing(new_turns(*final(record), *old(record))),
    {
        let (mut manager, ticket) = self.lock.take();
        manager.clear();
        proof {
            manager.lemma_state_is_well_formed();
        }
        ticket.give_back(manager, record);
    }

    /// Removes all limiters. Returns the record of its turn, which exists only for proofs.
    pub fn clear(&self) -> (made: LockRecord)
        ensures
            self.clearing(made@),
            made.is_real(),
    {
        let mut record: LockRecord = LockRecord::new();
        let ghost start = record;
        self.clear_traced(&mut record);
        proof {
            use_type_invariant(&record);
        }
        assert(new_turns(record, start) =~= record@);
        record
    }
}

/// A request at a shared manager is a request at the manager behind the lock, from the state that
/// its last turn found: all that holds of those requests holds of it, that clients are isolated
/// above all.
pub proof fn law_shared_requests_are_requests(
    manager: ConcurrentIpManager,
    ip: IpAddress,
    n: u64,
    turns: Seq<Turn>,
    steps: Seq<Step>,
    granted: bool,
)
    requires
        manager.replying(ip.spec_key(), n, turns, steps, granted),
    ensures
        turns.len() >= 1,
        turns.last() matches Turn::Held { lock, before, after } && lock == manager.lock()
            && manager.settings().fit(before) && before.replies(ip.spec_key(), n, steps, after, granted),
{
}

/// Serving a client leaves the settings as they are.
proof fn lemma_serving_keeps_settings(
    state: ManagerState,
    key: (u8, u128),
    steps: Seq<Step>,
    after: ManagerState,
    answer: Option<Arc<RateLimiter>>,
)
    requires
        state.serves(key, steps, after, answer),
    ensures
        after.config == state.config,
        after.cleanup_interval_ms == state.cleanup_interval_ms,
        after.inactive_duration_ms == state.inactive_duration_ms,
        after.clock == state.clock,
{
}

/// A step that some method makes while it holds the lock.
pub open spec fn is_step(before: ManagerState, after: ManagerState) -> bool {
    ||| after == before
    ||| after == before.cleared()
    ||| exists|look: Seq<Step>| #[trigger] before.sweeps(look, after)
    ||| exists|key: (u8, u128), steps: Seq<Step>, answer: Option<Arc<RateLimiter>>| #[trigger]
        before.serves(key, steps, after, answer)
}

/// A step never gives a client that stays another limiter.
proof fn lemma_step_keeps_limiters(before: ManagerState, after: ManagerState, key: (u8, u128))
    requires
        before.is_well_formed(),
        is_step(before, after),
        before.limiters.contains_key(key),
        after.limiters.contains_key(key),
    ensures
        after.limiters[key] == before.limiters[key],
{
    if exists|look: Seq<Step>| #[trigger] before.sweeps(look, after) {
        let look = choose|look: Seq<Step>| #[trigger] before.sweeps(look, after);
        let readings = choose|readings: Seq<Reading>| #[trigger]
            looked_each(readings, before.limiters, look) && after == before.cleaned_up(readings);
        lemma_removal_keeps(before, inactive_keys(readings, before.cleanup_threshold_ms()));
    } else if exists|k: (u8, u128), look: Seq<Step>, answer: Option<Arc<RateLimiter>>| #[trigger]
        before.serves(k, look, after, answer) {
        let (k, look, answer) = choose|
            k: (u8, u128),
            look: Seq<Step>,
            answer: Option<Arc<RateLimiter>>,
        | #[trigger]
            before.serves(k, look, after, answer);
        if !before.limiters.contains_key(k) && before.limiters.len() >= CLEANUP_THRESHOLD {
            let room = choose|room: ManagerState| #[trigger]
                before.makes_room(look_of(look, answer), room) && if room.limiters.len()
                    >= MAX_TRACKED_IPS {
                    after == room && answer is None
                } else {
                    look.len() >= 1 && room.takes_in(k, look.last(), after, answer)
                };
            let readings = choose|readings: Seq<Reading>| #[trigger]
                looked(readings, before.limiters, before.clock, look_of(look, answer)) && before.evicts(readings, room);
            lemma_eviction_keeps(before, readings, room);
        }
    }
}

/// Every turn in which a method holds the lock is a step, and gives back a state that fits. A method
/// that raises the flag for making room lowers it again.
pub proof fn law_turns_are_steps(
    manager: ConcurrentIpManager,
    key: (u8, u128),
    turns: Seq<Turn>,
    steps: Seq<Step>,
    answer: Option<Arc<RateLimiter>>,
    state: ManagerState,
    i: int,
)
    requires
        manager.serving(key, turns, steps, answer) || manager.cleaning(turns, steps)
            || manager.clearing(turns) || manager.looking(turns, state),
        0 <= i < turns.len(),
    ensures
        turns[i] matches Turn::Held { before, after, .. } ==> manager.settings().fit(before)
            && manager.settings().fit(after) && is_step(before, after),
        turns[i] is Raised ==> i + 1 < turns.len() && turns[i + 1] is Lowered,
{
    if manager.cleaning(turns, steps) && turns.len() == 2 {
        let before = turns[1]->before;
        let after = turns[1]->after;
        let readings = choose|readings: Seq<Reading>| #[trigger]
            looked_each(readings, before.limiters, steps) && after == before.cleaned_up(readings);
        lemma_removal_keeps(before, inactive_keys(readings, before.cleanup_threshold_ms()));
    }
    if manager.clearing(turns) {
        assert(turns[0]->after.limiters.len() == 0);
    }
}

/// The states of a shared manager, one after the other: each thread that holds the lock makes one
/// step from the state that the thread before it gave back.
pub open spec fn is_life(settings: ManagerSettings, states: Seq<ManagerState>) -> bool {
    &&& forall|i: int| 0 <= i < states.len() ==> settings.fit(#[trigger] states[i])
    &&& forall|i: int|
        0 <= i && i + 1 < states.len() ==> is_step(#[trigger] states[i], states[i + 1])
}

/// All threads get the same limiter for a client, as long as the client is not removed in between:
/// whichever threads hold the lock, and whatever they do. The later thread changes nothing.
pub proof fn law_all_threads_get_one_limiter(
    settings: ManagerSettings,
    states: Seq<ManagerState>,
    ip: IpAddress,
    first: int,
    last: int,
    look: Seq<Step>,
    after: ManagerState,
    answer: Option<Arc<RateLimiter>>,
)
    requires
        is_life(settings, states),
        0 <= first <= last < states.len(),
        forall|i: int|
            first <= i <= last ==> (#[trigger] states[i]).limiters.contains_key(ip.spec_key()),
        states[last].serves(ip.spec_key(), look, after, answer),
    ensures
        answer == Some(states[first].limiters[ip.spec_key()]),
        after == states[last],
    decreases last - first,
{
    if first < last {
        let before = last - 1;
        assert(is_step(states[before], states[before + 1]));
        lemma_step_keeps_limiters(states[before], states[last], ip.spec_key());
        law_all_threads_get_one_limiter(
            settings,
            states,
            ip,
            first,
            before,
            Seq::empty(),
            states[before],
            Some(states[before].limiters[ip.spec_key()]),
        );
    }
}

/// A cleanup of a shared manager asks first whether room is being made. If so it does nothing;
/// otherwise it holds the lock of that manager once, for one whole cleanup of the state that it
/// finds.
pub proof fn law_shared_cleanup_is_a_cleanup(
    manager: ConcurrentIpManager,
    turns: Seq<Turn>,
    steps: Seq<Step>,
)
    requires
        manager.cleaning(turns, steps),
    ensures
        turns.len() >= 1,
        turns[0] matches Turn::Asked { flag, raised } && flag == manager.lock().flag() && {
            &&& raised ==> turns.len() == 1 && steps.len() == 0
            &&& !raised ==> turns.len() == 2 && (turns[1] matches Turn::Held { lock, before, after }
                && lock == manager.lock() && before.is_well_formed() && before.sweeps(steps, after))
        },
{
}

/// Clearing a shared manager holds its lock once, and gives back a state without clients.
pub proof fn law_shared_clear_leaves_nobody(manager: ConcurrentIpManager, turns: Seq<Turn>)
    requires
        manager.clearing(turns),
    ensures
        turns.len() == 1,
        turns[0] matches Turn::Held { lock, before, after } && lock == manager.lock()
            && before.is_well_formed() && after.limiters.len() == 0 && after.created
            == before.created && after.config == before.config && (before.cleaned
            + before.limiters.len() <= u64::MAX ==> after.cleaned == before.cleaned
            + before.limiters.len()),
{
}

/// Asking a shared manager for a limiter asks the state that its own lock holds: first a look, which
/// finds the limiter of a tracked client and changes nothing; for another client the lock is then
/// held for one change.
pub proof fn law_shared_answer_is_an_answer(
    manager: ConcurrentIpManager,
    ip: IpAddress,
    turns: Seq<Turn>,
    steps: Seq<Step>,
    answer: Option<Arc<RateLimiter>>,
)
    requires
        manager.serving(ip.spec_key(), turns, steps, answer),
    ensures
        turns.len() >= 1,
        turns[0] matches Turn::Held { lock, before, after } && lock == manager.lock() && after
            == before && {
            &&& before.limiters.contains_key(ip.spec_key()) ==> turns.len() == 1 && answer == Some(
                before.limiters[ip.spec_key()],
            )
            &&& !before.limiters.contains_key(ip.spec_key()) ==> turns.len() >= 2
        },
        turns.len() > 1 ==> (turns.last() matches Turn::Held { before, .. } && {
            &&& before.limiters.len() < 9_000 ==> turns.len() == 2
            &&& before.limiters.len() >= 9_000 ==> turns.len() == 4 && turns[1] == (Turn::Raised {
                flag: manager.lock().flag(),
            }) && turns[2] == (Turn::Lowered { flag: manager.lock().flag() })
        }),
        turns.last() matches Turn::Held { lock, before, after } && lock == manager.lock()
            && before.is_well_formed() && before.serves(ip.spec_key(), steps, after, answer),
{
}

/// A look at a shared manager holds its lock once and changes nothing.
pub proof fn law_shared_look_changes_nothing(
    manager: ConcurrentIpManager,
    turns: Seq<Turn>,
    state: ManagerState,
)
    requires
        manager.looking(turns, state),
    ensures
        turns.len() == 1,
        turns[0] matches Turn::Held { lock, before, after } && lock == manager.lock() && before
            == state && after == state,
        state.is_well_formed(),
{
}

/// A new shared manager has nobody, and the given settings: unless told otherwise it cleans up every
/// minute, and a client counts as inactive after five minutes.
pub proof fn law_new_shared_manager_is_empty(
    config: RateLimiterConfig,
    cleanup_interval_ms: u64,
    inactive_duration_ms: u64,
    plain: ConcurrentIpManager,
    manager: ConcurrentIpManager,
)
    requires
        call_ensures(ConcurrentIpManager::new, (config,), plain),
        call_ensures(
            ConcurrentIpManager::with_cleanup_settings,
            (config, cleanup_interval_ms, inactive_duration_ms),
            manager,
        ),
    ensures
        plain.settings().config == config,
        plain.settings().cleanup_interval_ms == 60_000,
        plain.settings().inactive_duration_ms == 300_000,
        plain.initial().limiters.len() == 0,
        plain.initial().created == 0,
        plain.initial().cleaned == 0,
        plain.settings().fit(plain.initial()),
        manager.settings().config == config,
        manager.settings().cleanup_interval_ms == cleanup_interval_ms,
        manager.settings().inactive_duration_ms == inactive_duration_ms,
        manager.initial().limiters.len() == 0,
        manager.initial().created == 0,
        manager.initial().cleaned == 0,
        manager.settings().fit(manager.initial()),
{
}

} // verus!
