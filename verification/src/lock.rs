//! The lock around a shared manager, and the record of what was done under it.
//!
//! A manager that threads share lies behind a lock. Every thread that takes the lock finds the
//! state that the last one gave back. A [`LockRecord`] lists the turns that a thread has had: the
//! state that it found and the state that it gave back, and what it did with the flag that tells
//! that room is being made. Only this module adds to a record, and every turn in it is proved to be
//! one that was had: the lock in fact handed out and took back the manager with those states.

use crate::clock::TimeBase;
use crate::config::RateLimiterConfig;
use crate::manager::{IpRateLimiterManager, ManagerState};
use std::sync::atomic::{AtomicBool, Ordering};
use vstd::prelude::*;
use vstd::rwlock::{ReadHandle, RwLock, RwLockPredicate, WriteHandle};

verus! {

/// The settings of a manager, which never change.
pub struct ManagerSettings {
    /// Settings of every limiter.
    pub config: RateLimiterConfig,
    /// Milliseconds between two cleanups.
    pub cleanup_interval_ms: u64,
    /// Milliseconds after which an address counts as inactive.
    pub inactive_duration_ms: u64,
    /// The clock that the manager and all limiters read.
    pub clock: TimeBase,
}

impl ManagerSettings {
    /// The state keeps its bounds and has these settings.
    pub open spec fn fit(self, state: ManagerState) -> bool {
        &&& state.is_well_formed()
        &&& state.config == self.config
        &&& state.cleanup_interval_ms == self.cleanup_interval_ms
        &&& state.inactive_duration_ms == self.inactive_duration_ms
        &&& state.clock == self.clock
    }
}

impl RwLockPredicate<IpRateLimiterManager> for ManagerSettings {
    open spec fn inv(self, manager: IpRateLimiterManager) -> bool {
        manager.is_well_formed() && self.fit(manager@)
    }
}

/// What a thread did with a lock, or with the flag that tells that room is being made.
pub enum Turn {
    /// It asked whether room is being made.
    Asked { flag: AtomicBool, raised: bool },
    /// It told the others that room is being made.
    Raised { flag: AtomicBool },
    /// It told the others that room was made.
    Lowered { flag: AtomicBool },
    /// It held the lock: it found the state `before` and gave back the state `after`.
    Held { lock: ManagerLock, before: ManagerState, after: ManagerState },
}

/// The turn was in fact had: calls of the flag or of the lock that it describes gave what it states.
spec fn was_had(turn: Turn) -> bool {
    match turn {
        Turn::Asked { flag, raised } => call_ensures(
            AtomicBool::load,
            (&flag, Ordering::Acquire),
            raised,
        ),
        Turn::Raised { flag } => call_ensures(
            AtomicBool::store,
            (&flag, true, Ordering::Release),
            (),
        ),
        Turn::Lowered { flag } => call_ensures(lower, (&flag,), ()),
        Turn::Held { lock, before, after } => was_seen(lock, before) && after == before
            || was_changed(lock, before, after),
    }
}

/// A thread that took the lock to look found the state.
spec fn was_seen(lock: ManagerLock, state: ManagerState) -> bool {
    exists|manager: IpRateLimiterManager| manager@ == state && #[trigger] showed(lock, manager)
}

/// The lock showed the manager to a thread.
spec fn showed(lock: ManagerLock, manager: IpRateLimiterManager) -> bool {
    exists|handle: ReadHandle<'_, IpRateLimiterManager, ManagerSettings>|
        handle.view() == manager && #[trigger] call_ensures(
            RwLock::<IpRateLimiterManager, ManagerSettings>::acquire_read,
            (&lock.inner,),
            handle,
        )
}

/// A thread took the manager out of the lock with one state and gave it back with another.
spec fn was_changed(lock: ManagerLock, before: ManagerState, after: ManagerState) -> bool {
    exists|
        handle: WriteHandle<'_, IpRateLimiterManager, ManagerSettings>,
        taken: IpRateLimiterManager,
        given: IpRateLimiterManager,
    |
        {
            &&& taken@ == before
            &&& given@ == after
            &&& #[trigger] handed_out(lock, taken, handle)
            &&& #[trigger] taken_back(given, handle)
        }
}

/// The lock handed the manager out.
spec fn handed_out(
    lock: ManagerLock,
    taken: IpRateLimiterManager,
    handle: WriteHandle<'_, IpRateLimiterManager, ManagerSettings>,
) -> bool {
    call_ensures(
        RwLock::<IpRateLimiterManager, ManagerSettings>::acquire_write,
        (&lock.inner,),
        (taken, handle),
    )
}

/// The lock took the manager back.
spec fn taken_back(
    given: IpRateLimiterManager,
    handle: WriteHandle<'_, IpRateLimiterManager, ManagerSettings>,
) -> bool {
    call_ensures(
        WriteHandle::<IpRateLimiterManager, ManagerSettings>::release_write,
        (handle, given),
        (),
    )
}

/// The turns that a thread has had. It exists only for proofs.
pub struct LockRecord {
    turns: Ghost<Seq<Turn>>,
}

impl View for LockRecord {
    type V = Seq<Turn>;

    closed spec fn view(&self) -> Seq<Turn> {
        self.turns@
    }
}

impl LockRecord {
    /// Every turn was in fact had.
    #[verifier::type_invariant]
    pub closed spec fn is_real(self) -> bool {
        forall|i: int| 0 <= i < self.turns@.len() ==> was_had(#[trigger] self.turns@[i])
    }

    /// A record without turns.
    pub fn new() -> (r: LockRecord)
        ensures
            r@ == Seq::<Turn>::empty(),
    {
        LockRecord { turns: Ghost(Seq::empty()) }
    }

    /// Notes a turn that was just had.
    fn note(&mut self, turn: Ghost<Turn>)
        requires
            was_had(turn@),
        ensures
            final(self)@ == old(self)@.push(turn@),
    {
        proof {
            use_type_invariant(&*self);
        }
        self.turns = Ghost(self.turns@.push(turn@));
    }
}

/// `AtomicBool::store` of `false`, with release ordering. What the flag holds afterwards depends on
/// other threads too, so nothing is claimed of it.
#[verifier::external_body]
fn lower(flag: &AtomicBool)
    opens_invariants none
    no_unwind
{
    flag.store(false, Ordering::Release);
}

/// Holds the flag up that tells that room is being made. [`CleanupGuard::release`] lowers it and
/// says so; a guard that goes out of scope otherwise, as when a panic unwinds, lowers it too.
pub struct CleanupGuard<'a> {
    /// The flag.
    pub flag: &'a AtomicBool,
}

impl<'a> CleanupGuard<'a> {
    /// Tells other threads that room was made.
    pub fn release(self, record: &mut LockRecord)
        ensures
            final(record)@ == old(record)@.push(Turn::Lowered { flag: *self.flag }),
    {
        lower(self.flag);
        record.note(Ghost(Turn::Lowered { flag: *self.flag }));
    }
}

impl<'a> Drop for CleanupGuard<'a> {
    fn drop(&mut self)
        opens_invariants none
        no_unwind
    {
        lower(self.flag);
    }
}

/// The right and the duty to give a manager back.
pub struct Ticket<'a> {
    handle: WriteHandle<'a, IpRateLimiterManager, ManagerSettings>,
    lock: Ghost<ManagerLock>,
    taken: Ghost<IpRateLimiterManager>,
}

impl<'a> Ticket<'a> {
    /// The lock handed the manager out.
    #[verifier::type_invariant]
    spec fn was_drawn(self) -> bool {
        handed_out(self.lock@, self.taken@, self.handle)
    }

    /// The lock that the manager goes back to.
    pub closed spec fn lock(self) -> ManagerLock {
        self.lock@
    }

    /// The state that was found.
    pub closed spec fn found(self) -> ManagerState {
        self.taken@@
    }

    /// The settings that the lock keeps.
    pub closed spec fn settings(self) -> ManagerSettings {
        self.handle.rwlock().pred()
    }

    /// Gives the manager back.
    pub fn give_back(self, manager: IpRateLimiterManager, record: &mut LockRecord)
        requires
            manager.is_well_formed(),
            self.settings().fit(manager@),
        ensures
            final(record)@ == old(record)@.push(
                Turn::Held { lock: self.lock(), before: self.found(), after: manager@ },
            ),
    {
        proof {
            use_type_invariant(&self);
        }
        let ghost turn = Turn::Held { lock: self.lock(), before: self.found(), after: manager@ };
        let ghost lock = self.lock@;
        let ghost taken = self.taken@;
        let ghost given = manager;
        let handle = self.handle;
        let ghost used = handle;
        handle.release_write(manager);
        assert(handed_out(lock, taken, used));
        assert(taken_back(given, used));
        record.note(Ghost(turn));
    }
}

/// A lock around a manager.
pub struct ManagerLock {
    inner: RwLock<IpRateLimiterManager, ManagerSettings>,
    making_room: AtomicBool,
    first: Ghost<ManagerState>,
}

/// A lock was made around the manager.
spec fn put_in(
    inner: RwLock<IpRateLimiterManager, ManagerSettings>,
    manager: IpRateLimiterManager,
    settings: ManagerSettings,
) -> bool {
    call_ensures(
        RwLock::<IpRateLimiterManager, ManagerSettings>::new,
        (manager, Ghost(settings)),
        inner,
    )
}

/// A lock was made around a manager in the given state.
spec fn was_put_in(
    inner: RwLock<IpRateLimiterManager, ManagerSettings>,
    state: ManagerState,
) -> bool {
    exists|manager: IpRateLimiterManager, settings: ManagerSettings|
        manager@ == state && #[trigger] put_in(inner, manager, settings)
}

impl ManagerLock {
    /// The lock was made around a manager in the first state, with the flag down.
    #[verifier::type_invariant]
    spec fn was_made(self) -> bool {
        &&& call_ensures(AtomicBool::new, (false,), self.making_room)
        &&& was_put_in(self.inner, self.first@)
    }

    /// The state that the lock was made with: the first thread to take it finds this.
    pub closed spec fn initial(self) -> ManagerState {
        self.first@
    }

    /// The settings that the lock keeps.
    pub closed spec fn settings(self) -> ManagerSettings {
        self.inner.pred()
    }

    /// The flag that is up while room is being made.
    pub closed spec fn flag(self) -> AtomicBool {
        self.making_room
    }

    /// A lock around a manager.
    pub fn new(manager: IpRateLimiterManager) -> (r: ManagerLock)
        requires
            manager.is_well_formed(),
        ensures
            r.initial() == manager@,
            r.settings() == (ManagerSettings {
                config: manager@.config,
                cleanup_interval_ms: manager@.cleanup_interval_ms,
                inactive_duration_ms: manager@.inactive_duration_ms,
                clock: manager@.clock,
            }),
    {
        let ghost first = manager@;
        let ghost settings = ManagerSettings {
            config: manager@.config,
            cleanup_interval_ms: manager@.cleanup_interval_ms,
            inactive_duration_ms: manager@.inactive_duration_ms,
            clock: manager@.clock,
        };
        proof {
            manager.lemma_state_is_well_formed();
        }
        let ghost given = manager;
        let inner = RwLock::new(manager, Ghost(settings));
        assert(put_in(inner, given, settings));
        assert(was_put_in(inner, first));
        ManagerLock { inner, making_room: AtomicBool::new(false), first: Ghost(first) }
    }

    /// Takes the lock to look at the manager. Other threads may look too.
    pub fn look(&self, record: &mut LockRecord) -> (r: ReadHandle<
        '_,
        IpRateLimiterManager,
        ManagerSettings,
    >)
        ensures
            r.view().is_well_formed(),
            self.settings().fit(r.view()@),
            final(record)@ == old(record)@.push(
                Turn::Held { lock: *self, before: r.view()@, after: r.view()@ },
            ),
    {
        let handle = self.inner.acquire_read();
        assert(showed(*self, handle.view()));
        record.note(
            Ghost(Turn::Held { lock: *self, before: handle.view()@, after: handle.view()@ }),
        );
        handle
    }

    /// Takes the lock to change the manager.
    pub fn take(&self) -> (r: (IpRateLimiterManager, Ticket<'_>))
        ensures
            r.0.is_well_formed(),
            self.settings().fit(r.0@),
            r.1.found() == r.0@,
            r.1.settings() == self.settings(),
            r.1.lock() == *self,
    {
        let (manager, handle) = self.inner.acquire_write();
        assert(handed_out(*self, manager, handle));
        let ghost taken = manager;
        (manager, Ticket { handle, lock: Ghost(*self), taken: Ghost(taken) })
    }

    /// Whether some thread makes room.
    pub fn is_making_room(&self, record: &mut LockRecord) -> (raised: bool)
        ensures
            final(record)@ == old(record)@.push(Turn::Asked { flag: self.flag(), raised }),
    {
        let raised: bool = self.making_room.load(Ordering::Acquire);
        record.note(Ghost(Turn::Asked { flag: self.flag(), raised }));
        raised
    }

    /// Tells other threads that room is being made, until the guard is released.
    pub fn raise(&self, record: &mut LockRecord) -> (guard: CleanupGuard<'_>)
        ensures
            *guard.flag == self.flag(),
            final(record)@ == old(record)@.push(Turn::Raised { flag: self.flag() }),
    {
        self.making_room.store(true, Ordering::Release);
        record.note(Ghost(Turn::Raised { flag: self.flag() }));
        CleanupGuard { flag: &self.making_room }
    }
}

} // verus!
