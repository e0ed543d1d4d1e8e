//! The atomic cells of a limiter, and the record of what was done to them.
//!
//! Every access goes through [`Cells`]. It, or the [`TokenCounter`] in it, performs the access and
//! notes it in a [`Trace`], together with the limiter whose cell it was. Nothing outside this module
//! adds to a trace.
//!
//! A trace is real: every note in it is proved to describe a call of the atomic operation, on the
//! atomic of that cell, with those arguments and that answer. Outside this module a real trace can
//! only be had by making the accesses, one after the other.
//!
//! What the operations of the standard atomics do to the value is not stated by their specification;
//! [`crate::history`] says it of a memory. And it is not proved that an operation makes no accesses
//! beside those in the trace that it was given: it could note others in a trace of its own and drop
//! that. An operation hands on the trace that it was given, and makes a new one only where it was
//! given none.

use crate::clock::TimeBase;
use crate::history::{order_of, since, Access, Cell, Memory, Order};
use std::sync::atomic::{AtomicU32, AtomicU64, Ordering};
use vstd::prelude::*;

verus! {

/// A value followed by padding, so that two of them in a row never share a cache line.
#[derive(Debug)]
pub struct CacheAligned<T>(pub T, pub [u64; 15]);

impl<T> CacheAligned<T> {
    /// Pads a value.
    pub fn new(value: T) -> (r: Self)
        ensures
            r.0 == value,
    {
        CacheAligned(value, [0; 15])
    }
}

impl<T: Default> Default for CacheAligned<T> {
    fn default() -> (r: Self)
        ensures
            T::default.ensures((), r.0),
    {
        CacheAligned::new(T::default())
    }
}

impl<T: Clone> Clone for CacheAligned<T> {
    fn clone(&self) -> (r: Self)
        ensures
            cloned::<T>(self.0, r.0),
    {
        CacheAligned::new(self.0.clone())
    }
}

/// The value as a `u64`.
fn widen(value: u32) -> (r: u64)
    ensures
        r == value,
{
    value as u64
}

/// The value as a `u32`, capped at `u32::MAX`.
pub fn clamp_to_u32(value: u64) -> (r: u32)
    ensures
        r == (if value <= u32::MAX {
            value as u32
        } else {
            u32::MAX
        }),
{
    if value <= u32::MAX as u64 {
        value as u32
    } else {
        u32::MAX
    }
}

/// An access, and the limiter to whose cells it was made. A limiter is told by its token counter. A
/// reading of the clock for no limiter in particular is made to none.
pub struct Step {
    pub on: Option<TokenCounter>,
    pub access: Access,
}

/// The accesses of some steps.
pub open spec fn accesses_of(steps: Seq<Step>) -> Seq<Access> {
    Seq::new(steps.len(), |i: int| steps[i].access)
}

/// The steps that an operation has made so far. It exists only for proofs.
pub struct Trace {
    steps: Ghost<Seq<Step>>,
}

impl View for Trace {
    type V = Seq<Access>;

    open spec fn view(&self) -> Seq<Access> {
        accesses_of(self.steps())
    }
}

impl Trace {
    /// The steps.
    pub closed spec fn steps(self) -> Seq<Step> {
        self.steps@
    }

    /// Every step was in fact made: a call of the atomic operation, or of the clock, that it
    /// describes gave the answer that it states.
    #[verifier::type_invariant]
    pub closed spec fn is_real(self) -> bool {
        forall|i: int| 0 <= i < self.steps@.len() ==> performed(#[trigger] self.steps@[i])
    }

    /// A trace without steps.
    pub fn new() -> (r: Trace)
        ensures
            r.steps() == Seq::<Step>::empty(),
            r@ == Seq::<Access>::empty(),
    {
        let trace: Trace = Trace { steps: Ghost(Seq::empty()) };
        assert(trace@ =~= Seq::<Access>::empty());
        trace
    }

    /// Notes an access that was just made.
    fn note(&mut self, on: Ghost<Option<TokenCounter>>, access: Ghost<Access>)
        requires
            performed(Step { on: on@, access: access@ }),
        ensures
            final(self).steps() == old(self).steps().push(Step { on: on@, access: access@ }),
            final(self)@ == old(self)@.push(access@),
    {
        proof {
            use_type_invariant(&*self);
        }
        self.steps = Ghost(self.steps@.push(Step { on: on@, access: access@ }));
        assert(self@ =~= old(self)@.push(access@));
    }

    /// Reads a clock for no limiter in particular.
    pub fn read_clock(&mut self, clock: &TimeBase) -> (moment: Moment)
        ensures
            moment.clock() == *clock,
            final(self).steps() == old(self).steps().push(moment.step()),
    {
        let now: u64 = clock.now_ms();
        self.note(Ghost(None), Ghost(Access::Clock { clock: *clock, now }));
        Moment { clock: *clock, now_ms: now }
    }
}

/// A call of the operation that the step describes gave the answer that the step states.
spec fn performed(step: Step) -> bool {
    match step.access {
        Access::Clock { clock, now } => call_ensures(TimeBase::now_ms, (&clock,), now),
        access => step.on matches Some(counter) && (counter.did(access) || exists|cells: Cells|
            cells.counter() == counter && #[trigger] cells.did(access)),
    }
}

/// A call read `value` from a 64-bit atomic.
spec fn read_wide(atomic: AtomicU64, ordering: Ordering, value: u64) -> bool {
    call_ensures(AtomicU64::load, (&atomic, ordering), value)
}

/// A call wrote `value` to a 64-bit atomic.
spec fn wrote_wide(atomic: AtomicU64, ordering: Ordering, value: u64) -> bool {
    call_ensures(AtomicU64::store, (&atomic, value, ordering), ())
}

/// A call added one to a 64-bit atomic that held `previous`.
spec fn increased_wide(atomic: AtomicU64, ordering: Ordering, previous: u64) -> bool {
    call_ensures(AtomicU64::fetch_add, (&atomic, 1u64, ordering), previous)
}

/// A call of an exchange on a 64-bit atomic returned `r`.
spec fn exchanged_wide(
    atomic: AtomicU64,
    weak: bool,
    expected: u64,
    new: u64,
    success: Ordering,
    failure: Ordering,
    r: Result<u64, u64>,
) -> bool {
    if weak {
        call_ensures(
            AtomicU64::compare_exchange_weak,
            (&atomic, expected, new, success, failure),
            r,
        )
    } else {
        call_ensures(AtomicU64::compare_exchange, (&atomic, expected, new, success, failure), r)
    }
}

/// A call read `value` from a 32-bit atomic.
spec fn read_narrow(atomic: AtomicU32, ordering: Ordering, value: u32) -> bool {
    call_ensures(AtomicU32::load, (&atomic, ordering), value)
}

/// A call wrote `value` to a 32-bit atomic.
spec fn wrote_narrow(atomic: AtomicU32, ordering: Ordering, value: u32) -> bool {
    call_ensures(AtomicU32::store, (&atomic, value, ordering), ())
}

/// A call added one to a 32-bit atomic that held `previous`.
spec fn increased_narrow(atomic: AtomicU32, ordering: Ordering, previous: u32) -> bool {
    call_ensures(AtomicU32::fetch_add, (&atomic, 1u32, ordering), previous)
}

/// A call of an exchange on a 32-bit atomic returned `r`.
spec fn exchanged_narrow(
    atomic: AtomicU32,
    weak: bool,
    expected: u32,
    new: u32,
    success: Ordering,
    failure: Ordering,
    r: Result<u32, u32>,
) -> bool {
    if weak {
        call_ensures(
            AtomicU32::compare_exchange_weak,
            (&atomic, expected, new, success, failure),
            r,
        )
    } else {
        call_ensures(AtomicU32::compare_exchange, (&atomic, expected, new, success, failure), r)
    }
}

/// A call made a 32-bit atomic that held `value`.
spec fn made_narrow(atomic: AtomicU32, value: u32) -> bool {
    call_ensures(AtomicU32::new, (value,), atomic)
}

/// A 32-bit atomic was made with a value.
spec fn was_made_narrow(atomic: AtomicU32, value: u64) -> bool {
    exists|v: u32| v == value && #[trigger] made_narrow(atomic, v)
}

/// A 64-bit atomic was read in the given order.
spec fn did_read_wide(atomic: AtomicU64, order: Order, value: u64) -> bool {
    exists|o: Ordering| order_of(o) == order && #[trigger] read_wide(atomic, o, value)
}

/// A 64-bit atomic was overwritten in the given order.
spec fn did_write_wide(atomic: AtomicU64, order: Order, value: u64) -> bool {
    exists|o: Ordering| order_of(o) == order && #[trigger] wrote_wide(atomic, o, value)
}

/// One was added to a 64-bit atomic in the given order.
spec fn did_increase_wide(atomic: AtomicU64, order: Order, previous: u64) -> bool {
    exists|o: Ordering| order_of(o) == order && #[trigger] increased_wide(atomic, o, previous)
}

/// A 64-bit atomic was exchanged, or not, in the given orders.
spec fn did_exchange_wide(
    atomic: AtomicU64,
    weak: bool,
    success: Order,
    failure: Order,
    expected: u64,
    new: u64,
    outcome: Result<(), u64>,
) -> bool {
    exists|s: Ordering, f: Ordering, r: Result<u64, u64>|
        {
            &&& order_of(s) == success
            &&& order_of(f) == failure
            &&& r is Ok <==> outcome is Ok
            &&& r is Err ==> r->Err_0 == outcome->Err_0
            &&& #[trigger] exchanged_wide(atomic, weak, expected, new, s, f, r)
        }
}

/// A 32-bit atomic was read in the given order.
spec fn did_read_narrow(atomic: AtomicU32, order: Order, value: u64) -> bool {
    exists|o: Ordering, v: u32|
        order_of(o) == order && v == value && #[trigger] read_narrow(atomic, o, v)
}

/// A 32-bit atomic was overwritten in the given order.
spec fn did_write_narrow(atomic: AtomicU32, order: Order, value: u64) -> bool {
    exists|o: Ordering, v: u32|
        order_of(o) == order && v == value && #[trigger] wrote_narrow(atomic, o, v)
}

/// One was added to a 32-bit atomic in the given order.
spec fn did_increase_narrow(atomic: AtomicU32, order: Order, previous: u64) -> bool {
    exists|o: Ordering, v: u32|
        order_of(o) == order && v == previous && #[trigger] increased_narrow(atomic, o, v)
}

/// A 32-bit atomic was exchanged, or not, in the given orders.
spec fn did_exchange_narrow(
    atomic: AtomicU32,
    weak: bool,
    success: Order,
    failure: Order,
    expected: u64,
    new: u64,
    outcome: Result<(), u64>,
) -> bool {
    exists|s: Ordering, f: Ordering, e: u32, n: u32, r: Result<u32, u32>|
        {
            &&& order_of(s) == success
            &&& order_of(f) == failure
            &&& e == expected
            &&& n == new
            &&& r is Ok <==> outcome is Ok
            &&& r is Err ==> r->Err_0 == outcome->Err_0
            &&& #[trigger] exchanged_narrow(atomic, weak, e, n, s, f, r)
        }
}

/// A 64-bit atomic performed the access.
spec fn did_wide(atomic: AtomicU64, access: Access) -> bool {
    match access {
        Access::Clock { .. } => false,
        Access::Load { order, value, .. } => did_read_wide(atomic, order, value),
        Access::Store { order, value, .. } => did_write_wide(atomic, order, value),
        Access::Increment { order, previous, .. } => did_increase_wide(atomic, order, previous),
        Access::Exchange { weak, success, failure, expected, new, outcome, .. } => {
            did_exchange_wide(atomic, weak, success, failure, expected, new, outcome)
        },
    }
}

/// A 32-bit atomic performed the access.
spec fn did_narrow(atomic: AtomicU32, access: Access) -> bool {
    match access {
        Access::Clock { .. } => false,
        Access::Load { order, value, .. } => did_read_narrow(atomic, order, value),
        Access::Store { order, value, .. } => did_write_narrow(atomic, order, value),
        Access::Increment { order, previous, .. } => did_increase_narrow(atomic, order, previous),
        Access::Exchange { weak, success, failure, expected, new, outcome, .. } => {
            did_exchange_narrow(atomic, weak, success, failure, expected, new, outcome)
        },
    }
}

/// A moment that a clock showed. Reading a clock is the only way to get one.
#[derive(Debug, Clone, Copy)]
pub struct Moment {
    clock: TimeBase,
    now_ms: u64,
}

impl Moment {
    /// A reading of the clock showed that time.
    #[verifier::type_invariant]
    spec fn was_shown(self) -> bool {
        call_ensures(TimeBase::now_ms, (&self.clock,), self.now_ms)
    }

    /// The clock that was read.
    pub closed spec fn clock(self) -> TimeBase {
        self.clock
    }

    /// The time that it showed, in milliseconds since the epoch.
    pub closed spec fn spec_now_ms(self) -> u64 {
        self.now_ms
    }

    /// The step that read the clock.
    pub open spec fn step(self) -> Step {
        Step {
            on: None,
            access: Access::Clock { clock: self.clock(), now: self.spec_now_ms() },
        }
    }

    /// The time that the clock showed, in milliseconds since the epoch.
    pub fn now_ms(&self) -> (r: u64)
        ensures
            r == self.spec_now_ms(),
    {
        self.now_ms
    }

    /// The clock that was read.
    pub fn base(&self) -> (r: &TimeBase)
        ensures
            *r == self.clock(),
    {
        &self.clock
    }
}

/// `later` goes on where `earlier` ended.
pub open spec fn continues(later: Trace, earlier: Trace) -> bool {
    &&& earlier.steps().len() <= later.steps().len()
    &&& forall|i: int|
        0 <= i < earlier.steps().len() ==> #[trigger] later.steps()[i] == earlier.steps()[i]
}

/// The steps in `later` that follow `earlier`.
pub open spec fn new_steps(later: Trace, earlier: Trace) -> Seq<Step> {
    later.steps().skip(earlier.steps().len() as int)
}

/// The step was made to the limiter with that counter. If it reads a clock, that is the given one.
pub open spec fn is_step_of(step: Step, counter: TokenCounter, clock: TimeBase) -> bool {
    &&& step.on == Some(counter)
    &&& step.access matches Access::Clock { clock: read, .. } ==> read == clock
}

/// `later` goes on where `earlier` ended, and all that follows was made to one limiter and its
/// clock.
pub open spec fn only_on(
    later: Trace,
    earlier: Trace,
    counter: TokenCounter,
    clock: TimeBase,
) -> bool {
    &&& continues(later, earlier)
    &&& forall|i: int|
        earlier.steps().len() <= i < later.steps().len() ==> is_step_of(
            #[trigger] later.steps()[i],
            counter,
            clock,
        )
}

/// All steps were made to one limiter and its clock.
pub open spec fn all_on(steps: Seq<Step>, counter: TokenCounter, clock: TimeBase) -> bool {
    forall|i: int| 0 <= i < steps.len() ==> is_step_of(#[trigger] steps[i], counter, clock)
}

/// The steps that follow are the accesses that follow, all made to that limiter and its clock.
pub proof fn lemma_only_on(later: Trace, earlier: Trace, counter: TokenCounter, clock: TimeBase)
    requires
        only_on(later, earlier, counter, clock),
    ensures
        accesses_of(new_steps(later, earlier)) == since(later@, earlier@),
        all_on(new_steps(later, earlier), counter, clock),
        later.steps() == earlier.steps() + new_steps(later, earlier),
{
    assert(accesses_of(new_steps(later, earlier)) =~= since(later@, earlier@));
    assert(later.steps() =~= earlier.steps() + new_steps(later, earlier));
}

/// An atomic of the platform's width.
#[derive(Debug)]
enum Native {
    /// On 64-bit platforms.
    Wide(AtomicU64),
    /// Elsewhere.
    Narrow(AtomicU32),
}

/// The token count: as wide as the platform's native atomics. Where these have 32 bits, values are
/// capped at `u32::MAX`.
///
/// Another thread may change the count at any moment, so a method cannot say what it is. It says
/// which access it makes, and notes that access in the given trace.
#[derive(Debug)]
pub struct TokenCounter {
    native: Native,
    made: u64,
    label: (u8, u128),
}

impl TokenCounter {
    /// The counter has 64 bits.
    pub closed spec fn is_wide(self) -> bool {
        self.native is Wide
    }

    /// Largest count that the counter holds.
    pub open spec fn limit(self) -> u64 {
        if self.is_wide() {
            0xffff_ffff_ffff_ffff
        } else {
            0xffff_ffff
        }
    }

    /// The count that the counter keeps for a value: the value, or the largest count.
    pub open spec fn capped(self, value: u64) -> u64 {
        if value <= self.limit() {
            value
        } else {
            self.limit()
        }
    }

    /// The count that the counter was made with.
    pub closed spec fn initial(self) -> u64 {
        self.made
    }

    /// The atomic was made with the count.
    #[verifier::type_invariant]
    spec fn was_made(self) -> bool {
        match self.native {
            Native::Wide(atomic) => call_ensures(AtomicU64::new, (self.made,), atomic),
            Native::Narrow(atomic) => was_made_narrow(atomic, self.made),
        }
    }

    /// The atomic of the counter performed the access.
    spec fn did(self, access: Access) -> bool {
        access.is_on(Cell::Tokens) && match self.native {
            Native::Wide(atomic) => did_wide(atomic, access),
            Native::Narrow(atomic) => did_narrow(atomic, access),
        }
    }

    /// What tells the counter from others.
    pub closed spec fn label(self) -> (u8, u128) {
        self.label
    }

    /// A counter of this platform's width.
    pub fn new(value: u64) -> (r: Self)
        ensures
            r.is_wide() <==> usize::BITS == 64,
            r.initial() == r.capped(value),
            r.label() == (0u8, 0u128),
    {
        TokenCounter::labelled(value, (0, 0))
    }

    /// A counter of this platform's width with a label.
    pub fn labelled(value: u64, label: (u8, u128)) -> (r: Self)
        ensures
            r.is_wide() <==> usize::BITS == 64,
            r.initial() == r.capped(value),
            r.label() == label,
    {
        if usize::BITS == 64 {
            TokenCounter { native: Native::Wide(AtomicU64::new(value)), made: value, label }
        } else {
            let made: u32 = clamp_to_u32(value);
            let narrow: AtomicU32 = AtomicU32::new(made);
            assert(made_narrow(narrow, made));
            TokenCounter { native: Native::Narrow(narrow), made: widen(made), label }
        }
    }

    /// A counter of 32 bits.
    pub fn narrow(value: u64) -> (r: Self)
        ensures
            !r.is_wide(),
            r.initial() == r.capped(value),
            r.label() == (0u8, 0u128),
    {
        let made: u32 = clamp_to_u32(value);
        let narrow: AtomicU32 = AtomicU32::new(made);
        assert(made_narrow(narrow, made));
        TokenCounter { native: Native::Narrow(narrow), made: widen(made), label: (0, 0) }
    }

    /// Reads the count.
    pub fn load(&self, ordering: Ordering, trace: &mut Trace) -> (r: u64)
        requires
            ordering !is Release,
            ordering !is AcqRel,
        ensures
            r <= self.limit(),
            final(trace)@ == old(trace)@.push(
                Access::Load { cell: Cell::Tokens, order: order_of(ordering), value: r },
            ),
            final(trace).steps() == old(trace).steps().push(
                Step { on: Some(*self), access: Access::Load { cell: Cell::Tokens, order: order_of(ordering), value: r } },
            ),
    {
        let value: u64 = match &self.native {
            Native::Wide(counter) => {
                let value: u64 = counter.load(ordering);
                assert(read_wide(*counter, ordering, value));
                value
            },
            Native::Narrow(counter) => {
                let value: u32 = counter.load(ordering);
                assert(read_narrow(*counter, ordering, value));
                widen(value)
            },
        };
        let ghost access = Access::Load { cell: Cell::Tokens, order: order_of(ordering), value };
        assert(self.did(access));
        trace.note(Ghost(Some(*self)), Ghost(access));
        value
    }

    /// Overwrites the count.
    pub fn store(&self, value: u64, ordering: Ordering, trace: &mut Trace)
        requires
            ordering !is Acquire,
            ordering !is AcqRel,
        ensures
            final(trace)@ == old(trace)@.push(
                Access::Store {
                    cell: Cell::Tokens,
                    order: order_of(ordering),
                    value: self.capped(value),
                },
            ),
            final(trace).steps() == old(trace).steps().push(
                Step { on: Some(*self), access: Access::Store {
                    cell: Cell::Tokens,
                    order: order_of(ordering),
                    value: self.capped(value),
                } },
            ),
    {
        match &self.native {
            Native::Wide(counter) => {
                counter.store(value, ordering);
                assert(wrote_wide(*counter, ordering, value));
            },
            Native::Narrow(counter) => {
                let low: u32 = clamp_to_u32(value);
                counter.store(low, ordering);
                assert(wrote_narrow(*counter, ordering, low));
            },
        }
        let ghost access = Access::Store {
            cell: Cell::Tokens,
            order: order_of(ordering),
            value: self.capped(value),
        };
        assert(self.did(access));
        trace.note(Ghost(Some(*self)), Ghost(access));
    }

    /// Changes the count from `current` to `new`, or returns the count that it has.
    pub fn compare_exchange(
        &self,
        current: u64,
        new: u64,
        success: Ordering,
        failure: Ordering,
        trace: &mut Trace,
    ) -> (r: Result<u64, u64>)
        requires
            current <= self.limit(),
            failure !is Release,
            failure !is AcqRel,
        ensures
            r matches Ok(previous) ==> previous == current,
            r matches Err(actual) ==> actual <= self.limit(),
            final(trace)@ == old(trace)@.push(
                self.exchange_made(false, current, new, success, failure, r),
            ),
            final(trace).steps() == old(trace).steps().push(
                Step { on: Some(*self), access: self.exchange_made(false, current, new, success, failure, r) },
            ),
    {
        let r: Result<u64, u64> = match &self.native {
            Native::Wide(counter) => {
                let made: Result<u64, u64> = counter.compare_exchange(current, new, success, failure);
                assert(exchanged_wide(*counter, false, current, new, success, failure, made));
                match made {
                    Ok(_) => Ok(current),
                    Err(actual) => Err(actual),
                }
            },
            Native::Narrow(counter) => {
                let low: u32 = clamp_to_u32(current);
                let high: u32 = clamp_to_u32(new);
                let made: Result<u32, u32> = counter.compare_exchange(low, high, success, failure);
                assert(exchanged_narrow(*counter, false, low, high, success, failure, made));
                match made {
                    Ok(_) => Ok(current),
                    Err(actual) => Err(widen(actual)),
                }
            },
        };
        let ghost access = self.exchange_made(false, current, new, success, failure, r);
        assert(self.did(access));
        trace.note(Ghost(Some(*self)), Ghost(access));
        r
    }

    /// [`TokenCounter::compare_exchange`] that may fail although the count is `current`.
    pub fn compare_exchange_weak(
        &self,
        current: u64,
        new: u64,
        success: Ordering,
        failure: Ordering,
        trace: &mut Trace,
    ) -> (r: Result<u64, u64>)
        requires
            current <= self.limit(),
            failure !is Release,
            failure !is AcqRel,
        ensures
            r matches Ok(previous) ==> previous == current,
            r matches Err(actual) ==> actual <= self.limit(),
            final(trace)@ == old(trace)@.push(
                self.exchange_made(true, current, new, success, failure, r),
            ),
            final(trace).steps() == old(trace).steps().push(
                Step { on: Some(*self), access: self.exchange_made(true, current, new, success, failure, r) },
            ),
    {
        let r: Result<u64, u64> = match &self.native {
            Native::Wide(counter) => {
                let made: Result<u64, u64> = counter.compare_exchange_weak(current, new, success, failure);
                assert(exchanged_wide(*counter, true, current, new, success, failure, made));
                match made {
                    Ok(_) => Ok(current),
                    Err(actual) => Err(actual),
                }
            },
            Native::Narrow(counter) => {
                let low: u32 = clamp_to_u32(current);
                let high: u32 = clamp_to_u32(new);
                let made: Result<u32, u32> = counter.compare_exchange_weak(low, high, success, failure);
                assert(exchanged_narrow(*counter, true, low, high, success, failure, made));
                match made {
                    Ok(_) => Ok(current),
                    Err(actual) => Err(widen(actual)),
                }
            },
        };
        let ghost access = self.exchange_made(true, current, new, success, failure, r);
        assert(self.did(access));
        trace.note(Ghost(Some(*self)), Ghost(access));
        r
    }

    /// The access of an exchange with the given arguments and result.
    pub open spec fn exchange_made(
        self,
        weak: bool,
        current: u64,
        new: u64,
        success: Ordering,
        failure: Ordering,
        r: Result<u64, u64>,
    ) -> Access {
        Access::Exchange {
            cell: Cell::Tokens,
            weak,
            success: order_of(success),
            failure: order_of(failure),
            expected: current,
            new: self.capped(new),
            outcome: match r {
                Ok(_) => Ok(()),
                Err(actual) => Err(actual),
            },
        }
    }
}

/// The cells of one limiter.
#[derive(Debug)]
pub struct Cells {
    tokens: CacheAligned<TokenCounter>,
    last_refill_ms: CacheAligned<AtomicU64>,
    last_access_ms: CacheAligned<AtomicU64>,
    consecutive_rejections: AtomicU32,
    max_wait_time_ns: AtomicU64,
    total_acquired: AtomicU64,
    total_rejected: AtomicU64,
    total_refills: AtomicU64,
    made_ms: u64,
}

impl Cells {
    /// The atomics were made with the values that the cells held at first.
    #[verifier::type_invariant]
    spec fn were_made(self) -> bool {
        &&& call_ensures(AtomicU64::new, (self.made_ms,), self.last_refill_ms.0)
        &&& call_ensures(AtomicU64::new, (self.made_ms,), self.last_access_ms.0)
        &&& call_ensures(AtomicU32::new, (0u32,), self.consecutive_rejections)
        &&& call_ensures(AtomicU64::new, (0u64,), self.max_wait_time_ns)
        &&& call_ensures(AtomicU64::new, (0u64,), self.total_acquired)
        &&& call_ensures(AtomicU64::new, (0u64,), self.total_rejected)
        &&& call_ensures(AtomicU64::new, (0u64,), self.total_refills)
    }

    /// The atomic of one of the cells performed the access.
    spec fn did(self, access: Access) -> bool {
        ||| self.tokens.0.did(access)
        ||| access.is_on(Cell::LastRefill) && did_wide(self.last_refill_ms.0, access)
        ||| access.is_on(Cell::LastAccess) && did_wide(self.last_access_ms.0, access)
        ||| access.is_on(Cell::ConsecutiveRejections) && did_narrow(
            self.consecutive_rejections,
            access,
        )
        ||| access.is_on(Cell::MaxWait) && did_wide(self.max_wait_time_ns, access)
        ||| access.is_on(Cell::TotalAcquired) && did_wide(self.total_acquired, access)
        ||| access.is_on(Cell::TotalRejected) && did_wide(self.total_rejected, access)
        ||| access.is_on(Cell::TotalRefills) && did_wide(self.total_refills, access)
    }

    /// What the cells held when they were made.
    pub closed spec fn initial(self) -> Memory {
        Memory {
            tokens: self.tokens.0.initial(),
            last_refill: self.made_ms,
            last_access: self.made_ms,
            consecutive_rejections: 0,
            max_wait: 0,
            total_acquired: 0,
            total_rejected: 0,
            total_refills: 0,
        }
    }

    /// The token counter, by which the cells are told from those of other limiters.
    pub closed spec fn counter(self) -> TokenCounter {
        self.tokens.0
    }

    /// Largest value that a cell holds on this platform.
    pub closed spec fn capacity_of(self, cell: Cell) -> u64 {
        if cell is Tokens {
            self.tokens.0.limit()
        } else {
            cell.limit()
        }
    }

    /// Cells of a limiter made at `now_ms` with a full bucket: no request was seen yet.
    pub fn new(max_tokens: u64, now_ms: u64, label: (u8, u128)) -> (r: Cells)
        requires
            usize::BITS == 64 || max_tokens <= u32::MAX,
        ensures
            r.counter().label() == label,
            r.initial() == (Memory {
                tokens: max_tokens,
                last_refill: now_ms,
                last_access: now_ms,
                consecutive_rejections: 0,
                max_wait: 0,
                total_acquired: 0,
                total_rejected: 0,
                total_refills: 0,
            }),
            forall|cell: Cell| cell !is Tokens ==> #[trigger] r.capacity_of(cell) == cell.limit(),
            r.capacity_of(Cell::Tokens) == (if usize::BITS == 64 {
                0xffff_ffff_ffff_ffff
            } else {
                0xffff_ffffu64
            }),
    {
        Cells {
            tokens: CacheAligned::new(TokenCounter::labelled(max_tokens, label)),
            last_refill_ms: CacheAligned::new(AtomicU64::new(now_ms)),
            last_access_ms: CacheAligned::new(AtomicU64::new(now_ms)),
            consecutive_rejections: AtomicU32::new(0),
            max_wait_time_ns: AtomicU64::new(0),
            total_acquired: AtomicU64::new(0),
            total_rejected: AtomicU64::new(0),
            total_refills: AtomicU64::new(0),
            made_ms: now_ms,
        }
    }

    /// The atomic of a cell that has 64 bits on every platform.
    spec fn spec_wide(self, cell: Cell) -> AtomicU64 {
        match cell {
            Cell::LastRefill => self.last_refill_ms.0,
            Cell::LastAccess => self.last_access_ms.0,
            Cell::MaxWait => self.max_wait_time_ns,
            Cell::TotalAcquired => self.total_acquired,
            Cell::TotalRejected => self.total_rejected,
            _ => self.total_refills,
        }
    }

    /// The atomic of a cell that has 64 bits on every platform.
    fn wide(&self, cell: Cell) -> (r: &AtomicU64)
        requires
            cell !is Tokens,
            cell !is ConsecutiveRejections,
        ensures
            *r == self.spec_wide(cell),
    {
        match cell {
            Cell::LastRefill => &self.last_refill_ms.0,
            Cell::LastAccess => &self.last_access_ms.0,
            Cell::MaxWait => &self.max_wait_time_ns,
            Cell::TotalAcquired => &self.total_acquired,
            Cell::TotalRejected => &self.total_rejected,
            _ => &self.total_refills,
        }
    }

    /// Reads the clock.
    pub fn read_clock(&self, clock: &TimeBase, trace: &mut Trace) -> (now: u64)
        ensures
            final(trace)@ == old(trace)@.push(Access::Clock { clock: *clock, now }),
            final(trace).steps() == old(trace).steps().push(
                Step { on: Some(self.counter()), access: Access::Clock { clock: *clock, now } },
            ),
    {
        let now: u64 = clock.now_ms();
        trace.note(Ghost(Some(self.counter())), Ghost(Access::Clock { clock: *clock, now }));
        now
    }

    /// Reads a cell.
    pub fn read(&self, cell: Cell, order: Order, trace: &mut Trace) -> (value: u64)
        requires
            order !is Release,
            order !is AcqRel,
        ensures
            final(trace)@ == old(trace)@.push(
                Access::Load { cell, order, value },
            ),
            final(trace).steps() == old(trace).steps().push(
                Step { on: Some(self.counter()), access: Access::Load { cell, order, value } },
            ),
            value <= self.capacity_of(cell),
    {
        if cell == Cell::Tokens {
            return self.tokens.0.load(order.standard(), trace);
        }
        let ordering: Ordering = order.standard();
        let value: u64 = match cell {
            Cell::ConsecutiveRejections => {
                let value: u32 = self.consecutive_rejections.load(ordering);
                assert(read_narrow(self.consecutive_rejections, ordering, value));
                widen(value)
            },
            _ => {
                let atomic: &AtomicU64 = self.wide(cell);
                let value: u64 = atomic.load(ordering);
                assert(read_wide(*atomic, ordering, value));
                value
            },
        };
        let ghost access = Access::Load { cell, order, value };
        assert(self.did(access));
        trace.note(Ghost(Some(self.counter())), Ghost(access));
        value
    }

    /// Overwrites a cell.
    pub fn write(&self, cell: Cell, value: u64, order: Order, trace: &mut Trace)
        requires
            order !is Acquire,
            order !is AcqRel,
            value <= self.capacity_of(cell),
        ensures
            final(trace)@ == old(trace)@.push(
                Access::Store { cell, order, value },
            ),
            final(trace).steps() == old(trace).steps().push(
                Step { on: Some(self.counter()), access: Access::Store { cell, order, value } },
            ),
    {
        if cell == Cell::Tokens {
            self.tokens.0.store(value, order.standard(), trace);
            return ;
        }
        let ordering: Ordering = order.standard();
        match cell {
            Cell::ConsecutiveRejections => {
                let low: u32 = clamp_to_u32(value);
                self.consecutive_rejections.store(low, ordering);
                assert(wrote_narrow(self.consecutive_rejections, ordering, low));
            },
            _ => {
                let atomic: &AtomicU64 = self.wide(cell);
                atomic.store(value, ordering);
                assert(wrote_wide(*atomic, ordering, value));
            },
        }
        let ghost access = Access::Store { cell, order, value };
        assert(self.did(access));
        trace.note(Ghost(Some(self.counter())), Ghost(access));
    }

    /// Adds one to a counter, in relaxed order.
    pub fn increment(&self, cell: Cell, trace: &mut Trace) -> (previous: u64)
        requires
            cell is ConsecutiveRejections || cell is TotalAcquired || cell is TotalRejected
                || cell is TotalRefills,
        ensures
            final(trace)@ == old(trace)@.push(
                Access::Increment { cell, order: Order::Relaxed, previous },
            ),
            final(trace).steps() == old(trace).steps().push(
                Step { on: Some(self.counter()), access: Access::Increment { cell, order: Order::Relaxed, previous } },
            ),
    {
        let previous: u64 = match cell {
            Cell::ConsecutiveRejections => {
                let previous: u32 = self.consecutive_rejections.fetch_add(1, Ordering::Relaxed);
                assert(increased_narrow(self.consecutive_rejections, Ordering::Relaxed, previous));
                widen(previous)
            },
            _ => {
                let atomic: &AtomicU64 = self.wide(cell);
                let previous: u64 = atomic.fetch_add(1, Ordering::Relaxed);
                assert(increased_wide(*atomic, Ordering::Relaxed, previous));
                previous
            },
        };
        let ghost access = Access::Increment { cell, order: Order::Relaxed, previous };
        assert(self.did(access));
        trace.note(Ghost(Some(self.counter())), Ghost(access));
        previous
    }

    /// Changes a cell from `expected` to `new`, or returns the value that it holds. A failure is
    /// read in relaxed order.
    pub fn exchange(
        &self,
        cell: Cell,
        weak: bool,
        expected: u64,
        new: u64,
        success: Order,
        trace: &mut Trace,
    ) -> (outcome: Result<(), u64>)
        requires
            cell is Tokens || (cell is LastRefill && !weak),
            expected <= self.capacity_of(cell),
            new <= self.capacity_of(cell),
        ensures
            final(trace)@ == old(trace)@.push(
                Access::Exchange {
                    cell,
                    weak,
                    success,
                    failure: Order::Relaxed,
                    expected,
                    new,
                    outcome,
                },
            ),
            final(trace).steps() == old(trace).steps().push(
                Step { on: Some(self.counter()), access: Access::Exchange {
                    cell,
                    weak,
                    success,
                    failure: Order::Relaxed,
                    expected,
                    new,
                    outcome,
                } },
            ),
            outcome matches Err(actual) ==> actual <= self.capacity_of(cell),
    {
        if cell == Cell::Tokens {
            let answer: Result<u64, u64> = if weak {
                self.tokens.0.compare_exchange_weak(
                    expected,
                    new,
                    success.standard(),
                    Ordering::Relaxed,
                    trace,
                )
            } else {
                self.tokens.0.compare_exchange(
                    expected,
                    new,
                    success.standard(),
                    Ordering::Relaxed,
                    trace,
                )
            };
            return match answer {
                Ok(_) => Ok(()),
                Err(actual) => Err(actual),
            };
        }
        let ordering: Ordering = success.standard();
        let made: Result<u64, u64> = self.last_refill_ms.0.compare_exchange(
            expected,
            new,
            ordering,
            Ordering::Relaxed,
        );
        assert(exchanged_wide(
            self.last_refill_ms.0,
            false,
            expected,
            new,
            ordering,
            Ordering::Relaxed,
            made,
        ));
        let outcome: Result<(), u64> = match made {
            Ok(_) => Ok(()),
            Err(actual) => Err(actual),
        };
        let ghost access = Access::Exchange {
            cell,
            weak,
            success,
            failure: Order::Relaxed,
            expected,
            new,
            outcome,
        };
        assert(self.did(access));
        trace.note(Ghost(Some(self.counter())), Ghost(access));
        outcome
    }
}

/// A counter starts with the value that it is made with, or with the largest that it can hold; on a
/// platform of 64 bits it can hold every count.
pub proof fn law_counters_hold_what_they_can(
    value: u64,
    counter: TokenCounter,
    narrow: TokenCounter,
    low: u32,
)
    requires
        call_ensures(TokenCounter::new, (value,), counter),
        call_ensures(TokenCounter::narrow, (value,), narrow),
        call_ensures(clamp_to_u32, (value,), low),
    ensures
        usize::BITS == 64 || value <= 0xffff_ffff ==> counter.initial() == value,
        value <= 0xffff_ffff ==> narrow.initial() == value && low == value,
        value > 0xffff_ffff ==> narrow.initial() == 0xffff_ffff && low == 0xffff_ffff,
{
}

} // verus!
