//! What a limiter does to its memory.
//!
//! A limiter keeps its state in atomic cells that every thread may change at any moment. Each
//! operation is therefore described by the accesses that it makes: which cells it reads and
//! writes, with which values, and how it goes on from each answer. This module defines accesses,
//! the memory that they act on, and what a sequence of accesses does to it.

use crate::clock::TimeBase;
use std::sync::atomic::Ordering;
use vstd::prelude::*;

verus! {

/// The atomic cells of a limiter.
#[derive(Debug, Clone, Copy, PartialEq, Eq, Structural)]
pub enum Cell {
    /// Tokens in the bucket.
    Tokens,
    /// Time up to which refills were paid out.
    LastRefill,
    /// Time of the last recorded access.
    LastAccess,
    /// Rejections since the last acquisition.
    ConsecutiveRejections,
    /// Longest wait seen.
    MaxWait,
    /// Requests granted.
    TotalAcquired,
    /// Requests refused.
    TotalRejected,
    /// Refills made.
    TotalRefills,
}

/// How an access is ordered with respect to those of other threads.
#[derive(Debug, Clone, Copy, PartialEq, Eq, Structural)]
pub enum Order {
    Relaxed,
    Acquire,
    Release,
    AcqRel,
    SeqCst,
}

/// The order that a standard ordering stands for.
pub open spec fn order_of(ordering: Ordering) -> Order {
    match ordering {
        Ordering::Relaxed => Order::Relaxed,
        Ordering::Acquire => Order::Acquire,
        Ordering::Release => Order::Release,
        Ordering::AcqRel => Order::AcqRel,
        _ => Order::SeqCst,
    }
}

impl Order {
    /// The order that a standard ordering stands for.
    pub fn of(ordering: Ordering) -> (r: Order)
        ensures
            r == order_of(ordering),
    {
        match ordering {
            Ordering::Relaxed => Order::Relaxed,
            Ordering::Acquire => Order::Acquire,
            Ordering::Release => Order::Release,
            Ordering::AcqRel => Order::AcqRel,
            _ => Order::SeqCst,
        }
    }

    /// The standard ordering with this meaning.
    pub fn standard(self) -> (r: Ordering)
        ensures
            order_of(r) == self,
            r is Release <==> self is Release,
            r is Acquire <==> self is Acquire,
            r is AcqRel <==> self is AcqRel,
    {
        match self {
            Order::Relaxed => Ordering::Relaxed,
            Order::Acquire => Ordering::Acquire,
            Order::Release => Ordering::Release,
            Order::AcqRel => Ordering::AcqRel,
            Order::SeqCst => Ordering::SeqCst,
        }
    }
}

/// One access of a limiter to the clock or to one of its cells, with the answer that it got.
pub enum Access {
    /// The clock showed `now`, in milliseconds.
    Clock { clock: TimeBase, now: u64 },
    /// The cell was read and held `value`.
    Load { cell: Cell, order: Order, value: u64 },
    /// The cell was overwritten with `value`.
    Store { cell: Cell, order: Order, value: u64 },
    /// One was added to the cell, which held `previous`.
    Increment { cell: Cell, order: Order, previous: u64 },
    /// The cell was to change from `expected` to `new`: it did, or it held the value in `Err`.
    /// A weak exchange may fail although the cell held `expected`.
    Exchange {
        cell: Cell,
        weak: bool,
        success: Order,
        failure: Order,
        expected: u64,
        new: u64,
        outcome: Result<(), u64>,
    },
}

/// The values in the cells of a limiter at one moment.
pub struct Memory {
    pub tokens: u64,
    pub last_refill: u64,
    pub last_access: u64,
    pub consecutive_rejections: u64,
    pub max_wait: u64,
    pub total_acquired: u64,
    pub total_rejected: u64,
    pub total_refills: u64,
}

impl Cell {
    /// Largest value that the cell holds; one more wraps to zero.
    pub open spec fn limit(self) -> u64 {
        if self is ConsecutiveRejections {
            0xffff_ffff
        } else {
            0xffff_ffff_ffff_ffff
        }
    }

    /// The value after `previous` when one is added.
    pub open spec fn successor(self, previous: u64) -> u64 {
        if previous >= self.limit() {
            0
        } else {
            (previous + 1) as u64
        }
    }
}

impl Memory {
    /// The value in a cell.
    pub open spec fn get(self, cell: Cell) -> u64 {
        match cell {
            Cell::Tokens => self.tokens,
            Cell::LastRefill => self.last_refill,
            Cell::LastAccess => self.last_access,
            Cell::ConsecutiveRejections => self.consecutive_rejections,
            Cell::MaxWait => self.max_wait,
            Cell::TotalAcquired => self.total_acquired,
            Cell::TotalRejected => self.total_rejected,
            Cell::TotalRefills => self.total_refills,
        }
    }

    /// The memory with another value in a cell.
    pub open spec fn set(self, cell: Cell, value: u64) -> Memory {
        match cell {
            Cell::Tokens => Memory { tokens: value, ..self },
            Cell::LastRefill => Memory { last_refill: value, ..self },
            Cell::LastAccess => Memory { last_access: value, ..self },
            Cell::ConsecutiveRejections => Memory { consecutive_rejections: value, ..self },
            Cell::MaxWait => Memory { max_wait: value, ..self },
            Cell::TotalAcquired => Memory { total_acquired: value, ..self },
            Cell::TotalRejected => Memory { total_rejected: value, ..self },
            Cell::TotalRefills => Memory { total_refills: value, ..self },
        }
    }

    /// Whether an access can get its answer from this memory.
    pub open spec fn answers(self, access: Access) -> bool {
        match access {
            Access::Clock { .. } => true,
            Access::Load { cell, value, .. } => value == self.get(cell),
            Access::Store { .. } => true,
            Access::Increment { cell, previous, .. } => previous == self.get(cell),
            Access::Exchange { cell, weak, expected, outcome, .. } => match outcome {
                Ok(_) => expected == self.get(cell),
                Err(actual) => actual == self.get(cell) && (weak || actual != expected),
            },
        }
    }

    /// The memory after an access.
    pub open spec fn after(self, access: Access) -> Memory {
        match access {
            Access::Clock { .. } => self,
            Access::Load { .. } => self,
            Access::Store { cell, value, .. } => self.set(cell, value),
            Access::Increment { cell, .. } => self.set(cell, cell.successor(self.get(cell))),
            Access::Exchange { cell, new, outcome, .. } => match outcome {
                Ok(_) => self.set(cell, new),
                Err(_) => self,
            },
        }
    }

    /// Whether the accesses, one after the other, get their answers from this memory: no other
    /// thread comes in between.
    pub open spec fn explains(self, accesses: Seq<Access>) -> bool
        decreases accesses.len(),
    {
        accesses.len() == 0 || (self.answers(accesses[0]) && self.after(accesses[0]).explains(
            accesses.skip(1),
        ))
    }

    /// The memory after all the accesses.
    pub open spec fn after_all(self, accesses: Seq<Access>) -> Memory
        decreases accesses.len(),
    {
        if accesses.len() == 0 {
            self
        } else {
            self.after(accesses[0]).after_all(accesses.skip(1))
        }
    }
}

/// No weak exchange failed although the cell held the expected value.
pub open spec fn steady(accesses: Seq<Access>) -> bool {
    forall|i: int|
        0 <= i < accesses.len() ==> (#[trigger] accesses[i] matches Access::Exchange {
            expected,
            outcome,
            ..
        } ==> outcome != Err::<(), u64>(expected))
}

/// `later` goes on where `earlier` ended.
pub open spec fn extends(later: Seq<Access>, earlier: Seq<Access>) -> bool {
    &&& earlier.len() <= later.len()
    &&& later.take(earlier.len() as int) == earlier
}

/// The accesses in `later` that follow `earlier`.
pub open spec fn since(later: Seq<Access>, earlier: Seq<Access>) -> Seq<Access> {
    later.skip(earlier.len() as int)
}

/// What happened between three moments is what happened between the first two, then between the
/// last two.
pub proof fn lemma_since_joins(first: Seq<Access>, second: Seq<Access>, third: Seq<Access>)
    requires
        extends(second, first),
        extends(third, second),
    ensures
        extends(third, first),
        since(third, first) == since(second, first) + since(third, second),
{
    assert(third.take(first.len() as int) =~= second.take(first.len() as int)) by {
        assert forall|i: int| 0 <= i < first.len() implies third[i] == second[i] by {
            assert(third.take(second.len() as int)[i] == second[i]);
        }
    }
    assert(since(third, first) =~= since(second, first) + since(third, second)) by {
        assert forall|i: int| 0 <= i < second.len() - first.len() implies since(third, first)[i]
            == since(second, first)[i] by {
            assert(third.take(second.len() as int)[i + first.len()] == second[i + first.len()]);
        }
    }
}

/// Recording one access extends the record by that access.
pub proof fn lemma_since_push(start: Seq<Access>, access: Access)
    ensures
        extends(start.push(access), start),
        since(start.push(access), start) == seq![access],
{
    assert(start.push(access).take(start.len() as int) =~= start);
    assert(since(start.push(access), start) =~= seq![access]);
}

/// Recording two accesses extends the record by those accesses.
pub proof fn lemma_since_push_two(start: Seq<Access>, first: Access, second: Access)
    ensures
        extends(start.push(first).push(second), start),
        since(start.push(first).push(second), start) == seq![first, second],
{
    assert(start.push(first).push(second).take(start.len() as int) =~= start);
    assert(since(start.push(first).push(second), start) =~= seq![first, second]);
}

/// One access in front of others.
pub proof fn lemma_one_in_front(first: Access, rest: Seq<Access>)
    ensures
        (seq![first] + rest).len() == rest.len() + 1,
        (seq![first] + rest)[0] == first,
        (seq![first] + rest).skip(1) == rest,
{
    assert((seq![first] + rest).skip(1) =~= rest);
}

/// Two accesses in front of others.
pub proof fn lemma_two_in_front(first: Access, second: Access, rest: Seq<Access>)
    ensures
        (seq![first, second] + rest).len() == rest.len() + 2,
        (seq![first, second] + rest)[0] == first,
        (seq![first, second] + rest)[1] == second,
        (seq![first, second] + rest).skip(2) == rest,
{
    assert((seq![first, second] + rest).skip(2) =~= rest);
}

/// Nothing happened since now.
pub proof fn lemma_since_self(start: Seq<Access>)
    ensures
        extends(start, start),
        since(start, start) == Seq::<Access>::empty(),
{
    assert(start.take(start.len() as int) =~= start);
    assert(since(start, start) =~= Seq::<Access>::empty());
}

/// A memory explains two runs of accesses in a row when it explains the first, and what is left
/// after the first explains the second.
pub proof fn lemma_explains_joins(memory: Memory, a: Seq<Access>, b: Seq<Access>)
    ensures
        memory.explains(a + b) <==> memory.explains(a) && memory.after_all(a).explains(b),
        memory.after_all(a + b) == memory.after_all(a).after_all(b),
    decreases a.len(),
{
    if a.len() == 0 {
        assert(a + b =~= b);
    } else {
        assert((a + b).skip(1) =~= a.skip(1) + b);
        lemma_explains_joins(memory.after(a[0]), a.skip(1), b);
    }
}

/// Two runs of accesses are steady together exactly when each is.
pub proof fn lemma_steady_joins(a: Seq<Access>, b: Seq<Access>)
    ensures
        steady(a + b) <==> steady(a) && steady(b),
{
    if steady(a + b) {
        assert forall|i: int| 0 <= i < a.len() implies (#[trigger] a[i] matches Access::Exchange {
            expected,
            outcome,
            ..
        } ==> outcome != Err::<(), u64>(expected)) by {
            assert((a + b)[i] == a[i]);
        }
        assert forall|i: int| 0 <= i < b.len() implies (#[trigger] b[i] matches Access::Exchange {
            expected,
            outcome,
            ..
        } ==> outcome != Err::<(), u64>(expected)) by {
            assert((a + b)[a.len() + i] == b[i]);
        }
    }
}

} // verus!
