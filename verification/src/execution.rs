//! Many threads at work on one limiter.
//!
//! An execution is any number of whole calls that run at the same time. Atomic accesses to one cell
//! take effect one after the other, whatever their ordering: each cell has an order of all accesses
//! to it in which every call's accesses keep their place. Accesses to different cells need not fit
//! into one common order, and with relaxed orderings they often do not. What is proved of
//! executions here asks for an order per cell and for nothing more, so it holds for every memory
//! ordering.

use crate::clock::two_pow_64;
use crate::config::RateLimiterConfig;
use crate::effects::{
    adds_up, as_count, effect, every, gradual, legal, lemma_acquire_effect, lemma_addition_effect,
    lemma_count_effect, lemma_every_joins, lemma_reading_effect, read_by, tokens_of, within, Effect,
};
use crate::history::{lemma_explains_joins, Access, Cell, Memory};
use crate::metrics::RateLimiterMetrics;
use crate::model::law_undisturbed_snapshot;
use crate::runs::{
    acquire_run, available_run, inactive_run, last_access_run, metrics_run, pour_run, pressure_run,
    reset_run,
};
use vstd::arithmetic::div_mod::lemma_mod_add_multiples_vanish;
use vstd::prelude::*;

verus! {

/// One call of a method of a limiter, with its arguments and its result.
pub enum Call {
    /// A request for tokens.
    Acquire { n: u64, granted: bool },
    /// Tokens added by hand.
    Add { n: u64 },
    /// The available tokens counted.
    Count { tokens: u64 },
    /// A reset.
    Reset,
    /// The question whether the limiter is idle.
    Idle { duration_ms: u64, inactive: bool },
    /// The question for the last access.
    LastAccess { at_ms: u64 },
    /// The question for sustained pressure.
    Pressed { pressed: bool },
    /// A snapshot.
    Snapshot { metrics: RateLimiterMetrics },
}

impl Call {
    /// The accesses are those of the whole call.
    pub open spec fn makes(self, config: RateLimiterConfig, t: Seq<Access>) -> bool {
        match self {
            Call::Acquire { n, granted } => acquire_run(config, n, t, granted),
            Call::Add { n } => pour_run(config, n, false, t),
            Call::Count { tokens } => available_run(config, t, tokens),
            Call::Reset => reset_run(config, t),
            Call::Idle { duration_ms, inactive } => inactive_run(duration_ms, t, inactive),
            Call::LastAccess { at_ms } => last_access_run(t, at_ms),
            Call::Pressed { pressed } => pressure_run(t, pressed),
            Call::Snapshot { metrics } => metrics_run(config, t, metrics),
        }
    }

    /// Tokens that the call obtained.
    pub open spec fn obtained(self) -> int {
        match self {
            Call::Acquire { n, granted } => tokens_of(n, granted),
            _ => 0,
        }
    }

    /// Tokens that the call was to add by hand.
    pub open spec fn given(self) -> int {
        match self {
            Call::Add { n } => n as int,
            _ => 0,
        }
    }

    /// One if the call is a request for tokens.
    pub open spec fn requested(self) -> int {
        match self {
            Call::Acquire { n, .. } => as_count(n > 0),
            _ => 0,
        }
    }

    /// One if the call is a request for tokens that was granted.
    pub open spec fn granted(self) -> int {
        match self {
            Call::Acquire { n, granted } => as_count(n > 0 && granted),
            _ => 0,
        }
    }

    /// One if the call is a request for tokens that was refused.
    pub open spec fn refused(self) -> int {
        match self {
            Call::Acquire { n, granted } => as_count(n > 0 && !granted),
            _ => 0,
        }
    }
}

/// The sum of a figure over calls.
pub open spec fn sum(calls: Seq<Call>, figure: spec_fn(Call) -> int) -> int
    decreases calls.len(),
{
    if calls.len() == 0 {
        0
    } else {
        sum(calls.drop_last(), figure) + figure(calls.last())
    }
}

/// The accesses of one call, out of all accesses with the calls that made them.
pub open spec fn part(history: Seq<(int, Access)>, who: int) -> Seq<Access>
    decreases history.len(),
{
    if history.len() == 0 {
        Seq::empty()
    } else if history[0].0 == who {
        seq![history[0].1] + part(history.skip(1), who)
    } else {
        part(history.skip(1), who)
    }
}

/// All accesses, in order.
pub open spec fn accesses(history: Seq<(int, Access)>) -> Seq<Access> {
    Seq::new(history.len(), |i: int| history[i].1)
}

impl Access {
    /// The access is to a cell.
    pub open spec fn is_on(self, which: Cell) -> bool {
        match self {
            Access::Clock { .. } => false,
            Access::Load { cell, .. } => cell == which,
            Access::Store { cell, .. } => cell == which,
            Access::Increment { cell, .. } => cell == which,
            Access::Exchange { cell, .. } => cell == which,
        }
    }
}

/// The accesses to a cell, out of all accesses.
pub open spec fn on_cell(t: Seq<Access>, cell: Cell) -> Seq<Access>
    decreases t.len(),
{
    if t.len() == 0 {
        Seq::empty()
    } else if t[0].is_on(cell) {
        seq![t[0]] + on_cell(t.skip(1), cell)
    } else {
        on_cell(t.skip(1), cell)
    }
}

/// Any number of calls that run at the same time.
pub struct Execution {
    /// The calls.
    pub calls: Seq<Call>,
    /// The accesses of each call.
    pub runs: Seq<Seq<Access>>,
    /// For each cell the accesses to it in the order in which they took effect, each with the
    /// index of its call.
    pub orders: spec_fn(Cell) -> Seq<(int, Access)>,
}

impl Execution {
    /// Every call is complete, and the order of each cell holds exactly the accesses of the calls
    /// to that cell, those of one call in the order of the call.
    pub open spec fn is_complete(self, config: RateLimiterConfig) -> bool {
        &&& self.runs.len() == self.calls.len()
        &&& forall|who: int|
            0 <= who < self.calls.len() ==> #[trigger] self.calls[who].makes(config, self.runs[who])
        &&& forall|cell: Cell| #[trigger] self.has_order(cell)
    }

    /// The order of a cell holds exactly the accesses of the calls to it.
    pub open spec fn has_order(self, cell: Cell) -> bool {
        let history = (self.orders)(cell);
        &&& forall|i: int|
            0 <= i < history.len() ==> 0 <= (#[trigger] history[i]).0 < self.calls.len()
        &&& forall|who: int|
            0 <= who < self.calls.len() ==> #[trigger] part(history, who) == on_cell(
                self.runs[who],
                cell,
            )
    }

    /// The accesses to a cell in the order in which they took effect.
    pub open spec fn order(self, cell: Cell) -> Seq<Access> {
        accesses((self.orders)(cell))
    }

    /// Each cell, taken by itself, starts with what the memory holds and gives the answers.
    pub open spec fn starts_from(self, memory: Memory) -> bool {
        forall|cell: Cell| memory.explains(#[trigger] self.order(cell))
    }

    /// What a cell holds at last.
    pub open spec fn last_value(self, memory: Memory, cell: Cell) -> u64 {
        memory.after_all(self.order(cell)).get(cell)
    }

    /// What all cells hold at last.
    pub open spec fn end(self, memory: Memory) -> Memory {
        Memory {
            tokens: self.last_value(memory, Cell::Tokens),
            last_refill: self.last_value(memory, Cell::LastRefill),
            last_access: self.last_value(memory, Cell::LastAccess),
            consecutive_rejections: self.last_value(memory, Cell::ConsecutiveRejections),
            max_wait: self.last_value(memory, Cell::MaxWait),
            total_acquired: self.last_value(memory, Cell::TotalAcquired),
            total_rejected: self.last_value(memory, Cell::TotalRejected),
            total_refills: self.last_value(memory, Cell::TotalRefills),
        }
    }

    /// No call is a reset.
    pub open spec fn is_without_reset(self) -> bool {
        forall|who: int| 0 <= who < self.calls.len() ==> #[trigger] self.calls[who] !is Reset
    }

    /// No call reads a later time than `horizon` from the clock.
    pub open spec fn is_read_by(self, horizon: u64) -> bool {
        forall|who: int|
            0 <= who < self.runs.len() ==> every(#[trigger] self.runs[who], read_by(horizon))
    }

    /// Tokens obtained by all calls.
    pub open spec fn obtained(self) -> int {
        sum(self.calls, |call: Call| call.obtained())
    }

    /// Tokens that were to be added by hand.
    pub open spec fn given(self) -> int {
        sum(self.calls, |call: Call| call.given())
    }

    /// Requests for tokens.
    pub open spec fn requested(self) -> int {
        sum(self.calls, |call: Call| call.requested())
    }

    /// Requests granted.
    pub open spec fn granted(self) -> int {
        sum(self.calls, |call: Call| call.granted())
    }

    /// Requests refused.
    pub open spec fn refused(self) -> int {
        sum(self.calls, |call: Call| call.refused())
    }

    /// Tokens put into the bucket, by hand and by refills.
    pub open spec fn added(self) -> int {
        effect(self.order(Cell::Tokens)).added
    }

    /// Milliseconds whose refills were claimed.
    pub open spec fn claimed_ms(self) -> int {
        effect(self.order(Cell::LastRefill)).claimed
    }
}

/// Every access to a cell has a property that every access has.
proof fn lemma_every_on_cell(t: Seq<Access>, cell: Cell, property: spec_fn(Access) -> bool)
    requires
        every(t, property),
    ensures
        every(on_cell(t, cell), property),
    decreases t.len(),
{
    if t.len() > 0 {
        let one = seq![t[0]];
        let rest = t.skip(1);
        assert(one + rest =~= t);
        lemma_every_joins(one, rest, property);
        lemma_every_on_cell(rest, cell, property);
        lemma_every_joins(one, on_cell(rest, cell), property);
    }
}

/// Accesses to the token count within the capacity are all that matters for the capacity.
proof fn lemma_within_on_cell(config: RateLimiterConfig, t: Seq<Access>)
    requires
        every(on_cell(t, Cell::Tokens), within(config)),
    ensures
        every(t, within(config)),
    decreases t.len(),
{
    if t.len() > 0 {
        let one = seq![t[0]];
        let rest = t.skip(1);
        assert(one + rest =~= t);
        if t[0].is_on(Cell::Tokens) {
            lemma_every_joins(one, on_cell(rest, Cell::Tokens), within(config));
        } else {
            assert(every(one, within(config)));
        }
        lemma_within_on_cell(config, rest);
        lemma_every_joins(one, rest, within(config));
    }
}

/// Each part of an effect comes from the accesses to one cell.
proof fn lemma_effect_on_cells(t: Seq<Access>)
    ensures
        effect(on_cell(t, Cell::Tokens)).taken == effect(t).taken,
        effect(on_cell(t, Cell::Tokens)).added == effect(t).added,
        effect(on_cell(t, Cell::LastRefill)).claimed == effect(t).claimed,
        effect(on_cell(t, Cell::TotalAcquired)).acquired == effect(t).acquired,
        effect(on_cell(t, Cell::TotalRejected)).rejected == effect(t).rejected,
    decreases t.len(),
{
    if t.len() > 0 {
        lemma_effect_on_cells(t.skip(1));
        lemma_effect_on_cell_first(t, Cell::Tokens);
        lemma_effect_on_cell_first(t, Cell::LastRefill);
        lemma_effect_on_cell_first(t, Cell::TotalAcquired);
        lemma_effect_on_cell_first(t, Cell::TotalRejected);
    }
}

proof fn lemma_effect_on_cell_first(t: Seq<Access>, cell: Cell)
    requires
        t.len() > 0,
    ensures
        effect(on_cell(t, cell)) == (if t[0].is_on(cell) {
            t[0].effect().plus(effect(on_cell(t.skip(1), cell)))
        } else {
            effect(on_cell(t.skip(1), cell))
        }),
{
    if t[0].is_on(cell) {
        let all = on_cell(t, cell);
        assert(all[0] == t[0]);
        assert(all.skip(1) =~= on_cell(t.skip(1), cell));
    }
}

/// The first access and the rest of a history.
proof fn lemma_history_first(history: Seq<(int, Access)>)
    requires
        history.len() > 0,
    ensures
        accesses(history) == seq![history[0].1] + accesses(history.skip(1)),
        accesses(history)[0] == history[0].1,
        accesses(history).skip(1) == accesses(history.skip(1)),
{
    assert(accesses(history) =~= seq![history[0].1] + accesses(history.skip(1)));
    assert(accesses(history).skip(1) =~= accesses(history.skip(1)));
}

/// A property of all accesses holds of those of each call.
proof fn lemma_every_part(
    history: Seq<(int, Access)>,
    who: int,
    property: spec_fn(Access) -> bool,
)
    requires
        every(accesses(history), property),
    ensures
        every(part(history, who), property),
    decreases history.len(),
{
    if history.len() > 0 {
        lemma_history_first(history);
        let rest = history.skip(1);
        assert forall|i: int| 0 <= i < accesses(rest).len() implies property(
            #[trigger] accesses(rest)[i],
        ) by {
            assert(accesses(history)[i + 1] == accesses(rest)[i]);
        }
        assert(property(accesses(history)[0]));
        lemma_every_part(rest, who, property);
    }
}

/// A property of the accesses of each call holds of all.
proof fn lemma_every_whole(
    history: Seq<(int, Access)>,
    calls: int,
    property: spec_fn(Access) -> bool,
)
    requires
        forall|i: int| 0 <= i < history.len() ==> 0 <= (#[trigger] history[i]).0 < calls,
        forall|who: int| 0 <= who < calls ==> every(#[trigger] part(history, who), property),
    ensures
        every(accesses(history), property),
    decreases history.len(),
{
    if history.len() > 0 {
        lemma_history_first(history);
        let rest = history.skip(1);
        let first = history[0];
        assert forall|who: int| 0 <= who < calls implies every(
            #[trigger] part(rest, who),
            property,
        ) by {
            let whole = part(history, who);
            assert(every(whole, property));
            if first.0 == who {
                assert forall|i: int| 0 <= i < part(rest, who).len() implies property(
                    #[trigger] part(rest, who)[i],
                ) by {
                    assert(whole[i + 1] == part(rest, who)[i]);
                }
            }
        }
        lemma_every_whole(rest, calls, property);
        assert(every(part(history, first.0), property));
        assert(property(part(history, first.0)[0]));
    }
}

/// The effects of the first calls.
spec fn effects(history: Seq<(int, Access)>, calls: nat) -> Effect
    decreases calls,
{
    if calls == 0 {
        Effect::none()
    } else {
        effects(history, (calls - 1) as nat).plus(effect(part(history, calls - 1)))
    }
}

/// One access more at the front adds its effect to that of its call.
proof fn lemma_effects_first(history: Seq<(int, Access)>, calls: nat)
    requires
        history.len() > 0,
    ensures
        effects(history, calls) == effects(history.skip(1), calls).plus(
            if 0 <= history[0].0 < calls {
                history[0].1.effect()
            } else {
                Effect::none()
            },
        ),
    decreases calls,
{
    if calls > 0 {
        lemma_effects_first(history, (calls - 1) as nat);
        let who = calls - 1;
        let rest = part(history.skip(1), who);
        if history[0].0 == who {
            let whole = part(history, who);
            assert(whole[0] == history[0].1);
            assert(whole.skip(1) =~= rest);
        }
    }
}

/// All accesses together have the effects of all calls together.
proof fn lemma_effects_whole(history: Seq<(int, Access)>, calls: nat)
    requires
        forall|i: int| 0 <= i < history.len() ==> 0 <= (#[trigger] history[i]).0 < calls,
    ensures
        effect(accesses(history)) == effects(history, calls),
    decreases history.len(),
{
    if history.len() == 0 {
        lemma_effects_none(history, calls);
    } else {
        lemma_history_first(history);
        lemma_effects_first(history, calls);
        assert(0 <= history[0].0 < calls);
        lemma_effects_whole(history.skip(1), calls);
    }
}

proof fn lemma_effects_none(history: Seq<(int, Access)>, calls: nat)
    requires
        history.len() == 0,
    ensures
        effects(history, calls) == Effect::none(),
    decreases calls,
{
    if calls > 0 {
        lemma_effects_none(history, (calls - 1) as nat);
    }
}

/// Every call but a reset adds up.
proof fn lemma_call_adds_up(
    config: RateLimiterConfig,
    horizon: u64,
    call: Call,
    t: Seq<Access>,
)
    requires
        config.is_valid(),
        call.makes(config, t),
        call !is Reset,
        every(t, read_by(horizon)),
    ensures
        adds_up(config, horizon, t, call.obtained(), call.given(), call.granted(), call.refused()),
{
    match call {
        Call::Acquire { n, granted } => lemma_acquire_effect(config, horizon, n, t, granted),
        Call::Add { n } => lemma_addition_effect(config, horizon, n, t),
        Call::Count { tokens } => lemma_count_effect(config, horizon, t, tokens),
        Call::Reset => {},
        _ => lemma_reading_effect(config, horizon, t),
    }
}

/// The accesses of every call are legal.
proof fn lemma_call_is_legal(config: RateLimiterConfig, call: Call, t: Seq<Access>)
    requires
        config.is_valid(),
        call.makes(config, t),
    ensures
        every(t, legal(config)),
{
    if call !is Reset {
        lemma_call_adds_up(config, u64::MAX, call, t);
    }
}

/// A property that the accesses of every call have holds of the order of each cell.
proof fn lemma_every_in_order(
    config: RateLimiterConfig,
    execution: Execution,
    cell: Cell,
    property: spec_fn(Access) -> bool,
)
    requires
        execution.is_complete(config),
        forall|who: int|
            0 <= who < execution.calls.len() ==> every(#[trigger] execution.runs[who], property),
    ensures
        every(execution.order(cell), property),
{
    let history = (execution.orders)(cell);
    assert(execution.has_order(cell));
    assert forall|who: int| 0 <= who < execution.calls.len() implies every(
        #[trigger] part(history, who),
        property,
    ) by {
        lemma_every_on_cell(execution.runs[who], cell, property);
    }
    lemma_every_whole(history, execution.calls.len() as int, property);
}

/// All accesses of an execution are legal.
proof fn lemma_execution_is_legal(config: RateLimiterConfig, execution: Execution, cell: Cell)
    requires
        config.is_valid(),
        execution.is_complete(config),
    ensures
        every(execution.order(cell), legal(config)),
{
    assert forall|who: int| 0 <= who < execution.calls.len() implies every(
        #[trigger] execution.runs[who],
        legal(config),
    ) by {
        assert(execution.calls[who].makes(config, execution.runs[who]));
        lemma_call_is_legal(config, execution.calls[who], execution.runs[who]);
    }
    lemma_every_in_order(config, execution, cell, legal(config));
}

/// All accesses of an execution without a reset are gradual.
proof fn lemma_execution_is_gradual(
    config: RateLimiterConfig,
    horizon: u64,
    execution: Execution,
    cell: Cell,
)
    requires
        config.is_valid(),
        execution.is_complete(config),
        execution.is_without_reset(),
        execution.is_read_by(horizon),
    ensures
        every(execution.order(cell), gradual(horizon)),
{
    assert forall|who: int| 0 <= who < execution.calls.len() implies every(
        #[trigger] execution.runs[who],
        gradual(horizon),
    ) by {
        assert(execution.calls[who].makes(config, execution.runs[who]));
        lemma_call_adds_up(config, horizon, execution.calls[who], execution.runs[who]);
    }
    lemma_every_in_order(config, execution, cell, gradual(horizon));
}

/// Every call of an execution sees a bucket within its capacity.
proof fn lemma_execution_stays_within(
    config: RateLimiterConfig,
    memory: Memory,
    execution: Execution,
    who: int,
)
    requires
        config.is_valid(),
        execution.is_complete(config),
        memory.tokens <= config.max_tokens,
        execution.starts_from(memory),
        0 <= who < execution.calls.len(),
    ensures
        every(execution.runs[who], within(config)),
{
    let history = (execution.orders)(Cell::Tokens);
    lemma_execution_is_legal(config, execution, Cell::Tokens);
    lemma_legal_stays_within(config, memory, execution.order(Cell::Tokens));
    lemma_every_part(history, who, within(config));
    assert(execution.has_order(Cell::Tokens));
    assert(part(history, who) == on_cell(execution.runs[who], Cell::Tokens));
    lemma_within_on_cell(config, execution.runs[who]);
}

/// Legal accesses keep a bucket within its capacity, and see it so.
proof fn lemma_legal_stays_within(config: RateLimiterConfig, memory: Memory, t: Seq<Access>)
    requires
        memory.tokens <= config.max_tokens,
        memory.explains(t),
        every(t, legal(config)),
    ensures
        memory.after_all(t).tokens <= config.max_tokens,
        every(t, within(config)),
    decreases t.len(),
{
    if t.len() > 0 {
        let rest = t.skip(1);
        assert forall|i: int| 0 <= i < rest.len() implies legal(config)(#[trigger] rest[i]) by {
            assert(rest[i] == t[i + 1]);
        }
        assert(legal(config)(t[0]));
        lemma_legal_stays_within(config, memory.after(t[0]), rest);
        assert forall|i: int| 0 <= i < t.len() implies within(config)(#[trigger] t[i]) by {
            if i > 0 {
                assert(within(config)(rest[i - 1]));
            }
        }
    }
}

/// Whatever a call does, each exchange that it makes, and each time that it overwrites the tokens, is
/// ordered as the configured strategy says.
pub proof fn law_changes_are_ordered(
    config: RateLimiterConfig,
    call: Call,
    t: Seq<Access>,
    i: int,
)
    requires
        config.is_valid(),
        call.makes(config, t),
        0 <= i < t.len(),
    ensures
        t[i] matches Access::Exchange { success, .. } ==> {
            &&& config.ordering is Relaxed ==> success is Relaxed
            &&& config.ordering is AcquireRelease ==> success is AcqRel
            &&& config.ordering is Sequential ==> success is SeqCst
        },
        t[i] matches Access::Store { cell: Cell::Tokens, order, .. } ==> {
            &&& config.ordering is Relaxed ==> order is Relaxed
            &&& config.ordering is AcquireRelease ==> order is Release
            &&& config.ordering is Sequential ==> order is SeqCst
        },
{
    lemma_call_is_legal(config, call, t);
    assert(legal(config)(t[i]));
}

/// A bucket never holds more than its capacity: not at any moment of any execution, whatever
/// requests, refills, additions and resets take place in it.
pub proof fn law_never_over_capacity(
    config: RateLimiterConfig,
    memory: Memory,
    execution: Execution,
    moment: int,
)
    requires
        config.is_valid(),
        execution.is_complete(config),
        memory.tokens <= config.max_tokens,
        execution.starts_from(memory),
        0 <= moment <= execution.order(Cell::Tokens).len(),
    ensures
        memory.after_all(execution.order(Cell::Tokens).take(moment)).tokens <= config.max_tokens,
{
    lemma_execution_is_legal(config, execution, Cell::Tokens);
    let t = execution.order(Cell::Tokens);
    let before = t.take(moment);
    assert(before + t.skip(moment) =~= t);
    lemma_explains_joins(memory, before, t.skip(moment));
    lemma_every_joins(before, t.skip(moment), legal(config));
    lemma_legal_stays_within(config, memory, before);
}

/// What is counted never reports more tokens than the capacity.
pub proof fn law_count_within_capacity(
    config: RateLimiterConfig,
    memory: Memory,
    execution: Execution,
    who: int,
)
    requires
        config.is_valid(),
        execution.is_complete(config),
        memory.tokens <= config.max_tokens,
        execution.starts_from(memory),
        0 <= who < execution.calls.len(),
    ensures
        match execution.calls[who] {
            Call::Count { tokens } => tokens <= config.max_tokens,
            Call::Snapshot { metrics } => metrics.current_tokens <= config.max_tokens,
            _ => true,
        },
{
    lemma_execution_stays_within(config, memory, execution, who);
    let t = execution.runs[who];
    assert(execution.calls[who].makes(config, t));
    match execution.calls[who] {
        Call::Count { tokens } => {
            assert(t.last() matches Access::Load { cell: Cell::Tokens, value, .. } && value
                == tokens);
            assert(within(config)(t[t.len() - 1]));
        },
        Call::Snapshot { metrics } => {
            assert(within(config)(t[3]));
        },
        _ => {},
    }
}

/// Adding one to a counter, and later some more.
proof fn lemma_count_on(previous: u64, more: int)
    ensures
        (Cell::TotalAcquired.successor(previous) + more) % two_pow_64() == (previous + 1 + more)
            % two_pow_64(),
        (Cell::TotalRejected.successor(previous) + more) % two_pow_64() == (previous + 1 + more)
            % two_pow_64(),
{
    lemma_mod_add_multiples_vanish(more, two_pow_64());
}

/// What gradual accesses do to a memory that explains them is what they add up to.
proof fn lemma_memory_follows(
    config: RateLimiterConfig,
    horizon: u64,
    memory: Memory,
    t: Seq<Access>,
)
    requires
        memory.explains(t),
        every(t, gradual(horizon)),
        every(t, legal(config)),
    ensures
        ({
            let end = memory.after_all(t);
            let sums = effect(t);
            &&& end.tokens == memory.tokens + sums.added - sums.taken
            &&& end.total_acquired == (memory.total_acquired + sums.acquired) % two_pow_64()
            &&& end.total_rejected == (memory.total_rejected + sums.rejected) % two_pow_64()
            &&& end.last_refill == memory.last_refill + sums.claimed
            &&& sums.claimed >= 0
            &&& end.last_refill <= horizon || end.last_refill == memory.last_refill
        }),
    decreases t.len(),
{
    if t.len() > 0 {
        let rest = t.skip(1);
        assert forall|i: int| 0 <= i < rest.len() implies gradual(horizon)(#[trigger] rest[i]) by {
            assert(rest[i] == t[i + 1]);
        }
        assert forall|i: int| 0 <= i < rest.len() implies legal(config)(#[trigger] rest[i]) by {
            assert(rest[i] == t[i + 1]);
        }
        assert(gradual(horizon)(t[0]));
        assert(legal(config)(t[0]));
        lemma_memory_follows(config, horizon, memory.after(t[0]), rest);
        let more = effect(rest);
        match t[0] {
            Access::Increment { cell: Cell::TotalAcquired, previous, .. } => {
                lemma_count_on(previous, more.acquired);
            },
            Access::Increment { cell: Cell::TotalRejected, previous, .. } => {
                lemma_count_on(previous, more.rejected);
            },
            _ => {},
        }
    }
}

/// The effects of the first runs.
spec fn run_effects(runs: Seq<Seq<Access>>, calls: nat) -> Effect
    decreases calls,
{
    if calls == 0 {
        Effect::none()
    } else {
        run_effects(runs, (calls - 1) as nat).plus(effect(runs[calls - 1]))
    }
}

/// The figures of the first calls add up to the effects of their runs.
proof fn lemma_sums(
    config: RateLimiterConfig,
    runs: Seq<Seq<Access>>,
    calls: Seq<Call>,
)
    requires
        config.is_valid(),
        forall|who: int|
            0 <= who < calls.len() ==> #[trigger] calls[who].makes(config, runs[who])
                && calls[who] !is Reset && every(runs[who], within(config)),
    ensures
        ({
            let sums = run_effects(runs, calls.len());
            &&& sums.taken == sum(calls, |call: Call| call.obtained())
            &&& sums.acquired == sum(calls, |call: Call| call.granted())
            &&& sums.rejected == sum(calls, |call: Call| call.refused())
            &&& sums.claimed >= 0
            &&& config.refill_interval_ms * sums.added <= config.refill_interval_ms * sum(
                calls,
                |call: Call| call.given(),
            ) + config.refill_rate * sums.claimed
        }),
    decreases calls.len(),
{
    let interval = config.refill_interval_ms;
    let rate = config.refill_rate;
    assert(interval * 0 == 0) by (nonlinear_arith);
    assert(rate * 0 == 0) by (nonlinear_arith);
    if calls.len() > 0 {
        let who = calls.len() - 1;
        let front = calls.drop_last();
        assert forall|i: int| 0 <= i < front.len() implies #[trigger] front[i].makes(
            config,
            runs[i],
        ) && front[i] !is Reset && every(runs[i], within(config)) by {
            assert(calls[i].makes(config, runs[i]));
        }
        lemma_sums(config, runs, front);
        assert(calls[who].makes(config, runs[who]));
        lemma_call_adds_up(config, u64::MAX, calls[who], runs[who]);
        let x = run_effects(runs, front.len());
        let y = effect(runs[who]);
        let given = sum(front, |call: Call| call.given());
        let last = calls[who].given();
        assert(interval * (x.added + y.added) == interval * x.added + interval * y.added)
            by (nonlinear_arith);
        assert(interval * (given + last) == interval * given + interval * last)
            by (nonlinear_arith);
        assert(rate * (x.claimed + y.claimed) == rate * x.claimed + rate * y.claimed)
            by (nonlinear_arith);
    }
}

/// The order of each cell has the effects of the runs that come from that cell.
proof fn lemma_orders_add_up(
    config: RateLimiterConfig,
    execution: Execution,
    cell: Cell,
    calls: nat,
)
    requires
        execution.is_complete(config),
        calls <= execution.calls.len(),
    ensures
        ({
            let order = effects((execution.orders)(cell), calls);
            let runs = run_effects(execution.runs, calls);
            &&& cell is Tokens ==> order.taken == runs.taken && order.added == runs.added
            &&& cell is LastRefill ==> order.claimed == runs.claimed
            &&& cell is TotalAcquired ==> order.acquired == runs.acquired
            &&& cell is TotalRejected ==> order.rejected == runs.rejected
        }),
    decreases calls,
{
    if calls > 0 {
        lemma_orders_add_up(config, execution, cell, (calls - 1) as nat);
        let who = calls - 1;
        assert(execution.has_order(cell));
        assert(part((execution.orders)(cell), who) == on_cell(execution.runs[who], cell));
        lemma_effect_on_cells(execution.runs[who]);
    }
}

/// The order of a cell in an execution without a reset: its effects are those of the runs, and
/// what the cell holds at last follows from them.
proof fn lemma_order_follows(
    config: RateLimiterConfig,
    horizon: u64,
    memory: Memory,
    execution: Execution,
    cell: Cell,
)
    requires
        config.is_valid(),
        execution.is_complete(config),
        execution.is_without_reset(),
        execution.is_read_by(horizon),
        execution.starts_from(memory),
    ensures
        ({
            let sums = run_effects(execution.runs, execution.calls.len());
            let own = effect(execution.order(cell));
            let end = memory.after_all(execution.order(cell));
            &&& cell is Tokens ==> own.taken == sums.taken && own.added == sums.added
                && end.tokens == memory.tokens + sums.added - sums.taken
            &&& cell is LastRefill ==> own.claimed == sums.claimed && end.last_refill
                == memory.last_refill + sums.claimed && (end.last_refill <= horizon
                || end.last_refill == memory.last_refill)
            &&& cell is TotalAcquired ==> end.total_acquired == (memory.total_acquired
                + sums.acquired) % two_pow_64()
            &&& cell is TotalRejected ==> end.total_rejected == (memory.total_rejected
                + sums.rejected) % two_pow_64()
        }),
{
    lemma_execution_is_legal(config, execution, cell);
    lemma_execution_is_gradual(config, horizon, execution, cell);
    lemma_memory_follows(config, horizon, memory, execution.order(cell));
    assert(execution.has_order(cell));
    lemma_effects_whole((execution.orders)(cell), execution.calls.len());
    lemma_orders_add_up(config, execution, cell, execution.calls.len());
}

/// What all calls of an execution without a reset add up to.
proof fn lemma_execution_adds_up(
    config: RateLimiterConfig,
    horizon: u64,
    memory: Memory,
    execution: Execution,
)
    requires
        config.is_valid(),
        execution.is_complete(config),
        execution.is_without_reset(),
        memory.tokens <= config.max_tokens,
        execution.is_read_by(horizon),
        execution.starts_from(memory),
    ensures
        ({
            let end = execution.end(memory);
            &&& execution.claimed_ms() >= 0
            &&& config.refill_interval_ms * execution.added() <= config.refill_interval_ms
                * execution.given() + config.refill_rate * execution.claimed_ms()
            &&& end.tokens == memory.tokens + execution.added() - execution.obtained()
            &&& end.total_acquired == (memory.total_acquired + execution.granted()) % two_pow_64()
            &&& end.total_rejected == (memory.total_rejected + execution.refused()) % two_pow_64()
            &&& end.last_refill == memory.last_refill + execution.claimed_ms()
            &&& end.last_refill <= horizon || end.last_refill == memory.last_refill
        }),
{
    let calls = execution.calls;
    let runs = execution.runs;
    assert forall|who: int| 0 <= who < calls.len() implies #[trigger] calls[who].makes(
        config,
        runs[who],
    ) && calls[who] !is Reset && every(runs[who], within(config)) by {
        lemma_execution_stays_within(config, memory, execution, who);
    }
    lemma_sums(config, runs, calls);
    lemma_order_follows(config, horizon, memory, execution, Cell::Tokens);
    lemma_order_follows(config, horizon, memory, execution, Cell::LastRefill);
    lemma_order_follows(config, horizon, memory, execution, Cell::TotalAcquired);
    lemma_order_follows(config, horizon, memory, execution, Cell::TotalRejected);
}

/// No token is granted that was not there: what all requests obtained, and what is left, is what
/// the bucket held at first and what was put in.
pub proof fn law_tokens_are_conserved(
    config: RateLimiterConfig,
    memory: Memory,
    execution: Execution,
)
    requires
        config.is_valid(),
        execution.is_complete(config),
        execution.is_without_reset(),
        memory.tokens <= config.max_tokens,
        execution.starts_from(memory),
    ensures
        execution.end(memory).tokens + execution.obtained() == memory.tokens
            + execution.added(),
{
    lemma_execution_adds_up(config, u64::MAX, memory, execution);
}

/// The rate is kept: beyond what the bucket held at first and what was added by hand, all
/// requests together obtain at most `refill_rate` tokens for each interval whose refill was
/// claimed. Both sides are multiplied by the length of the interval.
pub proof fn law_rate_is_kept(config: RateLimiterConfig, memory: Memory, execution: Execution)
    requires
        config.is_valid(),
        execution.is_complete(config),
        execution.is_without_reset(),
        memory.tokens <= config.max_tokens,
        execution.starts_from(memory),
    ensures
        config.refill_interval_ms * execution.obtained() <= config.refill_interval_ms * (
        memory.tokens + execution.given()) + config.refill_rate * execution.claimed_ms(),
{
    lemma_execution_adds_up(config, u64::MAX, memory, execution);
    let interval = config.refill_interval_ms;
    let added = execution.added();
    let obtained = execution.obtained();
    let left = execution.end(memory).tokens;
    assert(interval * (obtained + left) == interval * obtained + interval * left
        && interval * left >= 0) by (nonlinear_arith);
    assert(interval * (memory.tokens + added) == interval * memory.tokens + interval * added)
        by (nonlinear_arith);
    assert(interval * (memory.tokens + execution.given()) == interval * memory.tokens + interval
        * execution.given()) by (nonlinear_arith);
}

/// Time is claimed once: the claimed milliseconds are those by which the refill time moved on. It
/// never moves back, and never ahead of what the calls read from the clock.
pub proof fn law_time_is_claimed_once(
    config: RateLimiterConfig,
    memory: Memory,
    execution: Execution,
    horizon: u64,
)
    requires
        config.is_valid(),
        execution.is_complete(config),
        execution.is_without_reset(),
        execution.is_read_by(horizon),
        memory.tokens <= config.max_tokens,
        memory.last_refill <= horizon,
        execution.starts_from(memory),
    ensures
        execution.claimed_ms() == execution.end(memory).last_refill - memory.last_refill,
        memory.last_refill <= execution.end(memory).last_refill <= horizon,
{
    lemma_execution_adds_up(config, horizon, memory, execution);
}

/// The rate is kept over time, whatever the threads do and however their readings of the clock
/// overtake each other: until the clock shows more than `horizon`, all requests together obtain at
/// most what the bucket held at first, what was added by hand, and `refill_rate` tokens for each
/// interval since the last refill. Both sides are multiplied by the length of the interval.
pub proof fn law_rate_over_time(
    config: RateLimiterConfig,
    memory: Memory,
    execution: Execution,
    horizon: u64,
)
    requires
        config.is_valid(),
        execution.is_complete(config),
        execution.is_without_reset(),
        execution.is_read_by(horizon),
        memory.tokens <= config.max_tokens,
        memory.last_refill <= horizon,
        execution.starts_from(memory),
    ensures
        config.refill_interval_ms * execution.obtained() <= config.refill_interval_ms * (
        memory.tokens + execution.given()) + config.refill_rate * (horizon - memory.last_refill),
{
    law_rate_is_kept(config, memory, execution);
    law_time_is_claimed_once(config, memory, execution, horizon);
    let rate = config.refill_rate;
    let claimed = execution.claimed_ms();
    let passed = horizon - memory.last_refill;
    assert(rate * claimed <= rate * passed) by (nonlinear_arith)
        requires
            claimed <= passed,
            0 <= rate,
    ;
}

/// A limiter that was made at `now` had a full bucket: from then until the clock shows more than
/// `horizon`, all requests together obtain at most its capacity, what was added by hand, and
/// `refill_rate` tokens for each interval since it was made. Both sides are multiplied by the
/// length of the interval.
pub proof fn law_rate_since_creation(
    config: RateLimiterConfig,
    now: u64,
    execution: Execution,
    horizon: u64,
)
    requires
        config.is_valid(),
        execution.is_complete(config),
        execution.is_without_reset(),
        execution.is_read_by(horizon),
        now <= horizon,
        execution.starts_from(Memory::fresh(config, now)),
    ensures
        config.refill_interval_ms * execution.obtained() <= config.refill_interval_ms * (
        config.max_tokens + execution.given()) + config.refill_rate * (horizon - now),
{
    law_rate_over_time(config, Memory::fresh(config, now), execution, horizon);
}

/// Every request is counted once: as granted or as refused. Requests are counted, not tokens, and
/// a request for no tokens is not counted.
pub proof fn law_requests_are_counted(
    config: RateLimiterConfig,
    memory: Memory,
    execution: Execution,
)
    requires
        config.is_valid(),
        execution.is_complete(config),
        execution.is_without_reset(),
        memory.tokens <= config.max_tokens,
        execution.starts_from(memory),
    ensures
        ({
            let end = execution.end(memory);
            &&& end.total_acquired == (memory.total_acquired + execution.granted()) % two_pow_64()
            &&& end.total_rejected == (memory.total_rejected + execution.refused()) % two_pow_64()
        }),
{
    lemma_execution_adds_up(config, u64::MAX, memory, execution);
}

/// A request takes all the tokens that it asked for, or none at all, whatever other threads do
/// between its accesses.
pub proof fn law_all_or_nothing(config: RateLimiterConfig, n: u64, t: Seq<Access>, granted: bool)
    requires
        config.is_valid(),
        acquire_run(config, n, t, granted),
        every(t, within(config)),
    ensures
        effect(t).taken == (if granted {
            n as int
        } else {
            0
        }),
{
    lemma_acquire_effect(config, u64::MAX, n, t, granted);
}

/// Every request was granted or refused.
proof fn lemma_requests_split(calls: Seq<Call>)
    ensures
        0 <= sum(calls, |call: Call| call.granted()),
        0 <= sum(calls, |call: Call| call.refused()),
        sum(calls, |call: Call| call.granted()) + sum(calls, |call: Call| call.refused()) == sum(
            calls,
            |call: Call| call.requested(),
        ),
    decreases calls.len(),
{
    if calls.len() > 0 {
        lemma_requests_split(calls.drop_last());
    }
}

/// A snapshot of a limiter taken when all calls since its creation have returned counts them: as
/// granted those that were granted, as refused those that were refused, and so all requests for
/// tokens. It changes nothing. The counters must not have run over.
pub proof fn law_metrics_count_requests(
    config: RateLimiterConfig,
    now: u64,
    execution: Execution,
    t: Seq<Access>,
    metrics: RateLimiterMetrics,
)
    requires
        config.is_valid(),
        execution.is_complete(config),
        execution.is_without_reset(),
        execution.starts_from(Memory::fresh(config, now)),
        execution.requested() < two_pow_64(),
        metrics_run(config, t, metrics),
        execution.end(Memory::fresh(config, now)).explains(t),
    ensures
        metrics.total_acquired == execution.granted(),
        metrics.total_rejected == execution.refused(),
        metrics.total_acquired + metrics.total_rejected == execution.requested(),
        execution.end(Memory::fresh(config, now)).after_all(t) == execution.end(
            Memory::fresh(config, now),
        ),
{
    let memory = Memory::fresh(config, now);
    lemma_execution_adds_up(config, u64::MAX, memory, execution);
    lemma_requests_split(execution.calls);
    law_undisturbed_snapshot(config, execution.end(memory), t, metrics);
}

} // verus!
