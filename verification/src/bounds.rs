//! What the clients of a manager can count on, in plain figures.

use crate::address::IpAddress;
use crate::cells::{accesses_of, all_on, Step};
use crate::clients::{
    law_eviction_reaches_target, law_refused_only_when_full, lemma_look_is_definite,
};
use crate::config::RateLimiterConfig;
use crate::eviction::{first_keys, goes_before, inactive_keys, is_candidate, is_ranking, Reading};
use crate::guarantees::{law_as_many_requests_as_tokens, one_by_one};
use crate::history::{steady, Access, Cell, Memory};
use crate::limiter::RateLimiter;
use crate::manager::{
    asks, covers, is_oversized, lemma_eviction_keeps, lemma_removal_keeps, look_of, looked,
    looked_each, usage_alert, IpRateLimiterManager, ManagerState, ManagerStats, Wakeup,
    MAX_TRACKED_IPS,
};
use crate::metrics::Ratio;
use crate::runs::{acquire_run, clock_of};
use std::sync::Arc;
use vstd::prelude::*;

verus! {

/// Removing limiters is counted, and leaves the other limiters and all settings as they are.
proof fn lemma_removal_in_figures(state: ManagerState, keys: Set<(u8, u128)>, key: (u8, u128))
    requires
        state.is_well_formed(),
    ensures
        ({
            let after = state.without(keys);
            &&& after.limiters.contains_key(key) <==> state.limiters.contains_key(key)
                && !keys.contains(key)
            &&& after.limiters.contains_key(key) ==> after.limiters[key] == state.limiters[key]
            &&& after.limiters.len() <= state.limiters.len()
            &&& after.created == state.created
            &&& state.cleaned + state.limiters.len() <= u64::MAX ==> after.cleaned
                == state.cleaned + (state.limiters.len() - after.limiters.len())
            &&& after.config == state.config
            &&& after.cleanup_interval_ms == state.cleanup_interval_ms
            &&& after.inactive_duration_ms == state.inactive_duration_ms
            &&& after.clock == state.clock
        }),
{
    lemma_removal_keeps(state, keys);
}

/// A cleanup reads the clock and then the time of the last access of each client, in some order. It
/// removes the client exactly when that access lies further back than the inactive duration, or than
/// half of it if more than 9,000 clients are tracked.
pub proof fn law_cleanup_removes_who_stayed_away(
    state: ManagerState,
    look: Seq<Step>,
    after: ManagerState,
    key: (u8, u128),
    at: int,
)
    requires
        state.is_well_formed(),
        state.sweeps(look, after),
        state.limiters.contains_key(key),
        0 <= at < state.limiters.len(),
        look[2 * at].on == Some(state.limiters[key].counter()),
    ensures
        look[2 * at + 1].on == Some(state.limiters[key].counter()),
        look[2 * at].access matches Access::Clock { clock, now } && clock == state.clock && (
        look[2 * at + 1].access matches Access::Load { cell: Cell::LastAccess, value: last, .. } && {
            &&& state.limiters.len() <= 9_000 ==> (after.limiters.contains_key(key) <==> now <= last
                + state.inactive_duration_ms)
            &&& state.limiters.len() > 9_000 ==> (after.limiters.contains_key(key) <==> now <= last
                + state.inactive_duration_ms / 2)
        }),
{
    let readings = choose|readings: Seq<Reading>| #[trigger]
        looked_each(readings, state.limiters, look) && after == state.cleaned_up(readings);
    lemma_as_many_readings(state, readings);
    assert(state.limiters.contains_key(readings[at].key));
    assert(look[2 * at] == state.limiters[readings[at].key].clock_step(readings[at].now_ms));
    assert(state.limiters[readings[at].key].counter().label() == readings[at].key);
    assert(state.limiters[key].counter().label() == key);
    law_readings_decide_a_cleanup(state, readings, key);
    assert forall|i: int| 0 <= i < readings.len() && (#[trigger] readings[i]).key == key implies i
        == at by {
        if i < at {
            assert(readings[i].key != readings[at].key);
        } else if at < i {
            assert(readings[at].key != readings[i].key);
        }
    }
}

/// A cleanup looks at every client, once at each. It adds nobody, leaves those that stay their
/// limiters, and counts those that it removes; all else stays as it was.
pub proof fn law_cleanup_looks_at_everybody(
    state: ManagerState,
    look: Seq<Step>,
    after: ManagerState,
    key: (u8, u128),
)
    requires
        state.is_well_formed(),
        state.sweeps(look, after),
    ensures
        look.len() == 2 * state.limiters.len(),
        state.limiters.contains_key(key) ==> exists|i: int|
            0 <= i < look.len() && (#[trigger] look[i]).on == Some(state.limiters[key].counter())
                && look[i].access is Load,
        after.limiters.contains_key(key) ==> state.limiters.contains_key(key)
            && after.limiters[key] == state.limiters[key],
        after.created == state.created,
        state.cleaned + state.limiters.len() <= u64::MAX ==> after.cleaned == state.cleaned + (
        state.limiters.len() - after.limiters.len()),
        after.config == state.config,
        after.cleanup_interval_ms == state.cleanup_interval_ms,
        after.inactive_duration_ms == state.inactive_duration_ms,
        after.clock == state.clock,
{
    let readings = choose|readings: Seq<Reading>| #[trigger]
        looked_each(readings, state.limiters, look) && after == state.cleaned_up(readings);
    let keys = inactive_keys(readings, state.cleanup_threshold_ms());
    lemma_removal_in_figures(state, keys, key);
    lemma_as_many_readings(state, readings);
    if state.limiters.contains_key(key) {
        let at = choose|at: int| 0 <= at < readings.len() && (#[trigger] readings[at]).key == key;
        assert(look[2 * at + 1] == state.limiters[key].last_access_step(readings[at].last_ms));
    }
}

/// There are as many readings as limiters.
proof fn lemma_as_many_readings(state: ManagerState, readings: Seq<Reading>)
    requires
        state.is_well_formed(),
        covers(readings, state.limiters),
    ensures
        readings.len() == state.limiters.len(),
{
    let keys = Seq::new(readings.len(), |i: int| readings[i].key);
    assert(keys.no_duplicates()) by {
        assert forall|i: int, j: int| 0 <= i < keys.len() && 0 <= j < keys.len() && i
            != j implies keys[i] != keys[j] by {
            if i < j {
                assert(readings[i].key != readings[j].key);
            } else {
                assert(readings[j].key != readings[i].key);
            }
        }
    }
    keys.unique_seq_to_set();
    assert(keys.to_set() =~= state.limiters.dom()) by {
        assert forall|key: (u8, u128)| keys.to_set().contains(key) implies state.limiters.dom().contains(
            key,
        ) by {
            let i = choose|i: int| 0 <= i < keys.len() && keys[i] == key;
            assert(state.limiters.contains_key(readings[i].key));
        }
        assert forall|key: (u8, u128)| state.limiters.dom().contains(key) implies keys.to_set().contains(
            key,
        ) by {
            assert(state.limiters.contains_key(key));
            let i = choose|i: int| 0 <= i < readings.len() && (#[trigger] readings[i]).key == key;
            assert(keys[i] == key);
        }
    }
}

/// Of the readings that it is given, a cleanup removes exactly those clients whose last access lies
/// further back than the inactive duration, or than half of it if more than 9,000 are tracked.
/// Clients that the readings do not show stay.
pub proof fn law_readings_decide_a_cleanup(
    state: ManagerState,
    readings: Seq<Reading>,
    key: (u8, u128),
)
    requires
        state.is_well_formed(),
    ensures
        state.cleaned_up(readings).limiters.contains_key(key) <==> {
            &&& state.limiters.contains_key(key)
            &&& forall|i: int|
                0 <= i < readings.len() && (#[trigger] readings[i]).key == key
                    ==> readings[i].now_ms <= readings[i].last_ms + (if state.limiters.len()
                    > 9_000 {
                    state.inactive_duration_ms as int / 2
                } else {
                    state.inactive_duration_ms as int
                })
        },
        state.cleaned_up(readings).limiters.contains_key(key) ==> state.cleaned_up(
            readings,
        ).limiters[key] == state.limiters[key],
        state.cleaned_up(readings).created == state.created,
        state.cleaned + state.limiters.len() <= u64::MAX ==> state.cleaned_up(readings).cleaned
            == state.cleaned + (state.limiters.len() - state.cleaned_up(readings).limiters.len()),
{
    let limit = state.cleanup_threshold_ms();
    let keys = inactive_keys(readings, limit);
    lemma_removal_in_figures(state, keys, key);
    if keys.contains(key) {
        let i = choose|i: int|
            0 <= i < readings.len() && (#[trigger] readings[i]).key == key
                && readings[i].is_inactive(limit);
        assert(readings[i].key == key && readings[i].is_inactive(limit));
    } else {
        assert forall|i: int| 0 <= i < readings.len() && (#[trigger] readings[i]).key == key implies
            !readings[i].is_inactive(limit) by {}
    }
}

/// An eviction leaves everybody alone while at most 7,000 clients are tracked. Else it removes
/// clients until 7,000 are left or nobody is left whose last access lies half of the inactive
/// duration, and at least a second, back. Nobody goes whose access is more recent, and nobody stays
/// who was idle for longer than somebody who goes. It adds nobody, and counts those that it removes.
pub proof fn law_eviction_takes_the_longest_idle(
    state: ManagerState,
    readings: Seq<Reading>,
    after: ManagerState,
    i: int,
    j: int,
)
    requires
        state.is_well_formed(),
        covers(readings, state.limiters),
        state.evicts(readings, after),
        0 <= i < readings.len(),
        0 <= j < readings.len(),
    ensures
        state.limiters.len() <= 7_000 ==> after == state,
        state.limiters.len() > 7_000 ==> ({
            let limit = if state.inactive_duration_ms / 2 >= 1_000 {
                state.inactive_duration_ms / 2
            } else {
                1_000
            };
            let idle_i = readings[i].now_ms - readings[i].last_ms;
            let idle_j = readings[j].now_ms - readings[j].last_ms;
            let gone_i = !after.limiters.contains_key(readings[i].key);
            let gone_j = !after.limiters.contains_key(readings[j].key);
            &&& 7_000 <= after.limiters.len() <= state.limiters.len()
            &&& gone_i ==> idle_i >= limit
            &&& after.limiters.len() > 7_000 ==> (gone_i <==> idle_i >= limit)
            &&& gone_i && !gone_j ==> idle_i >= idle_j
        }),
        after.limiters.submap_of(state.limiters),
        after.created == state.created,
        state.cleaned + state.limiters.len() <= u64::MAX ==> after.cleaned == state.cleaned + (
        state.limiters.len() - after.limiters.len()),
        after.config == state.config,
        after.cleanup_interval_ms == state.cleanup_interval_ms,
        after.inactive_duration_ms == state.inactive_duration_ms,
        after.clock == state.clock,
{
    lemma_eviction_keeps(state, readings, after);
    if state.limiters.len() > 7_000 {
        let over = state.limiters.len() - 7_000;
        let limit = state.eviction_threshold_ms();
        let order = choose|order: Seq<usize>| #[trigger]
            is_ranking(readings, limit, order) && after == state.without(
                first_keys(readings, order, over),
            );
        law_eviction_reaches_target(state, readings, after, order);
        lemma_as_many_readings(state, readings);
        let keys = first_keys(readings, order, over);
        lemma_removal_in_figures(state, keys, readings[i].key);
        lemma_removal_in_figures(state, keys, readings[j].key);
        lemma_gone_place(state, readings, limit, order, over, i);
        lemma_gone_place(state, readings, limit, order, over, j);
        assert(state.limiters.contains_key(readings[i].key));
        assert(state.limiters.contains_key(readings[j].key));
        if keys.contains(readings[i].key) && !keys.contains(readings[j].key) {
            let a = choose|a: int| 0 <= a < over && a < order.len() && order[a] == i;
            if readings[j].spec_idle_ms() >= limit {
                assert(is_candidate(readings, limit, j as usize));
                let b = choose|b: int| 0 <= b < order.len() && order[b] == j;
                assert(goes_before(readings, order[a], order[b]));
            }
        }
    }
}

/// The key of a reading goes exactly if the reading is among the first of the ranking.
proof fn lemma_gone_place(
    state: ManagerState,
    readings: Seq<Reading>,
    limit: u64,
    order: Seq<usize>,
    over: int,
    i: int,
)
    requires
        state.is_well_formed(),
        covers(readings, state.limiters),
        readings.len() <= usize::MAX,
        is_ranking(readings, limit, order),
        0 <= i < readings.len(),
    ensures
        first_keys(readings, order, over).contains(readings[i].key) ==> readings[i].spec_idle_ms()
            >= limit && exists|a: int| 0 <= a < over && a < order.len() && order[a] == i,
        over >= order.len() && readings[i].spec_idle_ms() >= limit ==> first_keys(
            readings,
            order,
            over,
        ).contains(readings[i].key),
{
    if first_keys(readings, order, over).contains(readings[i].key) {
        let k = choose|k: int|
            0 <= k < over && k < order.len() && readings[#[trigger] order[k] as int].key
                == readings[i].key;
        assert(is_candidate(readings, limit, order[k]));
        let other = order[k] as int;
        if other < i {
            assert(readings[other].key != readings[i].key);
        } else if i < other {
            assert(readings[i].key != readings[other].key);
        }
        assert(order[k] == i);
    }
    if readings[i].spec_idle_ms() >= limit {
        assert(is_candidate(readings, limit, i as usize));
        let k = choose|k: int| 0 <= k < order.len() && order[k] == i as usize;
        if over >= order.len() {
            assert(readings[order[k] as int].key == readings[i].key);
        }
    }
}

/// A client that is tracked gets its limiter, and nothing changes.
///
/// A client that is not gets a limiter of its own, with a full bucket and no request counted, made at
/// the time that the manager's clock shows. While fewer than 9,000 clients are tracked, nobody has
/// to go for it.
pub proof fn law_client_gets_a_limiter_of_its_own(
    state: ManagerState,
    ip: IpAddress,
    steps: Seq<Step>,
    after: ManagerState,
    answer: Option<Arc<RateLimiter>>,
    other: (u8, u128),
)
    requires
        state.is_well_formed(),
        state.serves(ip.spec_key(), steps, after, answer),
    ensures
        state.limiters.contains_key(ip.spec_key()) ==> answer == Some(
            state.limiters[ip.spec_key()],
        ) && after == state && steps.len() == 0,
        answer matches Some(limiter) ==> after.limiters.contains_key(ip.spec_key())
            && after.limiters[ip.spec_key()] == limiter && limiter.config() == state.config
            && limiter.clock() == state.clock,
        answer is None ==> !after.limiters.contains_key(ip.spec_key()) && after.created
            == state.created,
        !state.limiters.contains_key(ip.spec_key()) ==> (answer matches Some(limiter) ==> {
            let start = limiter.initial();
            &&& steps.len() >= 1
            &&& steps.last().access matches Access::Clock { clock, now } && clock == state.clock && {
                &&& start.tokens == state.config.max_tokens
                &&& start.last_refill == now
                &&& start.last_access == now
                &&& start.consecutive_rejections == 0
                &&& start.max_wait == 0
                &&& start.total_acquired == 0
                &&& start.total_rejected == 0
                &&& start.total_refills == 0
            }
            &&& state.created < u64::MAX ==> after.created == state.created + 1
        }),
        !state.limiters.contains_key(ip.spec_key()) && state.limiters.len() < 9_000 ==> answer is Some
            && steps.len() == 1 && after.cleaned == state.cleaned && after.limiters.len()
            == state.limiters.len() + 1,
        other != ip.spec_key() && after.limiters.contains_key(other) ==> state.limiters.contains_key(
            other,
        ) && after.limiters[other] == state.limiters[other],
        other != ip.spec_key() && state.limiters.contains_key(other) && state.limiters.len() < 9_000
            ==> after.limiters.contains_key(other),
        after.limiters.len() <= 10_000,
        after.config == state.config,
        after.cleanup_interval_ms == state.cleanup_interval_ms,
        after.inactive_duration_ms == state.inactive_duration_ms,
        after.clock == state.clock,
{
    let key = ip.spec_key();
    if !state.limiters.contains_key(key) && state.limiters.len() >= 9_000 {
        let room = choose|room: ManagerState| #[trigger]
            state.makes_room(look_of(steps, answer), room) && if room.limiters.len()
                >= MAX_TRACKED_IPS {
                after == room && answer is None
            } else {
                steps.len() >= 1 && room.takes_in(key, steps.last(), after, answer)
            };
        let readings = choose|readings: Seq<Reading>| #[trigger]
            looked(readings, state.limiters, state.clock, look_of(steps, answer)) && state.evicts(
                readings,
                room,
            );
        lemma_eviction_keeps(state, readings, room);
        if answer is Some {
            assert(after.limiters.dom() =~= room.limiters.dom().insert(key));
        }
    } else if !state.limiters.contains_key(key) {
        assert(after.limiters.dom() =~= state.limiters.dom().insert(key));
    }
}

/// A client is turned away only when 10,000 others are tracked and the last access of each of them
/// lies less than half of the inactive duration, or less than a second, back. Then nothing changes.
/// Otherwise, from 9,000 clients on, those that were idle for longest make room for it.
pub proof fn law_client_is_turned_away_only_when_full(
    state: ManagerState,
    ip: IpAddress,
    steps: Seq<Step>,
    after: ManagerState,
    answer: Option<Arc<RateLimiter>>,
    readings: Seq<Reading>,
)
    requires
        state.is_well_formed(),
        !state.limiters.contains_key(ip.spec_key()),
        state.limiters.len() >= 9_000,
        state.serves(ip.spec_key(), steps, after, answer),
        looked(readings, state.limiters, state.clock, look_of(steps, answer)),
    ensures
        answer is None <==> {
            &&& state.limiters.len() == 10_000
            &&& forall|i: int|
                0 <= i < readings.len() ==> (#[trigger] readings[i]).now_ms < readings[i].last_ms
                    + state.inactive_duration_ms / 2 || readings[i].now_ms < readings[i].last_ms
                    + 1_000
        },
        answer is None ==> after == state,
        answer is Some ==> exists|room: ManagerState| #[trigger]
            state.evicts(readings, room) && after.limiters == room.limiters.insert(
                ip.spec_key(),
                answer->0,
            ) && after.cleaned == room.cleaned,
{
    law_refused_only_when_full(state, ip, steps, after, answer, readings);
    let key = ip.spec_key();
    let room = choose|room: ManagerState| #[trigger]
        state.makes_room(look_of(steps, answer), room) && if room.limiters.len()
            >= MAX_TRACKED_IPS {
            after == room && answer is None
        } else {
            steps.len() >= 1 && room.takes_in(key, steps.last(), after, answer)
        };
    let seen = choose|seen: Seq<Reading>| #[trigger]
        looked(seen, state.limiters, state.clock, look_of(steps, answer)) && state.evicts(
            seen,
            room,
        );
    lemma_look_is_definite(state, look_of(steps, answer), seen, readings);
    assert forall|i: int| 0 <= i < readings.len() implies ((#[trigger] readings[i]).spec_idle_ms()
        < state.eviction_threshold_ms() <==> readings[i].now_ms < readings[i].last_ms
        + state.inactive_duration_ms / 2 || readings[i].now_ms < readings[i].last_ms + 1_000) by {}
}

/// What a look at all limiters shows: the clock of the manager is read once, and then the time of the
/// last access of each client.
pub proof fn law_look_shows_every_client(
    state: ManagerState,
    readings: Seq<Reading>,
    look: Seq<Step>,
    i: int,
)
    requires
        state.is_well_formed(),
        looked(readings, state.limiters, state.clock, look),
        0 <= i < readings.len(),
    ensures
        look.len() == state.limiters.len() + 1,
        readings.len() == state.limiters.len(),
        look[0].access matches Access::Clock { clock, now } && clock == state.clock && now
            == readings[i].now_ms,
        state.limiters.contains_key(readings[i].key),
        look[i + 1].on == Some(state.limiters[readings[i].key].counter()),
        look[i + 1].access matches Access::Load { cell: Cell::LastAccess, value, .. } && value
            == readings[i].last_ms,
{
    lemma_as_many_readings(state, readings);
    assert(readings[i].now_ms == clock_of(look[0].access));
}

/// A request of a client that is tracked is a request at the client's own limiter, with the answer of
/// that limiter, whatever the kind of its address. Nothing else is done: no other limiter is even
/// looked at, and the table stays as it is.
pub proof fn law_tracked_client_asks_its_own_limiter(
    state: ManagerState,
    ip: IpAddress,
    n: u64,
    steps: Seq<Step>,
    after: ManagerState,
    granted: bool,
)
    requires
        state.is_well_formed(),
        state.limiters.contains_key(ip.spec_key()),
        state.replies(ip.spec_key(), n, steps, after, granted),
    ensures
        after == state,
        all_on(steps, state.limiters[ip.spec_key()].counter(), state.clock),
        acquire_run(state.config, n, accesses_of(steps), granted),
{
    let (asking, own, answer) = choose|
        asking: Seq<Step>,
        own: Seq<Step>,
        answer: Option<Arc<RateLimiter>>,
    |
        {
            &&& #[trigger] state.serves(ip.spec_key(), asking, after, answer)
            &&& #[trigger] asks(answer, n, own, granted)
            &&& steps == asking + own
        };
    assert(steps =~= own);
}

/// A request of a client that is not tracked is a request at the limiter that the client gets: the
/// last steps are those of the request, all at that limiter, with its answer. A client that gets no
/// limiter is refused.
pub proof fn law_new_client_asks_its_new_limiter(
    state: ManagerState,
    ip: IpAddress,
    n: u64,
    steps: Seq<Step>,
    after: ManagerState,
    granted: bool,
)
    requires
        state.is_well_formed(),
        !state.limiters.contains_key(ip.spec_key()),
        state.replies(ip.spec_key(), n, steps, after, granted),
    ensures
        exists|asking: Seq<Step>, answer: Option<Arc<RateLimiter>>|
            {
                &&& #[trigger] state.serves(ip.spec_key(), asking, after, answer)
                &&& asking.len() <= steps.len()
                &&& steps.take(asking.len() as int) == asking
                &&& answer matches Some(limiter) ==> all_on(
                    steps.skip(asking.len() as int),
                    limiter.counter(),
                    state.clock,
                ) && acquire_run(
                    state.config,
                    n,
                    accesses_of(steps.skip(asking.len() as int)),
                    granted,
                )
                &&& answer is None ==> !granted && steps == asking
            },
{
    let (asking, own, answer) = choose|
        asking: Seq<Step>,
        own: Seq<Step>,
        answer: Option<Arc<RateLimiter>>,
    |
        {
            &&& #[trigger] state.serves(ip.spec_key(), asking, after, answer)
            &&& #[trigger] asks(answer, n, own, granted)
            &&& steps == asking + own
        };
    assert(steps.take(asking.len() as int) =~= asking);
    assert(steps.skip(asking.len() as int) =~= own);
    if answer is None {
        assert(steps =~= asking);
    }
    law_client_gets_a_limiter_of_its_own(state, ip, asking, after, answer, ip.spec_key());
}

/// Every client, whatever the kind of its address, is limited by its own bucket: as long as it is
/// tracked and no interval has passed since the last refill, exactly as many of its single requests
/// are granted as its bucket had tokens, the first ones.
pub proof fn law_every_client_is_limited(
    states: Seq<ManagerState>,
    afters: Seq<ManagerState>,
    ip: IpAddress,
    limiter: Arc<RateLimiter>,
    config: RateLimiterConfig,
    steps: Seq<Seq<Step>>,
    answers: Seq<bool>,
    memory: Memory,
    which: int,
)
    requires
        config.is_valid(),
        states.len() == answers.len(),
        steps.len() == answers.len(),
        forall|i: int|
            0 <= i < states.len() ==> (#[trigger] states[i]).is_well_formed()
                && states[i].limiters.contains_key(ip.spec_key())
                && states[i].limiters[ip.spec_key()] == limiter && states[i].config == config
                && states[i].replies(
                ip.spec_key(),
                1,
                steps[i],
                afters[i],
                answers[i],
            ),
        memory.tokens <= config.max_tokens,
        memory.explains(one_by_one(runs_of(steps))),
        steady(one_by_one(runs_of(steps))),
        forall|i: int, j: int|
            0 <= i < steps.len() && 0 <= j < steps[i].len() ==> (
            (#[trigger] steps[i][j]).access matches Access::Clock { now, .. } ==> now
                < memory.last_refill + config.refill_interval_ms),
        0 <= which < answers.len(),
    ensures
        answers[which] <==> which < memory.tokens,
{
    let runs = runs_of(steps);
    assert forall|i: int| 0 <= i < runs.len() implies acquire_run(
        config,
        1,
        #[trigger] runs[i],
        answers[i],
    ) by {
        assert(states[i].is_well_formed());
        law_tracked_client_asks_its_own_limiter(
            states[i],
            ip,
            1,
            steps[i],
            afters[i],
            answers[i],
        );
    }
    assert forall|i: int, j: int| 0 <= i < runs.len() && 0 <= j < runs[i].len() implies (
    #[trigger] runs[i][j] matches Access::Clock { now, .. } ==> now < memory.last_refill
        + config.refill_interval_ms) by {
        assert(runs[i][j] == steps[i][j].access);
    }
    law_as_many_requests_as_tokens(config, memory, runs, answers, which);
}

/// The accesses of some calls.
pub open spec fn runs_of(steps: Seq<Seq<Step>>) -> Seq<Seq<Access>> {
    Seq::new(steps.len(), |i: int| accesses_of(steps[i]))
}

/// Clearing a manager leaves nobody, counts all that were there as removed, and leaves the settings
/// and the count of limiters made.
pub proof fn law_clear_leaves_nobody(state: ManagerState, key: (u8, u128))
    requires
        state.is_well_formed(),
    ensures
        ({
            let after = state.cleared();
            &&& !after.limiters.contains_key(key)
            &&& after.limiters.len() == 0
            &&& after.created == state.created
            &&& state.cleaned + state.limiters.len() <= u64::MAX ==> after.cleaned == state.cleaned
                + state.limiters.len()
            &&& after.config == state.config
            &&& after.cleanup_interval_ms == state.cleanup_interval_ms
            &&& after.inactive_duration_ms == state.inactive_duration_ms
            &&& after.clock == state.clock
        }),
{
}

/// The figures of a manager say how many clients are tracked, how many limiters were made and
/// removed, and which share of the 10,000 places is taken. Limiters made are tracked or removed.
pub proof fn law_figures_describe_the_table(state: ManagerState)
    requires
        state.is_well_formed(),
    ensures
        ({
            let stats = state.figures();
            &&& stats.active_ips == state.limiters.len()
            &&& stats.active_ips <= 10_000
            &&& stats.total_created == state.created
            &&& stats.total_cleaned == state.cleaned
            &&& stats.max_capacity == 10_000
            &&& stats.capacity_used.whole > 0
            &&& stats.capacity_used.part * 10_000 == stats.active_ips * stats.capacity_used.whole
            &&& stats.total_cleaned + stats.active_ips <= u64::MAX ==> stats.total_created
                == stats.total_cleaned + stats.active_ips
        }),
{
}

/// What the figures of a manager come to: it is near its capacity when more than eight tenths are
/// taken, the removed limiters are set against the made ones, the free places and the taken ones make
/// up the capacity, and what was made and not removed is still active.
pub proof fn law_figures_are_worked_out(
    stats: ManagerStats,
    near: bool,
    removed: Ratio,
    free: usize,
    net: u64,
)
    requires
        call_ensures(ManagerStats::is_near_capacity, (&stats,), near),
        call_ensures(ManagerStats::cleanup_ratio, (&stats,), removed),
        call_ensures(ManagerStats::available_slots, (&stats,), free),
        call_ensures(ManagerStats::net_active, (&stats,), net),
    ensures
        near <==> 10 * stats.capacity_used.part > 8 * stats.capacity_used.whole,
        removed.whole > 0,
        removed.part * stats.total_created == stats.total_cleaned * removed.whole
            || stats.total_created == 0,
        stats.total_created == 0 ==> removed.part == 0,
        free + stats.active_ips == stats.max_capacity,
        stats.total_created >= stats.total_cleaned ==> net + stats.total_cleaned
            == stats.total_created,
        stats.total_created < stats.total_cleaned ==> net == 0,
{
    assert(stats.total_cleaned * stats.total_created == stats.total_created * stats.total_cleaned)
        by (nonlinear_arith);
}

/// An operator is told from 9,001 clients on which per cent of the 10,000 places are taken. A table
/// is larger than it has to be if it has room for more than 1,024 clients and for more than four
/// times as many as there are. A thread that cleans up goes on while nobody asks it to stop.
pub proof fn law_upkeep(
    active: usize,
    alert: Option<usize>,
    capacity: usize,
    oversized: bool,
    wakeup: Wakeup,
    goes_on: bool,
)
    requires
        call_ensures(usage_alert, (active,), alert),
        call_ensures(is_oversized, (capacity, active), oversized),
        call_ensures(Wakeup::calls_for_cleanup, (wakeup,), goes_on),
    ensures
        alert is Some <==> active > 9_000,
        alert matches Some(per_cent) ==> per_cent * 100 <= active < per_cent * 100 + 100,
        oversized <==> capacity > 1_024 && capacity > 4 * active,
        goes_on <==> wakeup is IntervalPassed,
{
}

/// A new manager has nobody, and the given settings: unless told otherwise it cleans up every minute,
/// and a client counts as inactive after five minutes.
pub proof fn law_new_manager_is_empty(
    config: RateLimiterConfig,
    cleanup_interval_ms: u64,
    inactive_duration_ms: u64,
    plain: IpRateLimiterManager,
    manager: IpRateLimiterManager,
)
    requires
        call_ensures(IpRateLimiterManager::new, (config,), plain),
        call_ensures(
            IpRateLimiterManager::with_cleanup_settings,
            (config, cleanup_interval_ms, inactive_duration_ms),
            manager,
        ),
    ensures
        plain@.config == config,
        plain@.cleanup_interval_ms == 60_000,
        plain@.inactive_duration_ms == 300_000,
        plain@.limiters.len() == 0,
        plain@.created == 0,
        plain@.cleaned == 0,
        manager@.config == config,
        manager@.cleanup_interval_ms == cleanup_interval_ms,
        manager@.inactive_duration_ms == inactive_duration_ms,
        manager@.limiters.len() == 0,
        manager@.created == 0,
        manager@.cleaned == 0,
{
}

/// What a look that reads the clock anew for each client shows: for every client the clock of the
/// manager, and then the time of the client's last access.
pub proof fn law_each_client_is_looked_at(
    state: ManagerState,
    readings: Seq<Reading>,
    look: Seq<Step>,
    i: int,
)
    requires
        state.is_well_formed(),
        looked_each(readings, state.limiters, look),
        0 <= i < readings.len(),
    ensures
        look.len() == 2 * state.limiters.len(),
        readings.len() == state.limiters.len(),
        state.limiters.contains_key(readings[i].key),
        look[2 * i].on == Some(state.limiters[readings[i].key].counter()),
        look[2 * i].access matches Access::Clock { clock, now } && clock == state.clock && now
            == readings[i].now_ms,
        look[2 * i + 1].on == Some(state.limiters[readings[i].key].counter()),
        look[2 * i + 1].access matches Access::Load { cell: Cell::LastAccess, value, .. } && value
            == readings[i].last_ms,
{
    lemma_as_many_readings(state, readings);
    assert(state.limiters.contains_key(readings[i].key));
}

} // verus!
