//! What holds of the clients of a manager: that they are isolated from each other, when one is
//! refused, and which are removed.

use crate::address::IpAddress;
use crate::cells::{accesses_of, all_on, Step, TokenCounter};
use crate::eviction::{
    first_keys, goes_before, inactive_keys, is_candidate, is_ranking, law_ranking_is_unique,
    Reading,
};
use crate::history::{steady, Access, Memory};
use crate::limiter::RateLimiter;
use crate::manager::{
    asks, counter_of, covers, lemma_eviction_keeps, lemma_removal_keeps, look_of, looked,
    reading_of, ManagerState,
    CLEANUP_TARGET, CLEANUP_THRESHOLD, EMERGENCY_CLEANUP_MIN_INACTIVE_MS, MAX_TRACKED_IPS,
};
use crate::model::law_undisturbed_request;
use crate::runs::{acquire_run, clock_of};
use std::sync::Arc;
use vstd::prelude::*;

verus! {

/// Asking for one client's limiter never changes which limiter another has. Below the cleanup
/// threshold it does not remove any either.
pub proof fn law_clients_keep_their_limiters(
    state: ManagerState,
    ip: IpAddress,
    steps: Seq<Step>,
    after: ManagerState,
    answer: Option<Arc<RateLimiter>>,
    other: IpAddress,
)
    requires
        state.is_well_formed(),
        state.serves(ip.spec_key(), steps, after, answer),
        other != ip,
    ensures
        after.limiters.contains_key(other.spec_key()) ==> state.limiters.contains_key(
            other.spec_key(),
        ) && after.limiters[other.spec_key()] == state.limiters[other.spec_key()],
        state.limiters.contains_key(other.spec_key()) && state.limiters.len() < CLEANUP_THRESHOLD
            ==> after.limiters.contains_key(other.spec_key()),
{
    if !state.limiters.contains_key(ip.spec_key()) && CLEANUP_THRESHOLD <= state.limiters.len() {
        let room = choose|room: ManagerState| #[trigger]
            state.makes_room(look_of(steps, answer), room) && if room.limiters.len()
                >= MAX_TRACKED_IPS {
                after == room && answer is None
            } else {
                steps.len() >= 1 && room.takes_in(ip.spec_key(), steps.last(), after, answer)
            };
        let readings = choose|readings: Seq<Reading>| #[trigger]
            looked(readings, state.limiters, state.clock, look_of(steps, answer)) && state.evicts(readings, room);
        lemma_eviction_keeps(state, readings, room);
    }
}

/// A client that was served is served again with the same limiter, and nothing changes.
pub proof fn law_client_keeps_its_limiter(
    state: ManagerState,
    ip: IpAddress,
    steps: Seq<Step>,
    after: ManagerState,
    answer: Option<Arc<RateLimiter>>,
    again: Seq<Step>,
    later: ManagerState,
    second: Option<Arc<RateLimiter>>,
)
    requires
        state.serves(ip.spec_key(), steps, after, answer),
        answer is Some,
        after.serves(ip.spec_key(), again, later, second),
    ensures
        second == answer,
        later == after,
{
}

/// A look shows one set of readings only.
pub proof fn lemma_look_is_definite(
    state: ManagerState,
    look: Seq<Step>,
    a: Seq<Reading>,
    b: Seq<Reading>,
)
    requires
        state.is_well_formed(),
        looked(a, state.limiters, state.clock, look),
        looked(b, state.limiters, state.clock, look),
    ensures
        a == b,
{
    assert forall|i: int| 0 <= i < a.len() implies a[i] == b[i] by {
        assert(state.limiters.contains_key(a[i].key));
        assert(state.limiters.contains_key(b[i].key));
        assert(look[i + 1].on == Some(state.limiters[a[i].key].counter()));
        assert(look[i + 1].on == Some(state.limiters[b[i].key].counter()));
    }
    assert(a =~= b);
}

/// A client is refused a limiter only if it has none, the table is full, and nobody in it was idle
/// for long enough to make room.
pub proof fn law_refused_only_when_full(
    state: ManagerState,
    ip: IpAddress,
    steps: Seq<Step>,
    after: ManagerState,
    answer: Option<Arc<RateLimiter>>,
    readings: Seq<Reading>,
)
    requires
        state.is_well_formed(),
        state.serves(ip.spec_key(), steps, after, answer),
        state.limiters.len() >= CLEANUP_THRESHOLD ==> looked(readings, state.limiters, state.clock, look_of(steps, answer))
            || state.limiters.contains_key(ip.spec_key()),
    ensures
        answer is None <==> {
            &&& !state.limiters.contains_key(ip.spec_key())
            &&& state.limiters.len() == MAX_TRACKED_IPS
            &&& forall|i: int|
                0 <= i < readings.len() ==> (#[trigger] readings[i]).spec_idle_ms()
                    < state.eviction_threshold_ms()
        },
        answer is None ==> after == state,
{
    if !state.limiters.contains_key(ip.spec_key()) && CLEANUP_THRESHOLD <= state.limiters.len() {
        let room = choose|room: ManagerState| #[trigger]
            state.makes_room(look_of(steps, answer), room) && if room.limiters.len()
                >= MAX_TRACKED_IPS {
                after == room && answer is None
            } else {
                steps.len() >= 1 && room.takes_in(ip.spec_key(), steps.last(), after, answer)
            };
        let seen = choose|seen: Seq<Reading>| #[trigger]
            looked(seen, state.limiters, state.clock, look_of(steps, answer)) && state.evicts(seen, room);
        lemma_look_is_definite(state, look_of(steps, answer), seen, readings);
        let over = state.limiters.len() - CLEANUP_TARGET;
        let order = choose|order: Seq<usize>| #[trigger]
            is_ranking(readings, state.eviction_threshold_ms(), order) && room == state.without(
                first_keys(readings, order, over),
            );
        law_eviction_reaches_target(state, readings, room, order);
        lemma_readings_are_few(state, readings);
        if order.len() == 0 {
            assert(first_keys(readings, order, over) =~= Set::empty());
            assert(state.limiters.remove_keys(Set::empty()) =~= state.limiters);
            assert forall|i: int| 0 <= i < readings.len() implies (#[trigger] readings[i]).spec_idle_ms()
                < state.eviction_threshold_ms() by {
                if readings[i].spec_idle_ms() >= state.eviction_threshold_ms() {
                    assert(is_candidate(readings, state.eviction_threshold_ms(), i as usize));
                }
            }
        } else {
            assert(is_candidate(readings, state.eviction_threshold_ms(), order[0]));
            let i = order[0] as int;
            assert(readings[i].spec_idle_ms() >= state.eviction_threshold_ms());
        }
    }
}

/// There are no more readings than limiters.
proof fn lemma_readings_are_few(state: ManagerState, readings: Seq<Reading>)
    requires
        state.is_well_formed(),
        covers(readings, state.limiters),
    ensures
        readings.len() <= MAX_TRACKED_IPS,
{
    let keys = Seq::new(readings.len(), |i: int| readings[i].key);
    assert(keys.no_duplicates()) by {
        assert forall|i: int, j: int| 0 <= i < keys.len() && 0 <= j < keys.len() && i
            != j implies keys[i] != keys[j] by {
            if i < j {
                assert(readings[i].key != readings[j].key);
            } else {
                assert(readings[j].key != readings[i].key);
            }
        }
    }
    keys.unique_seq_to_set();
    assert(keys.to_set().subset_of(state.limiters.dom())) by {
        assert forall|key: (u8, u128)| keys.to_set().contains(key) implies state.limiters.dom().contains(
            key,
        ) by {
            let i = choose|i: int| 0 <= i < keys.len() && keys[i] == key;
            assert(state.limiters.contains_key(readings[i].key));
        }
    }
    vstd::set_lib::lemma_len_subset(keys.to_set(), state.limiters.dom());
}

/// The accesses, out of some steps, that were made to one limiter.
pub open spec fn made_to(steps: Seq<Step>, counter: TokenCounter) -> Seq<Access>
    decreases steps.len(),
{
    if steps.len() == 0 {
        Seq::empty()
    } else if steps[0].on == Some(counter) {
        seq![steps[0].access] + made_to(steps.skip(1), counter)
    } else {
        made_to(steps.skip(1), counter)
    }
}

/// Steps that only read a limiter leave its cells as they are.
proof fn lemma_reading_leaves_alone(steps: Seq<Step>, counter: TokenCounter, memory: Memory)
    requires
        forall|i: int|
            0 <= i < steps.len() && (#[trigger] steps[i]).on == Some(counter) ==> steps[i].access is Load
                || steps[i].access is Clock,
    ensures
        memory.after_all(made_to(steps, counter)) == memory,
    decreases steps.len(),
{
    if steps.len() > 0 {
        let rest = steps.skip(1);
        assert forall|i: int|
            0 <= i < rest.len() && (#[trigger] rest[i]).on == Some(
                counter,
            ) implies rest[i].access is Load || rest[i].access is Clock by {
            assert(rest[i] == steps[i + 1]);
        }
        lemma_reading_leaves_alone(rest, counter, memory);
        if steps[0].on == Some(counter) {
            let all = made_to(steps, counter);
            assert(all[0] == steps[0].access);
            assert(all.skip(1) =~= made_to(rest, counter));
        }
    }
}

/// Each client has its own limits: a request of one client, granted or refused, leaves the cells of
/// every other client's limiter as they were, tokens, counters and access time alike. A request of
/// a client that is known, or that comes while the table is not nearly full, does not even read
/// them.
pub proof fn law_clients_are_isolated(
    state: ManagerState,
    ip: IpAddress,
    n: u64,
    steps: Seq<Step>,
    after: ManagerState,
    granted: bool,
    other: IpAddress,
    memory: Memory,
)
    requires
        state.is_well_formed(),
        state.replies(ip.spec_key(), n, steps, after, granted),
        other != ip,
        state.limiters.contains_key(other.spec_key()),
    ensures
        memory.after_all(made_to(steps, state.limiters[other.spec_key()].counter())) == memory,
        state.limiters.contains_key(ip.spec_key()) || state.limiters.len() < CLEANUP_THRESHOLD
            ==> forall|i: int|
            0 <= i < steps.len() ==> (#[trigger] steps[i]).on != Some(
                state.limiters[other.spec_key()].counter(),
            ),
        after.limiters.contains_key(other.spec_key()) ==> after.limiters[other.spec_key()]
            == state.limiters[other.spec_key()],
{
    let (asking, own, answer) = choose|
        asking: Seq<Step>,
        own: Seq<Step>,
        answer: Option<Arc<RateLimiter>>,
    |
        {
            &&& #[trigger] state.serves(ip.spec_key(), asking, after, answer)
            &&& #[trigger] asks(answer, n, own, granted)
            &&& steps == asking + own
        };
    law_clients_keep_their_limiters(state, ip, asking, after, answer, other);
    let counter = counter_of(state.limiters[other.spec_key()]);
    assert(counter.label() == other.spec_key());
    if answer is Some {
        assert(answer->0.counter().label() == ip.spec_key());
    }
    assert forall|i: int| asking.len() <= i < steps.len() implies (#[trigger] steps[i]).on != Some(
        counter,
    ) by {
        assert(steps[i] == own[i - asking.len()]);
    }
    assert forall|i: int| 0 <= i < asking.len() implies (#[trigger] steps[i]).access is Load
        || steps[i].access is Clock by {
        assert(steps[i] == asking[i]);
        let look = look_of(asking, answer);
        if state.limiters.len() >= CLEANUP_THRESHOLD && i < look.len() {
            let room = choose|room: ManagerState| #[trigger] state.makes_room(look, room);
            let readings = choose|readings: Seq<Reading>| #[trigger]
                looked(readings, state.limiters, state.clock, look) && state.evicts(readings, room);
            assert(look[i] == asking[i]);
            if i > 0 {
                assert(readings[i - 1].now_ms == clock_of(look[0].access));
                assert(look[i - 1 + 1] == state.limiters[readings[i - 1].key].last_access_step(
                    readings[i - 1].last_ms,
                ));
            }
        }
    }
    lemma_reading_leaves_alone(steps, counter, memory);
}

/// A new client that comes while the table is not nearly full gets a limiter of its own with a full
/// bucket, made at the time that the manager's clock shows, and its request is made to that limiter
/// and no other.
pub proof fn law_new_client_starts_full(
    state: ManagerState,
    ip: IpAddress,
    n: u64,
    steps: Seq<Step>,
    after: ManagerState,
    granted: bool,
)
    requires
        state.is_well_formed(),
        !state.limiters.contains_key(ip.spec_key()),
        state.limiters.len() < CLEANUP_THRESHOLD,
        state.replies(ip.spec_key(), n, steps, after, granted),
    ensures
        after.limiters.contains_key(ip.spec_key()),
        after == state.with(ip.spec_key(), after.limiters[ip.spec_key()]),
        after.limiters[ip.spec_key()].config() == state.config,
        steps.len() >= 1,
        steps[0] == reading_of(state.clock, steps[0]),
        after.limiters[ip.spec_key()].initial() == Memory::fresh(
            state.config,
            clock_of(steps[0].access),
        ),
        all_on(steps.skip(1), after.limiters[ip.spec_key()].counter(), state.clock),
        acquire_run(state.config, n, accesses_of(steps.skip(1)), granted),
{
    let (asking, own, answer) = choose|
        asking: Seq<Step>,
        own: Seq<Step>,
        answer: Option<Arc<RateLimiter>>,
    |
        {
            &&& #[trigger] state.serves(ip.spec_key(), asking, after, answer)
            &&& #[trigger] asks(answer, n, own, granted)
            &&& steps == asking + own
        };
    assert(steps.skip(1) =~= own);
    assert(steps[0] == asking[0]);
}

/// A known client gets what its own limiter gives: undisturbed, a request is granted exactly when
/// the bucket of that client, refilled with what is due, holds enough tokens, and leaves that
/// bucket as such a request leaves it.
pub proof fn law_known_client_is_limited(
    state: ManagerState,
    ip: IpAddress,
    n: u64,
    steps: Seq<Step>,
    after: ManagerState,
    granted: bool,
    memory: Memory,
)
    requires
        state.is_well_formed(),
        state.config.is_valid(),
        state.limiters.contains_key(ip.spec_key()),
        state.replies(ip.spec_key(), n, steps, after, granted),
        memory.explains(accesses_of(steps)),
        steady(accesses_of(steps)),
    ensures
        after == state,
        all_on(steps, state.limiters[ip.spec_key()].counter(), state.clock),
        exists|now: u64|
            {
                &&& granted == #[trigger] memory.grants(state.config, n, now)
                &&& memory.after_all(accesses_of(steps)) == memory.after_request(
                    state.config,
                    n,
                    now,
                )
            },
{
    let (asking, own, answer) = choose|
        asking: Seq<Step>,
        own: Seq<Step>,
        answer: Option<Arc<RateLimiter>>,
    |
        {
            &&& #[trigger] state.serves(ip.spec_key(), asking, after, answer)
            &&& #[trigger] asks(answer, n, own, granted)
            &&& steps == asking + own
        };
    assert(steps =~= own);
    law_undisturbed_request(state.config, memory, n, accesses_of(own), granted);
}

/// Cleanup removes exactly the inactive limiters.
pub proof fn law_cleanup_is_exact(state: ManagerState, readings: Seq<Reading>, i: int)
    requires
        state.is_well_formed(),
        covers(readings, state.limiters),
        0 <= i < readings.len(),
    ensures
        state.cleaned_up(readings).limiters.contains_key(readings[i].key) <==> !readings[i].is_inactive(
            state.cleanup_threshold_ms(),
        ),
        state.cleaned_up(readings).is_well_formed(),
{
    let keys = inactive_keys(readings, state.cleanup_threshold_ms());
    lemma_removal_keeps(state, keys);
    assert(state.limiters.contains_key(readings[i].key));
    if keys.contains(readings[i].key) {
        let j = choose|j: int|
            0 <= j < readings.len() && (#[trigger] readings[j]).key == readings[i].key
                && readings[j].is_inactive(state.cleanup_threshold_ms());
        assert(j == i) by {
            if j < i {
                assert(readings[j].key != readings[i].key);
            } else if i < j {
                assert(readings[i].key != readings[j].key);
            }
        }
    }
}

/// A client that was active within the last second survives an eviction, and so does one that was
/// active within half of the inactive duration.
pub proof fn law_active_clients_survive(
    state: ManagerState,
    readings: Seq<Reading>,
    after: ManagerState,
    i: int,
)
    requires
        state.is_well_formed(),
        covers(readings, state.limiters),
        state.evicts(readings, after),
        0 <= i < readings.len(),
        readings[i].spec_idle_ms() < EMERGENCY_CLEANUP_MIN_INACTIVE_MS
            || readings[i].spec_idle_ms() < state.inactive_duration_ms / 2,
    ensures
        after.limiters.contains_key(readings[i].key),
        after.limiters[readings[i].key] == state.limiters[readings[i].key],
{
    assert(state.limiters.contains_key(readings[i].key));
    if state.limiters.len() > CLEANUP_TARGET {
        let over = state.limiters.len() - CLEANUP_TARGET;
        let order = choose|order: Seq<usize>| #[trigger]
            is_ranking(readings, state.eviction_threshold_ms(), order) && after == state.without(
                first_keys(readings, order, over),
            );
        if first_keys(readings, order, over).contains(readings[i].key) {
            let k = choose|k: int|
                0 <= k < over && k < order.len() && readings[#[trigger] order[k] as int].key
                    == readings[i].key;
            let j = order[k] as int;
            assert(is_candidate(readings, state.eviction_threshold_ms(), order[k]));
            assert(j == i) by {
                if j < i {
                    assert(readings[j].key != readings[i].key);
                } else if i < j {
                    assert(readings[i].key != readings[j].key);
                }
            }
        }
    }
}

/// The first keys of a ranking are as many as were asked for, as far as there are candidates, and
/// removing them removes as many limiters.
proof fn lemma_first_keys_count(
    limiters: Map<(u8, u128), Arc<RateLimiter>>,
    readings: Seq<Reading>,
    threshold_ms: u64,
    order: Seq<usize>,
    many: int,
)
    requires
        limiters.dom().finite(),
        covers(readings, limiters),
        is_ranking(readings, threshold_ms, order),
        0 <= many <= order.len(),
    ensures
        limiters.remove_keys(first_keys(readings, order, many)).dom().finite(),
        limiters.remove_keys(first_keys(readings, order, many)).len() == limiters.len() - many,
    decreases many,
{
    if many == 0 {
        assert(limiters.remove_keys(first_keys(readings, order, 0)) =~= limiters);
    } else {
        let fewer = many - 1;
        lemma_first_keys_count(limiters, readings, threshold_ms, order, fewer);
        let before = limiters.remove_keys(first_keys(readings, order, fewer));
        let after = limiters.remove_keys(first_keys(readings, order, many));
        let last = order[fewer];
        let key = readings[last as int].key;
        assert(is_candidate(readings, threshold_ms, last));
        assert(limiters.contains_key(key));
        assert(!first_keys(readings, order, fewer).contains(key)) by {
            if first_keys(readings, order, fewer).contains(key) {
                let k = choose|k: int|
                    0 <= k < fewer && k < order.len() && readings[#[trigger] order[k] as int].key
                        == key;
                assert(goes_before(readings, order[k], order[fewer]));
                assert(is_candidate(readings, threshold_ms, order[k]));
                let (a, b) = (order[k] as int, last as int);
                if a < b {
                    assert(readings[a].key != readings[b].key);
                } else if b < a {
                    assert(readings[b].key != readings[a].key);
                }
            }
        }
        assert(after =~= before.remove(key)) by {
            assert forall|k: (u8, u128)|
                first_keys(readings, order, many).contains(k) == (first_keys(
                    readings,
                    order,
                    fewer,
                ).contains(k) || k == key) by {
                if first_keys(readings, order, fewer).contains(k) {
                    let at = choose|at: int|
                        0 <= at < fewer && at < order.len()
                            && readings[#[trigger] order[at] as int].key == k;
                    assert(readings[order[at] as int].key == k);
                }
                assert(readings[order[fewer] as int].key == key);
                if first_keys(readings, order, many).contains(k) && k != key {
                    let at = choose|at: int|
                        0 <= at < many && at < order.len()
                            && readings[#[trigger] order[at] as int].key == k;
                    assert(at < fewer);
                }
            }
        }
        assert(before.remove(key).dom() =~= before.dom().remove(key));
        assert(before.dom().contains(key));
    }
}

/// An eviction removes as many limiters as are over the target, or all that were idle for long
/// enough if those are fewer.
pub proof fn law_eviction_reaches_target(
    state: ManagerState,
    readings: Seq<Reading>,
    after: ManagerState,
    order: Seq<usize>,
)
    requires
        state.is_well_formed(),
        covers(readings, state.limiters),
        state.evicts(readings, after),
        is_ranking(readings, state.eviction_threshold_ms(), order),
        state.limiters.len() > CLEANUP_TARGET,
    ensures
        after.limiters.len() == (if order.len() >= state.limiters.len() - CLEANUP_TARGET {
            CLEANUP_TARGET as int
        } else {
            state.limiters.len() - order.len()
        }),
{
    let over = state.limiters.len() - CLEANUP_TARGET;
    let used = choose|used: Seq<usize>| #[trigger]
        is_ranking(readings, state.eviction_threshold_ms(), used) && after == state.without(
            first_keys(readings, used, over),
        );
    law_ranking_is_unique(readings, state.eviction_threshold_ms(), used, order);
    let many = if order.len() >= over {
        over
    } else {
        order.len() as int
    };
    lemma_first_keys_count(
        state.limiters,
        readings,
        state.eviction_threshold_ms(),
        order,
        many,
    );
    assert(first_keys(readings, order, over) =~= first_keys(readings, order, many));
}

} // verus!
