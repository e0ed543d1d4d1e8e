//! Which limiters go when room is needed: those that were idle for long, the longest idle first.

use crate::bucket::{elapsed_ms, passed_more_than, time_since};
use vstd::prelude::*;

verus! {

/// What was seen of one limiter.
#[derive(Debug, Clone, Copy)]
pub struct Reading {
    /// Key of the limiter.
    pub key: (u8, u128),
    /// Time of its last recorded access.
    pub last_ms: u64,
    /// Time at which it was looked at.
    pub now_ms: u64,
}

impl Reading {
    /// Milliseconds since the last access; none if that lies ahead.
    pub open spec fn spec_idle_ms(self) -> u64 {
        elapsed_ms(self.now_ms, self.last_ms)
    }

    /// Milliseconds since the last access.
    pub fn idle_ms(&self) -> (r: u64)
        ensures
            r == self.spec_idle_ms(),
    {
        time_since(self.now_ms, self.last_ms)
    }

    /// The last access was more than `threshold_ms` ago.
    pub open spec fn is_inactive(self, threshold_ms: u64) -> bool {
        self.spec_idle_ms() > threshold_ms
    }

    /// Whether the last access was more than `threshold_ms` ago.
    pub fn has_been_inactive(&self, threshold_ms: u64) -> (r: bool)
        ensures
            r == self.is_inactive(threshold_ms),
    {
        passed_more_than(self.now_ms, self.last_ms, threshold_ms)
    }
}

/// The keys that readings show as inactive.
pub open spec fn inactive_keys(readings: Seq<Reading>, threshold_ms: u64) -> Set<(u8, u128)> {
    Set::new(
        |key: (u8, u128)|
            exists|i: int|
                0 <= i < readings.len() && (#[trigger] readings[i]).key == key
                    && readings[i].is_inactive(threshold_ms),
    )
}

/// The reading at `i` shows a limiter that was idle for `threshold_ms` at least.
pub open spec fn is_candidate(readings: Seq<Reading>, threshold_ms: u64, i: usize) -> bool {
    i < readings.len() && readings[i as int].spec_idle_ms() >= threshold_ms
}

/// The limiter at `a` goes before that at `b`: it was idle for longer, or as long and comes first.
pub open spec fn goes_before(readings: Seq<Reading>, a: usize, b: usize) -> bool {
    let idle_a = readings[a as int].spec_idle_ms();
    let idle_b = readings[b as int].spec_idle_ms();
    idle_a > idle_b || (idle_a == idle_b && a < b)
}

/// `order` lists exactly the candidates, in the order in which they go.
pub open spec fn is_ranking(
    readings: Seq<Reading>,
    threshold_ms: u64,
    order: Seq<usize>,
) -> bool {
    &&& forall|k: int|
        0 <= k < order.len() ==> is_candidate(readings, threshold_ms, #[trigger] order[k])
    &&& forall|i: usize| #[trigger]
        is_candidate(readings, threshold_ms, i) ==> order.contains(i)
    &&& forall|j: int, k: int|
        0 <= j < k < order.len() ==> goes_before(readings, #[trigger] order[j], #[trigger] order[k])
}

/// The keys of the first `count` in an order.
pub open spec fn first_keys(
    readings: Seq<Reading>,
    order: Seq<usize>,
    count: int,
) -> Set<(u8, u128)> {
    Set::new(
        |key: (u8, u128)|
            exists|k: int|
                0 <= k < count && k < order.len() && readings[#[trigger] order[k] as int].key
                    == key,
    )
}

/// The position in `order` behind all that go before the reading at `i`, which comes after all
/// readings in `order`.
fn position_of(readings: &Vec<Reading>, order: &Vec<usize>, i: usize) -> (at: usize)
    requires
        i < readings@.len(),
        forall|k: int| 0 <= k < order@.len() ==> #[trigger] order@[k] < i,
        forall|j: int, k: int|
            0 <= j < k < order@.len() ==> goes_before(
                readings@,
                #[trigger] order@[j],
                #[trigger] order@[k],
            ),
    ensures
        at <= order@.len(),
        forall|k: int| 0 <= k < at ==> goes_before(readings@, #[trigger] order@[k], i),
        forall|k: int| at <= k < order@.len() ==> goes_before(readings@, i, #[trigger] order@[k]),
{
    let idle: u64 = readings[i].idle_ms();
    let mut low: usize = 0;
    let mut high: usize = order.len();
    while low < high
        invariant
            low <= high <= order@.len(),
            i < readings@.len(),
            idle == readings@[i as int].spec_idle_ms(),
            forall|k: int| 0 <= k < order@.len() ==> #[trigger] order@[k] < i,
            forall|j: int, k: int|
                0 <= j < k < order@.len() ==> goes_before(
                    readings@,
                    #[trigger] order@[j],
                    #[trigger] order@[k],
                ),
            forall|k: int| 0 <= k < low ==> goes_before(readings@, #[trigger] order@[k], i),
            forall|k: int|
                high <= k < order@.len() ==> goes_before(readings@, i, #[trigger] order@[k]),
        decreases high - low,
    {
        let middle: usize = low + (high - low) / 2;
        if readings[order[middle]].idle_ms() >= idle {
            low = middle + 1;
        } else {
            high = middle;
        }
    }
    low
}

/// Lists the limiters that were idle for `threshold_ms` at least, the longest idle first.
pub fn rank(readings: &Vec<Reading>, threshold_ms: u64) -> (order: Vec<usize>)
    ensures
        is_ranking(readings@, threshold_ms, order@),
{
    let mut order: Vec<usize> = Vec::new();
    let mut i: usize = 0;
    while i < readings.len()
        invariant
            i <= readings@.len(),
            forall|k: int|
                0 <= k < order@.len() ==> #[trigger] order@[k] < i && is_candidate(
                    readings@,
                    threshold_ms,
                    order@[k],
                ),
            forall|c: usize|
                c < i && #[trigger] is_candidate(readings@, threshold_ms, c) ==> order@.contains(c),
            forall|j: int, k: int|
                0 <= j < k < order@.len() ==> goes_before(
                    readings@,
                    #[trigger] order@[j],
                    #[trigger] order@[k],
                ),
        decreases readings@.len() - i,
    {
        if readings[i].idle_ms() >= threshold_ms {
            let at: usize = position_of(readings, &order, i);
            let ghost before = order@;
            order.insert(at, i);
            proof {
                assert(order@[at as int] == i);
                assert forall|c: usize|
                    c < i + 1 && #[trigger] is_candidate(
                        readings@,
                        threshold_ms,
                        c,
                    ) implies order@.contains(c) by {
                    if c < i {
                        assert(before.contains(c));
                        let k = choose|k: int| 0 <= k < before.len() && before[k] == c;
                        assert(order@[if k < at {
                            k
                        } else {
                            k + 1
                        }] == c);
                    }
                }
            }
        }
        i = i + 1;
    }
    order
}

/// There is only one ranking of given readings.
pub proof fn law_ranking_is_unique(
    readings: Seq<Reading>,
    threshold_ms: u64,
    a: Seq<usize>,
    b: Seq<usize>,
)
    requires
        is_ranking(readings, threshold_ms, a),
        is_ranking(readings, threshold_ms, b),
    ensures
        a == b,
{
    lemma_ranking_prefix(readings, threshold_ms, a, b, a.len() as int);
    lemma_ranking_prefix(readings, threshold_ms, b, a, b.len() as int);
    assert(a =~= b);
}

/// What comes first in one ranking comes first in the other.
proof fn lemma_ranking_prefix(
    readings: Seq<Reading>,
    threshold_ms: u64,
    a: Seq<usize>,
    b: Seq<usize>,
    count: int,
)
    requires
        is_ranking(readings, threshold_ms, a),
        is_ranking(readings, threshold_ms, b),
        0 <= count <= a.len(),
    ensures
        count <= b.len(),
        forall|k: int| 0 <= k < count ==> #[trigger] a[k] == b[k],
    decreases count,
{
    if count > 0 {
        let last = count - 1;
        lemma_ranking_prefix(readings, threshold_ms, a, b, last);
        let x = a[last];
        assert(is_candidate(readings, threshold_ms, x));
        let m = choose|m: int| 0 <= m < b.len() && b[m] == x;
        if m < last {
            assert(a[m] == b[m]);
            assert(goes_before(readings, a[m], a[last]));
        }
        if m > last {
            let y = b[last];
            assert(is_candidate(readings, threshold_ms, y));
            let n = choose|n: int| 0 <= n < a.len() && a[n] == y;
            assert(goes_before(readings, b[last], b[m]));
            if n < last {
                assert(a[n] == b[n]);
                assert(goes_before(readings, b[n], b[last]));
            } else if n > last {
                assert(goes_before(readings, a[last], a[n]));
            }
        }
    }
}

/// Whatever stays was idle for no longer than anything that goes.
pub proof fn law_longest_idle_go_first(
    readings: Seq<Reading>,
    threshold_ms: u64,
    order: Seq<usize>,
    count: int,
    gone: int,
    kept: int,
)
    requires
        is_ranking(readings, threshold_ms, order),
        0 <= gone < count <= kept < order.len(),
    ensures
        readings[order[gone] as int].spec_idle_ms() >= readings[order[kept] as int].spec_idle_ms(),
        readings[order[gone] as int].spec_idle_ms() >= threshold_ms,
{
    assert(goes_before(readings, order[gone], order[kept]));
    assert(is_candidate(readings, threshold_ms, order[gone]));
}

/// How long a limiter was idle when it was looked at, and whether that is too long. A limiter that
/// was used after it was looked at was not idle.
pub proof fn law_idle_time(reading: Reading, limit: u64, idle: u64, inactive: bool)
    requires
        call_ensures(Reading::idle_ms, (&reading,), idle),
        call_ensures(Reading::has_been_inactive, (&reading, limit), inactive),
    ensures
        reading.now_ms >= reading.last_ms ==> idle == reading.now_ms - reading.last_ms,
        reading.now_ms < reading.last_ms ==> idle == 0,
        inactive <==> reading.now_ms > reading.last_ms + limit,
{
}

/// A ranking lists every limiter that was idle for the given time or longer, once, and no other; one
/// that was idle for longer comes first, and of two that were idle for as long the one that was
/// looked at first.
pub proof fn law_ranking_lists_the_idle(
    readings: Seq<Reading>,
    threshold_ms: u64,
    order: Seq<usize>,
    i: usize,
    j: int,
    k: int,
)
    requires
        is_ranking(readings, threshold_ms, order),
        i < readings.len(),
        0 <= j < k < order.len(),
        threshold_ms > 0,
    ensures
        order.contains(i) <==> readings[i as int].now_ms >= readings[i as int].last_ms
            + threshold_ms,
        order[j] < readings.len(),
        order[k] < readings.len(),
        ({
            let first = readings[order[j] as int];
            let second = readings[order[k] as int];
            let idle_first = first.now_ms - first.last_ms;
            let idle_second = second.now_ms - second.last_ms;
            idle_first > idle_second || (idle_first == idle_second && order[j] < order[k])
        }),
{
    assert(is_candidate(readings, threshold_ms, order[j]));
    assert(is_candidate(readings, threshold_ms, order[k]));
    assert(goes_before(readings, order[j], order[k]));
    if order.contains(i) {
        let at = choose|at: int| 0 <= at < order.len() && order[at] == i;
        assert(is_candidate(readings, threshold_ms, order[at]));
    }
    if readings[i as int].now_ms >= readings[i as int].last_ms + threshold_ms {
        assert(is_candidate(readings, threshold_ms, i));
    }
}

} // verus!
