//! The table of limiters: a `DashMap` from the key of an address to its limiter.

use crate::limiter::RateLimiter;
use ahash::RandomState;
use dashmap::DashMap;
use std::sync::Arc;
use vstd::prelude::*;

verus! {

/// `dashmap::DashMap`: a hash map in shards.
#[verifier::external_type_specification]
#[verifier::external_body]
#[verifier::reject_recursive_types(K)]
#[verifier::reject_recursive_types(V)]
#[verifier::reject_recursive_types(S)]
pub struct ExDashMap<K, V, S>(dashmap::DashMap<K, V, S>);

/// `ahash::RandomState`: the keys of a hash function.
#[verifier::external_type_specification]
#[verifier::external_body]
pub struct ExRandomState(ahash::RandomState);

/// `ahash::RandomState::new`. Its keys are random, so nothing is claimed of them.
pub assume_specification[ ahash::RandomState::new ]() -> RandomState;

/// What a table holds.
pub uninterp spec fn contents(
    table: DashMap<(u8, u128), Arc<RateLimiter>, RandomState>,
) -> Map<(u8, u128), Arc<RateLimiter>>;

/// What an empty table holds.
pub open spec fn no_limiters() -> Map<(u8, u128), Arc<RateLimiter>> {
    Map::empty()
}

/// `DashMap::with_capacity_and_hasher_and_shard_amount`: an empty table. It asks for at least two
/// shards, and for a power of two of them.
#[verifier::external_body]
pub(crate) fn empty_table(capacity: usize, hasher: RandomState, shards: usize) -> (r: DashMap<
    (u8, u128),
    Arc<RateLimiter>,
    RandomState,
>)
    requires
        capacity <= 0x1_0000,
        shards == 2 || shards == 4 || shards == 8 || shards == 16 || shards == 32 || shards == 64,
    ensures
        contents(r) == no_limiters(),
{
    DashMap::with_capacity_and_hasher_and_shard_amount(capacity, hasher, shards)
}

/// `DashMap::get`: another handle to the limiter under a key, if there is one.
#[verifier::external_body]
pub(crate) fn find(
    table: &DashMap<(u8, u128), Arc<RateLimiter>, RandomState>,
    key: (u8, u128),
) -> (r: Option<Arc<RateLimiter>>)
    ensures
        r == (if contents(*table).contains_key(key) {
            Some(contents(*table)[key])
        } else {
            None
        }),
{
    match table.get(&key) {
        Some(entry) => Some(Arc::clone(entry.value())),
        None => None,
    }
}

/// `DashMap::entry` with `Entry::or_insert`: the limiter is kept under the key, unless there is one
/// already. Returns another handle to the one that is there now.
#[verifier::external_body]
pub(crate) fn find_or_put(
    table: &mut DashMap<(u8, u128), Arc<RateLimiter>, RandomState>,
    key: (u8, u128),
    limiter: Arc<RateLimiter>,
) -> (r: Arc<RateLimiter>)
    ensures
        r == (if contents(*old(table)).contains_key(key) {
            contents(*old(table))[key]
        } else {
            limiter
        }),
        contents(*final(table)) == (if contents(*old(table)).contains_key(key) {
            contents(*old(table))
        } else {
            contents(*old(table)).insert(key, limiter)
        }),
{
    Arc::clone(table.entry(key).or_insert(limiter).value())
}

/// `DashMap::remove`: nothing is kept under the key any more. Tells whether something was.
#[verifier::external_body]
pub(crate) fn take_out(
    table: &mut DashMap<(u8, u128), Arc<RateLimiter>, RandomState>,
    key: (u8, u128),
) -> (r: bool)
    ensures
        r == contents(*old(table)).contains_key(key),
        contents(*final(table)) == contents(*old(table)).remove(key),
{
    table.remove(&key).is_some()
}

/// `DashMap::iter`: every entry once, in an order of the map's own.
#[verifier::external_body]
pub(crate) fn entries(table: &DashMap<(u8, u128), Arc<RateLimiter>, RandomState>) -> (r: Vec<
    ((u8, u128), Arc<RateLimiter>),
>)
    ensures
        forall|i: int|
            0 <= i < r@.len() ==> contents(*table).contains_key((#[trigger] r@[i]).0) && contents(
                *table,
            )[r@[i].0] == r@[i].1,
        forall|i: int, j: int| 0 <= i < j < r@.len() ==> r@[i].0 != r@[j].0,
        forall|key: (u8, u128)| #[trigger]
            contents(*table).contains_key(key) ==> exists|i: int|
                0 <= i < r@.len() && (#[trigger] r@[i]).0 == key,
{
    table.iter().map(|entry| (*entry.key(), Arc::clone(entry.value()))).collect()
}

/// `DashMap::len`: the number of entries.
#[verifier::external_body]
pub(crate) fn count(table: &DashMap<(u8, u128), Arc<RateLimiter>, RandomState>) -> (r: usize)
    ensures
        r == contents(*table).len(),
{
    table.len()
}

/// `DashMap::clear`: no entry is left.
#[verifier::external_body]
pub(crate) fn empty_out(table: &mut DashMap<(u8, u128), Arc<RateLimiter>, RandomState>)
    ensures
        contents(*final(table)) == no_limiters(),
{
    table.clear();
}

/// `DashMap::capacity`: entries that fit before the map allocates again. It depends on the
/// allocator, so nothing is claimed of it.
#[verifier::external_body]
pub(crate) fn room(table: &DashMap<(u8, u128), Arc<RateLimiter>, RandomState>) -> usize {
    table.capacity()
}

/// `DashMap::shrink_to_fit`: gives memory back and keeps every entry.
#[verifier::external_body]
pub(crate) fn give_back(table: &mut DashMap<(u8, u128), Arc<RateLimiter>, RandomState>)
    ensures
        contents(*final(table)) == contents(*old(table)),
{
    table.shrink_to_fit();
}

} // verus!
