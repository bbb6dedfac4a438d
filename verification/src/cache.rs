//! The bounded cache that decides which of the stored values stay.
//!
//! The cache itself holds places only, not the values: a place is the number of a lane and an
//! index in it. A place is put into the cache and taken out of it, but never looked up, so that
//! none is ever marked as recently used.
use quick_cache::sync::{Cache, DefaultLifecycle};
use quick_cache::{OptionsBuilder, UnitWeighter};
use std::sync::Arc;
use vstd::prelude::*;

verus! {

/// `quick_cache::sync::Cache`, of which only the names below are known.
#[verifier::external_type_specification]
#[verifier::external_body]
#[verifier::reject_recursive_types(Key)]
#[verifier::reject_recursive_types(Val)]
#[verifier::reject_recursive_types(We)]
#[verifier::reject_recursive_types(B)]
#[verifier::reject_recursive_types(L)]
pub struct ExCache<Key, Val, We, B, L>(quick_cache::sync::Cache<Key, Val, We, B, L>);

/// `quick_cache::sync::DefaultLifecycle`, which a cache carries.
#[verifier::external_type_specification]
#[verifier::external_body]
#[verifier::reject_recursive_types(Key)]
#[verifier::reject_recursive_types(Val)]
pub struct ExDefaultLifecycle<Key, Val>(quick_cache::sync::DefaultLifecycle<Key, Val>);

/// `quick_cache::UnitWeighter`, by which every place weighs one.
#[verifier::external_type_specification]
#[verifier::external_body]
pub struct ExUnitWeighter(quick_cache::UnitWeighter);

/// `ahash::RandomState`, the hasher of a cache.
#[verifier::external_type_specification]
#[verifier::external_body]
pub struct ExRandomState(ahash::RandomState);

/// A cache of places. An entry carries a value with a destructor because the cache hands back
/// evicted entries only if there is something to drop in them.
pub type PlaceCache = Cache<(usize, usize), Arc<()>, UnitWeighter, ahash::RandomState>;

/// How many entries a shard of a cache can number.
pub const MAX_ENTRIES: u64 = 0xffff_fffe;

/// A cache with one shard, of the given capacity, that stores the given number of places can
/// number one more.
///
/// A shard numbers the places that it holds and those that it remembers to have evicted, which
/// are half as many as its capacity at most. So either the numbers never run out, or they last
/// as long as one is left and nothing is evicted. How many evicted places are remembered, and
/// so how long the numbers last otherwise, a cache does not tell.
pub open spec fn can_number_one_more(stored: int, capacity: nat) -> bool {
    ||| capacity + capacity / 2 <= MAX_ENTRIES
    ||| stored < capacity && stored < MAX_ENTRIES
}

/// The places that a cache holds.
pub uninterp spec fn cache_places(cache: PlaceCache) -> Set<(usize, usize)>;

/// How many places all shards of a cache can hold together, as `Cache::capacity` tells.
pub uninterp spec fn cache_capacity(cache: PlaceCache) -> nat;

/// How many places one shard of a cache can hold, as `Cache::shard_capacity` tells.
pub uninterp spec fn cache_shard_capacity(cache: PlaceCache) -> nat;

/// `ahash::RandomState::new`: a hasher with random keys, of which nothing is claimed.
#[verifier::external_body]
pub(crate) fn random_hasher() -> (hasher: ahash::RandomState) {
    ahash::RandomState::new()
}

/// `quick_cache::sync::Cache::with_options`: an empty cache with the given number of shards, for
/// a total weight of `weight`, where `items` places are expected.
///
/// The shards share the weight evenly, so that one shard has all of it. No more items may be
/// expected than fit in, since half as many evicted places are remembered.
#[verifier::external_body]
pub(crate) fn cache_with(
    shards: usize,
    items: usize,
    weight: u64,
    hasher: ahash::RandomState,
) -> (cache: PlaceCache)
    requires
        shards == 1,
        items <= weight,
    ensures
        cache_places(cache) == Set::<(usize, usize)>::empty(),
        cache_shard_capacity(cache) == weight,
        cache_capacity(cache) == weight,
{
    Cache::with_options(
        OptionsBuilder::new()
            .shards(shards)
            .estimated_items_capacity(items)
            .weight_capacity(weight)
            .build()
            .unwrap(),
        UnitWeighter,
        hasher,
        DefaultLifecycle::default(),
    )
}

/// `quick_cache::sync::Cache::insert_with_lifecycle`: puts a new place into a cache that has one
/// shard, and returns the place that had to leave for it, if any.
///
/// At most one place leaves, since every place weighs one and none is marked as recently used.
/// It leaves only if the cache is full, and it is not the new place, unless nothing fits into
/// the cache at all. Which place leaves is up to the cache, and is not stated.
#[verifier::external_body]
pub(crate) fn cache_insert(cache: &mut PlaceCache, place: (usize, usize)) -> (evicted: Option<
    (usize, usize),
>)
    requires
        !cache_places(*old(cache)).contains(place),
        cache_shard_capacity(*old(cache)) == cache_capacity(*old(cache)),
        can_number_one_more(cache_places(*old(cache)).len() as int, cache_capacity(*old(cache))),
    ensures
        match evicted {
            None => cache_places(*final(cache)) == cache_places(*old(cache)).insert(place),
            Some(left) => {
                &&& cache_places(*old(cache)).insert(place).contains(left)
                &&& cache_places(*final(cache)) == cache_places(*old(cache)).insert(place).remove(
                    left,
                )
                &&& cache_places(*old(cache)).len() >= cache_capacity(*old(cache))
                &&& left == place ==> cache_capacity(*old(cache)) == 0
            },
        },
        cache_places(*final(cache)).len() <= cache_capacity(*final(cache)),
        cache_capacity(*final(cache)) == cache_capacity(*old(cache)),
        cache_shard_capacity(*final(cache)) == cache_shard_capacity(*old(cache)),
{
    let [left, _] = cache.insert_with_lifecycle(place, Arc::new(()));
    left.map(|entry| entry.0)
}

/// `quick_cache::sync::Cache::remove`: takes a place out of the cache, and returns whether it
/// was there.
#[verifier::external_body]
pub(crate) fn cache_remove(cache: &mut PlaceCache, place: (usize, usize)) -> (removed: bool)
    ensures
        removed == cache_places(*old(cache)).contains(place),
        cache_places(*final(cache)) == cache_places(*old(cache)).remove(place),
        cache_capacity(*final(cache)) == cache_capacity(*old(cache)),
        cache_shard_capacity(*final(cache)) == cache_shard_capacity(*old(cache)),
{
    cache.remove(&place).is_some()
}

/// `quick_cache::sync::Cache::len`: the number of places in the cache.
#[verifier::external_body]
pub(crate) fn cache_len(cache: &PlaceCache) -> (len: usize)
    ensures
        len == cache_places(*cache).len(),
{
    cache.len()
}

} // verus!
