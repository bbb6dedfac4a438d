//! A multimap that holds a limited number of values, and hands the values of a key out in the
//! order in which they came.
use crate::cache::{
    can_number_one_more,
    cache_capacity, cache_insert, cache_len, cache_places, cache_remove, cache_shard_capacity,
    cache_with, random_hasher, PlaceCache, MAX_ENTRIES,
};
use crate::lane::{distance, index_at, Lane};
use crate::laws::law_next_value_is_first_waiting;
use crate::model::{after_next, next_value, waiting, MultimapView};
use std::collections::HashMap;
use std::hash::{BuildHasher, Hash, RandomState};
use vstd::prelude::*;
use vstd::std_specs::hash::{builds_valid_hashers, obeys_key_model};

verus! {

broadcast use vstd::std_specs::hash::group_hash_axioms;

/// The number of shards of the cache. A multimap is used by one caller at a time, so that more
/// shards would serve nothing, and would only let it evict before it is full.
const SHARDS: usize = 1;

/// `==`, `Hash` and the hasher tell the keys apart just as their mathematical equality does.
pub open spec fn keys_are_told_apart<K, S>() -> bool {
    obeys_key_model::<K>() && builds_valid_hashers::<S>()
}

/// `std::collections::HashMap::with_hasher`: an empty map that uses the hasher.
#[verifier::external_body]
fn map_with_hasher<K, S>(hasher: S) -> (map: HashMap<K, usize, S>)
    ensures
        map@.dom() == Set::<K>::empty(),
{
    HashMap::with_hasher(hasher)
}

/// The cache, in the state that the reference shows, was asked to take the place in, and answered
/// with the place that leaves for it, if any.
pub closed spec fn cache_takes_in(
    cache: &mut PlaceCache,
    place: (usize, usize),
    left: Option<(usize, usize)>,
) -> bool {
    call_ensures(cache_insert, (cache, place), left)
}

/// The cache, in the state that the reference shows, was asked to give the place up, and answered
/// whether it had it.
pub closed spec fn cache_gives_up(
    cache: &mut PlaceCache,
    place: (usize, usize),
    had: bool,
) -> bool {
    call_ensures(cache_remove, (cache, place), had)
}

/// What a cache is said to have answered is what the one call that was made on it, in that very
/// state, has returned.
pub(crate) proof fn law_cache_was_asked(
    cache: &mut PlaceCache,
    place: (usize, usize),
    left: Option<(usize, usize)>,
    had: bool,
)
    ensures
        cache_takes_in(cache, place, left) <==> call_ensures(cache_insert, (cache, place), left),
        cache_gives_up(cache, place, had) <==> call_ensures(cache_remove, (cache, place), had),
{
}

/// The states of a cache, from the first to the last, with the given number of steps.
pub open spec fn leads_from_to(
    caches: Seq<PlaceCache>,
    first: PlaceCache,
    last: PlaceCache,
    steps: int,
) -> bool {
    &&& caches.len() == steps + 1
    &&& caches[0] == first
    &&& caches[steps] == last
}

/// One number comes right after the other.
pub open spec fn is_next(at: int, next: int) -> bool {
    at + 1 == next
}

/// How many places the longest of the queues has.
spec fn longest<V>(queues: Seq<Seq<Option<V>>>) -> nat
    decreases queues.len(),
{
    if queues.len() == 0 {
        0
    } else if queues.last().len() > longest(queues.drop_last()) {
        queues.last().len()
    } else {
        longest(queues.drop_last())
    }
}

proof fn lemma_longest<V>(queues: Seq<Seq<Option<V>>>, bound: nat)
    ensures
        longest(queues) <= bound <==> forall|at: int|
            0 <= at < queues.len() ==> (#[trigger] queues[at]).len() <= bound,
    decreases queues.len(),
{
    if queues.len() > 0 {
        let others = queues.drop_last();
        lemma_longest(others, bound);
        if forall|at: int| 0 <= at < queues.len() ==> (#[trigger] queues[at]).len() <= bound {
            assert forall|at: int| 0 <= at < others.len() implies (#[trigger] others[at]).len()
                <= bound by {
                assert(queues[at].len() <= bound);
            }
        } else if longest(queues) <= bound {
            assert forall|at: int| 0 <= at < queues.len() implies (#[trigger] queues[at]).len()
                <= bound by {
                if at < others.len() {
                    assert(others[at].len() <= bound);
                }
            }
        }
    }
}

/// A concurrent multimap with limited capacity.
///
/// Every key has a lane, a queue of places. The cache holds the places of all lanes whose value
/// is still there, and decides which of them is given up when there are too many.
#[verifier::reject_recursive_types(K)]
#[verifier::reject_recursive_types(S)]
pub struct ConcurrentLimitedMultimap<K, V, S = RandomState> {
    inner: PlaceCache,
    capacity: u64,
    keys: HashMap<K, usize, S>,
    lanes: Vec<Lane<V>>,
}

impl<K, V, S> View for ConcurrentLimitedMultimap<K, V, S> {
    type V = MultimapView<K, V>;

    closed spec fn view(&self) -> MultimapView<K, V> {
        MultimapView {
            queues: Map::new(|key: K| true, |key: K| self.queue(key)),
            stored: cache_places(self.inner).len() as int,
            capacity: self.capacity as nat,
        }
    }
}

impl<K, V, S> ConcurrentLimitedMultimap<K, V, S> {
    spec fn queue(&self, key: K) -> Seq<Option<V>> {
        if self.keys@.contains_key(key) {
            self.lane_queues()[self.keys@[key] as int]
        } else {
            Seq::empty()
        }
    }

    spec fn lane_queues(&self) -> Seq<Seq<Option<V>>> {
        Seq::new(self.lanes@.len(), |lane: int| self.lanes@[lane]@)
    }

    spec fn holds(&self, place: (usize, usize)) -> bool {
        &&& place.0 < self.lanes@.len()
        &&& self.lanes@[place.0 as int].holds(place.1)
    }

    spec fn cache_wf(&self) -> bool {
        &&& cache_places(self.inner).finite()
        &&& cache_places(self.inner).len() <= self.capacity
        &&& cache_capacity(self.inner) == self.capacity
        &&& cache_shard_capacity(self.inner) == self.capacity
        &&& forall|lane: int| 0 <= lane < self.lanes@.len() ==> (#[trigger] self.lanes@[lane]).wf()
        &&& forall|place: (usize, usize)| #[trigger]
            cache_places(self.inner).contains(place) == self.holds(place)
    }

    spec fn keys_wf(&self) -> bool {
        &&& forall|key: K| #[trigger]
            self.keys@.contains_key(key) ==> self.keys@[key] < self.lanes@.len()
        &&& forall|key: K, other: K|
            #![trigger self.keys@.contains_key(key), self.keys@.contains_key(other)]
            self.keys@.contains_key(key) && self.keys@.contains_key(other) && key != other
                ==> self.keys@[key] != self.keys@[other]
        &&& forall|lane: int| 0 <= lane < self.lanes@.len() ==> #[trigger] self.is_owned(lane)
    }

    spec fn is_owned(&self, lane: int) -> bool {
        exists|key: K| #[trigger] self.has_lane(key, lane)
    }

    spec fn has_lane(&self, key: K, lane: int) -> bool {
        self.keys@.contains_key(key) && self.keys@[key] == lane
    }

    /// The cache that decides which of the values stay.
    pub closed spec fn cache(&self) -> PlaceCache {
        self.inner
    }

    /// The cache was made with one shard, to hold the given number of places, where as many are
    /// expected as given.
    pub closed spec fn cache_is_made_for(&self, items: usize, weight: u64) -> bool {
        exists|hasher: ahash::RandomState| #[trigger]
            call_ensures(cache_with, (1usize, items, weight, hasher), self.inner)
    }

    /// What a cache is said to be made for is what the one call that made it was given.
    pub(crate) proof fn law_cache_was_made(self, items: usize, weight: u64)
        ensures
            self.cache_is_made_for(items, weight) <==> exists|hasher: ahash::RandomState| #[trigger]
                call_ensures(cache_with, (1usize, items, weight, hasher), self.cache()),
    {
        assert(self.cache() == self.inner);
    }

    /// What the cache knows the place by that stands at the offset in the queue of the key.
    pub closed spec fn place_of(&self, key: K, offset: int) -> (usize, usize) {
        let lane = self.keys@[key];
        (lane, index_at(self.lanes@[lane as int].first_index(), offset))
    }

    /// What stands in a queue has the name by which the cache knew it before.
    pub open spec fn names_places_as(&self, before: Self) -> bool {
        forall|key: K, offset: int|
            before@.queues[key].len() > 0 ==> #[trigger] self.place_of(key, offset)
                == before.place_of(key, offset)
    }

    /// What gives way to a new value is settled by the cache alone: whatever comes of storing a
    /// value, it is the same if the cache names the same place as the one that leaves, or none.
    pub proof fn law_cache_settles_what_is_evicted(
        self,
        key: K,
        value: V,
        left: Option<(usize, usize)>,
        one: Self,
        other: Self,
    )
        requires
            self.wf(),
            keys_are_told_apart::<K, S>(),
            self@.capacity > 0,
            one.names_places_as(self),
            other.names_places_as(self),
            match left {
                None => {
                    &&& self@.keeps_all(key, value, one@)
                    &&& self@.keeps_all(key, value, other@)
                },
                Some(place) => {
                    &&& exists|from: K, offset: int|
                        place == #[trigger] one.place_of(from, offset) && self@.evicts(
                            key,
                            value,
                            from,
                            offset,
                            one@,
                        )
                    &&& exists|from: K, offset: int|
                        place == #[trigger] other.place_of(from, offset) && self@.evicts(
                            key,
                            value,
                            from,
                            offset,
                            other@,
                        )
                },
            },
        ensures
            one@.queues == other@.queues,
            one@.stored == other@.stored,
            left matches Some(place) ==> exists|from: K, offset: int|
                {
                    &&& place == #[trigger] self.place_of(from, offset)
                    &&& 0 <= offset < self@.queues[from].len()
                    &&& self@.queues[from][offset] is Some
                    &&& one@.queues[from][offset] is None
                },
    {
        if let Some(place) = left {
            let (from, offset) = choose|from: K, offset: int|
                place == #[trigger] one.place_of(from, offset) && self@.evicts(
                    key,
                    value,
                    from,
                    offset,
                    one@,
                );
            let (from_other, offset_other) = choose|from: K, offset: int|
                place == #[trigger] other.place_of(from, offset) && self@.evicts(
                    key,
                    value,
                    from,
                    offset,
                    other@,
                );
            assert(place == self.place_of(from, offset));
            self.law_place_is_of_one_value((from, offset), (from_other, offset_other));
        }
    }

    /// A place that the cache names is that of one key, at one offset of its queue.
    pub proof fn law_place_is_of_one_value(self, one: (K, int), other: (K, int))
        requires
            self.wf(),
            keys_are_told_apart::<K, S>(),
            0 <= one.1 < self@.queues[one.0].len(),
            0 <= other.1 < self@.queues[other.0].len(),
            self.place_of(one.0, one.1) == self.place_of(other.0, other.1),
        ensures
            one == other,
    {
        assert(self.keys@.contains_key(one.0) && self.keys@.contains_key(other.0));
        self.lanes@[self.keys@[one.0] as int].lemma_len();
        self.lanes@[self.keys@[other.0] as int].lemma_len();
    }

    spec fn queues_within(&self, bound: nat) -> bool {
        forall|lane: int|
            0 <= lane < self.lanes@.len() ==> (#[trigger] self.lanes@[lane])@.len() <= bound
    }

    /// How many places the longest of the queues has, whether or not the keys are told apart.
    pub closed spec fn longest_queue(&self) -> nat {
        longest(self.lane_queues())
    }

    proof fn lemma_longest_queue(self, bound: nat)
        ensures
            self.longest_queue() <= bound <==> self.queues_within(bound),
    {
        let queues = self.lane_queues();
        lemma_longest(queues, bound);
        if forall|at: int| 0 <= at < queues.len() ==> (#[trigger] queues[at]).len() <= bound {
            assert forall|lane: int| 0 <= lane < self.lanes@.len() implies (
            #[trigger] self.lanes@[lane])@.len() <= bound by {
                assert(queues[lane].len() <= bound);
            }
        }
    }

    /// Some queue has come full circle: it has as many places as there are indexes.
    pub open spec fn has_full_queue(&self) -> bool {
        self.longest_queue() >= usize::MAX
    }

    /// The cache holds just the places whose value is still there. If the keys are told apart,
    /// then every key has a lane of its own.
    pub closed spec fn wf(&self) -> bool {
        &&& self.cache_wf()
        &&& keys_are_told_apart::<K, S>() ==> self.keys_wf()
    }

    /// The number of stored values is that of the places whose value is still there, and the
    /// capacity is never exceeded.
    pub proof fn law_stored_within_capacity(self)
        requires
            self.wf(),
        ensures
            0 <= self@.stored <= self@.capacity,
            keys_are_told_apart::<K, S>() ==> self@.filled().finite() && self@.filled().len()
                == self@.stored,
    {
        if keys_are_told_apart::<K, S>() {
            let owner = |lane: usize| choose|key: K| self.has_lane(key, lane as int);
            let filled_at = |place: (usize, usize)|
                (
                    owner(place.0),
                    distance(self.lanes@[place.0 as int].first_index(), place.1) as int,
                );
            let places = cache_places(self.inner);
            assert forall|place: (usize, usize)| #[trigger] places.contains(place) implies {
                &&& self.holds(place)
                &&& self.has_lane(owner(place.0), place.0 as int)
                &&& self@.filled().contains(filled_at(place))
            } by {
                assert(self.is_owned(place.0 as int));
            }
            assert forall|filled: (K, int)| #[trigger] self@.filled().contains(filled) implies exists|
                place: (usize, usize),
            | #[trigger]
                places.contains(place) && filled_at(place) == filled by {
                assert(self.keys@.contains_key(filled.0));
                let lane = self.keys@[filled.0];
                let index = index_at(self.lanes@[lane as int].first_index(), filled.1);
                assert(self.has_lane(filled.0, lane as int));
                self.lanes@[lane as int].lemma_len();
                assert(self.holds((lane, index)));
                assert(places.contains((lane, index)));
                assert(self.keys@.contains_key(owner(lane)));
                assert(filled_at((lane, index)) == filled);
            }
            assert(places.map(filled_at) =~= self@.filled());
            vstd::set_lib::lemma_map_size(places, self@.filled(), filled_at);
        }
    }

    /// If the keys are told apart, then a bound on the queues is a bound on the queue of every
    /// key.
    pub proof fn law_bound_holds_of_every_queue(self, bound: nat)
        requires
            self.wf(),
            keys_are_told_apart::<K, S>(),
        ensures
            self.longest_queue() <= bound <==> forall|key: K| #[trigger]
                self@.queues[key].len() <= bound,
    {
        self.lemma_longest_queue(bound);
        if forall|key: K| #[trigger] self@.queues[key].len() <= bound {
            assert forall|lane: int| 0 <= lane < self.lanes@.len() implies (
            #[trigger] self.lanes@[lane])@.len() <= bound by {
                assert(self.is_owned(lane));
                let key = choose|key: K| self.has_lane(key, lane);
                assert(self@.queues[key].len() <= bound);
            }
        }
    }
}

impl<K, V> ConcurrentLimitedMultimap<K, V> where K: Eq + Hash {
    /// Creates a new ConcurrentLimitedMultimap with the given maximum capacity.
    pub fn new(max_capacity: usize) -> (map: Self)
        ensures
            map.wf(),
            map@.is_new(),
            map.longest_queue() == 0,
            map@.capacity == max_capacity,
            map.cache_is_made_for(max_capacity, max_capacity as u64),
    {
        Self::with_keys(max_capacity, max_capacity as u64, HashMap::new())
    }

    /// Creates a new ConcurrentLimitedMultimap which doesn't evict any items.
    pub fn unbounded() -> (map: Self)
        ensures
            map.wf(),
            map@.is_new(),
            map.longest_queue() == 0,
            map@.capacity == u64::MAX,
            map.cache_is_made_for(usize::MAX, u64::MAX),
    {
        Self::with_keys(usize::MAX, u64::MAX, HashMap::new())
    }
}

impl<K, V, S> ConcurrentLimitedMultimap<K, V, S> where K: Eq + Hash, S: BuildHasher + Clone {
    /// Creates a new ConcurrentLimitedMultimap with the given maximum capacity and hasher.
    pub fn with_hasher(max_capacity: usize, hasher: S) -> (map: Self)
        ensures
            map.wf(),
            map@.is_new(),
            map.longest_queue() == 0,
            map@.capacity == max_capacity,
            map.cache_is_made_for(max_capacity, max_capacity as u64),
    {
        Self::with_keys(max_capacity, max_capacity as u64, map_with_hasher(hasher))
    }

    /// Creates a new ConcurrentLimitedMultimap with the given hasher which doesn't evict any
    /// items.
    pub fn with_hasher_unbounded(hasher: S) -> (map: Self)
        ensures
            map.wf(),
            map@.is_new(),
            map.longest_queue() == 0,
            map@.capacity == u64::MAX,
            map.cache_is_made_for(usize::MAX, u64::MAX),
    {
        Self::with_keys(usize::MAX, u64::MAX, map_with_hasher(hasher))
    }

    fn with_keys(items: usize, capacity: u64, keys: HashMap<K, usize, S>) -> (map: Self)
        requires
            items <= capacity,
            keys@.dom() == Set::<K>::empty(),
        ensures
            map.wf(),
            map@.is_new(),
            map.longest_queue() == 0,
            map@.capacity == capacity,
            map.cache_is_made_for(items, capacity),
    {
        let make = cache_with;
        let map = ConcurrentLimitedMultimap {
            inner: make(SHARDS, items, capacity, random_hasher()),
            capacity,
            keys,
            lanes: Vec::new(),
        };
        assert(map@.queues =~= Map::new(|key: K| true, |key: K| Seq::<Option<V>>::empty()));
        map
    }

    /// Whether one more value can be stored.
    pub fn has_room(&self) -> (room: bool)
        ensures
            room == self@.has_room(),
    {
        let stored: u64 = self.len() as u64;
        let capacity: u64 = self.capacity;
        (capacity <= MAX_ENTRIES && capacity + capacity / 2 <= MAX_ENTRIES) || (stored < capacity
            && stored < MAX_ENTRIES)
    }

    /// The number of values that are stored under all keys together.
    pub fn len(&self) -> (len: usize)
        ensures
            len == self@.stored,
    {
        cache_len(&self.inner)
    }

    /// Inserts a key-value pair into the map.
    pub fn insert(&mut self, key: K, value: V)
        requires
            old(self).wf(),
            old(self)@.has_room(),
        ensures
            final(self).wf(),
            keys_are_told_apart::<K, S>() ==> old(self)@.insert_to(key, value, final(self)@),
            !old(self).has_full_queue() ==> final(self)@.stored
                == old(self)@.stored_after_insert(),
            final(self)@.stored <= old(self)@.stored_after_insert(),
            keys_are_told_apart::<K, S>() && old(self)@.queues[key].len() < usize::MAX
                ==> final(self).names_places_as(*old(self)),
            keys_are_told_apart::<K, S>() && old(self)@.queues[key].len() < usize::MAX ==> exists|
                cache: &mut PlaceCache,
                left: Option<(usize, usize)>,
            |
                {
                    &&& *cache == old(self).cache()
                    &&& *final(cache) == final(self).cache()
                    &&& #[trigger] cache_takes_in(
                        cache,
                        final(self).place_of(key, old(self)@.queues[key].len() as int),
                        left,
                    )
                    &&& match left {
                        None => old(self)@.keeps_all(key, value, final(self)@),
                        Some(place) => exists|from: K, offset: int|
                            place == #[trigger] final(self).place_of(from, offset) && old(
                                self,
                            )@.evicts(key, value, from, offset, final(self)@),
                    }
                },
            final(self).longest_queue() <= old(self).longest_queue() + 1,
            final(self)@.capacity == old(self)@.capacity,
    {
        let ghost given = key;
        let lane = self.lane_of(key);
        let ghost found = *self;
        if self.lanes[lane].is_full() {
            self.discard(lane);
            proof {
                found.lemma_longest_queue(found.longest_queue());
                found.lemma_no_longer(*self, lane as int);
                if keys_are_told_apart::<K, S>() {
                    assert(self.lanes@[lane as int]@ =~= Seq::<Option<V>>::empty());
                    found.lemma_one_queue(*self, given, lane as int);
                }
            }
        } else {
            let evicted = self.store_in(lane, value);
            proof {
                let cache = choose|cache: &mut PlaceCache|
                    *cache == found.inner && *final(cache) == self.inner && #[trigger] call_ensures(
                        cache_insert,
                        (cache, found.end_of(lane as int)),
                        evicted,
                    );
                if keys_are_told_apart::<K, S>() {
                    assert(self.keys_wf()) by {
                        assert(self.lane_queues().len() == found.lane_queues().len());
                        found.lemma_owned_lanes(*self);
                    }
                    assert forall|k: K, offset: int| old(self)@.queues[k].len() > 0 implies
                        #[trigger] self.place_of(k, offset) == old(self).place_of(k, offset) by {
                        assert(found.place_of(k, offset) == old(self).place_of(k, offset));
                        assert(found.keys@.contains_key(k));
                    }
                    match evicted {
                        None => {
                            assert(self@.queues =~= found@.pushed(given, value));
                            assert(cache_takes_in(
                                cache,
                                self.place_of(given, found@.queues[given].len() as int),
                                evicted,
                            ));
                        },
                        Some(place) => {
                            let offset = distance(
                                found.lanes@[place.0 as int].first_index(),
                                place.1,
                            ) as int;
                            assert(found.is_owned(place.0 as int));
                            let from = choose|k: K| found.has_lane(k, place.0 as int);
                            let pushed = found@.pushed(given, value);
                            assert(self@.queues =~= pushed.insert(
                                from,
                                pushed[from].update(offset, None),
                            ));
                            assert(found@.evicts(given, value, from, offset, self@));
                            assert(place == self.place_of(from, offset));
                            assert(cache_takes_in(
                                cache,
                                self.place_of(given, found@.queues[given].len() as int),
                                evicted,
                            ));
                        },
                    }
                }
            }
        }
    }

    /// Removes a key-value pair from the map.
    pub fn remove(&mut self, key: &K) -> (value: Option<V>)
        requires
            old(self).wf(),
        ensures
            final(self).wf(),
            keys_are_told_apart::<K, S>() ==> {
                &&& value == next_value(old(self)@.queues[*key])
                &&& final(self)@ == old(self)@.removed(*key)
            },
            final(self)@.stored == old(self)@.stored - (if value is Some {
                1int
            } else {
                0
            }),
            final(self).longest_queue() <= old(self).longest_queue(),
            final(self)@.capacity == old(self)@.capacity,
            keys_are_told_apart::<K, S>() ==> forall|other: K, offset: int|
                old(self)@.queues[other].len() > 0 && other != *key
                    ==> #[trigger] final(self).place_of(other, offset) == old(self).place_of(
                    other,
                    offset,
                ),
            keys_are_told_apart::<K, S>() ==> {
                let taken = old(self)@.queues[*key].len() - final(self)@.queues[*key].len();
                exists|caches: Seq<PlaceCache>|
                    {
                        &&& #[trigger] leads_from_to(
                            caches,
                            old(self).cache(),
                            final(self).cache(),
                            taken,
                        )
                        &&& forall|at: int, next: int|
                            0 <= at < taken && #[trigger] is_next(at, next) ==> exists|
                                cache: &mut PlaceCache,
                                had: bool,
                            |
                                *cache == caches[at] && *final(cache) == caches[next]
                                    && #[trigger] cache_gives_up(
                                    cache,
                                    old(self).place_of(*key, at),
                                    had,
                                ) && had == (at == taken - 1 && value is Some)
                    }
            },
    {
        match self.find_lane(key) {
            Some(lane) => {
                let value = self.take_from(lane);
                proof {
                    let first = old(self).lanes@[lane as int];
                    let taken = first@.len() - self.lanes@[lane as int]@.len();
                    let caches = choose|caches: Seq<PlaceCache>|
                        {
                            &&& #[trigger] leads_from_to(
                                caches,
                                old(self).inner,
                                self.inner,
                                taken,
                            )
                            &&& forall|at: int, next: int|
                                0 <= at < taken && #[trigger] is_next(at, next) ==> exists|
                                    cache: &mut PlaceCache,
                                    had: bool,
                                |
                                    *cache == caches[at] && *final(cache) == caches[next]
                                        && #[trigger] cache_gives_up(
                                        cache,
                                        (lane, index_at(first.first_index(), at)),
                                        had,
                                    ) && had == (at == taken - 1 && value is Some)
                        };
                    assert(leads_from_to(caches, old(self).inner, self.inner, taken));
                    if keys_are_told_apart::<K, S>() {
                        assert forall|at: int, next: int|
                            0 <= at < taken && #[trigger] is_next(at, next) implies exists|
                            cache: &mut PlaceCache,
                            had: bool,
                        |
                            *cache == caches[at] && *final(cache) == caches[next]
                                && #[trigger] cache_gives_up(
                                cache,
                                old(self).place_of(*key, at),
                                had,
                            ) && had == (at == taken - 1 && value is Some) by {
                            assert(old(self).place_of(*key, at) == (
                                lane,
                                index_at(first.first_index(), at),
                            ));
                        }
                        old(self).lemma_one_queue(*self, *key, lane as int);
                        assert(taken == old(self)@.queues[*key].len() - self@.queues[*key].len());
                        assert(leads_from_to(
                            caches,
                            old(self).cache(),
                            self.cache(),
                            old(self)@.queues[*key].len() - self@.queues[*key].len(),
                        ));
                    }
                    law_next_value_is_first_waiting(old(self).lanes@[lane as int]@);
                    old(self).lemma_no_longer(*self, lane as int);
                }
                value
            },
            None => {
                assert(keys_are_told_apart::<K, S>() ==> self@.queues =~= self@.removed(
                    *key,
                ).queues);
                assert(leads_from_to(
                    seq![self.inner],
                    old(self).cache(),
                    self.cache(),
                    old(self)@.queues[*key].len() - self@.queues[*key].len(),
                ));
                None
            },
        }
    }

    /// The lane of the key, if it has one.
    fn find_lane(&self, key: &K) -> (lane: Option<usize>)
        requires
            self.wf(),
        ensures
            keys_are_told_apart::<K, S>() ==> match lane {
                Some(lane) => self.has_lane(*key, lane as int),
                None => !self.keys@.contains_key(*key),
            },
            lane matches Some(lane) ==> lane < self.lanes@.len(),
    {
        // If the keys are not told apart, then nothing is known of the number that is found.
        match self.keys.get(key) {
            Some(lane) => if *lane < self.lanes.len() {
                Some(*lane)
            } else {
                None
            },
            None => None,
        }
    }

    /// A lane that has a key has it as long as the key keeps its lane.
    proof fn lemma_owned_lanes(self, after: Self)
        requires
            self.keys_wf(),
            forall|key: K, lane: int|
                self.has_lane(key, lane) ==> #[trigger] after.has_lane(key, lane),
        ensures
            forall|lane: int| 0 <= lane < self.lanes@.len() ==> #[trigger] after.is_owned(lane),
    {
        assert forall|lane: int| 0 <= lane < self.lanes@.len() implies #[trigger] after.is_owned(
            lane,
        ) by {
            assert(self.is_owned(lane));
            let key = choose|key: K| self.has_lane(key, lane);
            assert(after.has_lane(key, lane));
        }
    }

    /// If only one lane differs, then so does only the queue of its key.
    proof fn lemma_one_queue(self, after: Self, key: K, lane: int)
        requires
            self.keys_wf(),
            self.has_lane(key, lane),
            after.differs_in(self, lane),
        ensures
            after.keys_wf(),
            after@.queues == self@.queues.insert(key, after.lanes@[lane]@),
    {
        self.lemma_owned_lanes(after);
        assert(after@.queues =~= self@.queues.insert(key, after.lanes@[lane]@));
    }

    /// If only one lane differs, and has no more places than before, then no queue is longer.
    proof fn lemma_no_longer(self, after: Self, lane: int)
        requires
            0 <= lane < self.lanes@.len(),
            after.differs_in(self, lane),
            after.lanes@[lane]@.len() <= self.lanes@[lane]@.len(),
        ensures
            after.longest_queue() <= self.longest_queue(),
    {
        let bound = self.longest_queue();
        self.lemma_longest_queue(bound);
        after.lemma_longest_queue(bound);
        assert forall|other: int| 0 <= other < after.lanes@.len() implies (
        #[trigger] after.lanes@[other])@.len() <= bound by {
            assert(self.lanes@[other]@.len() <= bound);
        }
    }

    /// Finds the lane of the key, and makes one if there is none.
    fn lane_of(&mut self, key: K) -> (lane: usize)
        requires
            old(self).wf(),
        ensures
            final(self).wf(),
            lane < final(self).lanes@.len(),
            final(self).inner == old(self).inner,
            final(self).capacity == old(self).capacity,
            final(self).longest_queue() <= old(self).longest_queue(),
            keys_are_told_apart::<K, S>() ==> final(self).names_places_as(*old(self)),
            keys_are_told_apart::<K, S>() ==> final(self)@ == old(self)@ && final(self).has_lane(
                key,
                lane as int,
            ),
    {
        if let Some(lane) = self.find_lane(&key) {
            return lane;
        }
        let lane: usize = self.lanes.len();
        self.lanes.push(Lane::new());
        self.keys.insert(key, lane);
        proof {
            old(self).lemma_longest_queue(old(self).longest_queue());
            self.lemma_longest_queue(old(self).longest_queue());
            if keys_are_told_apart::<K, S>() {
                assert(!old(self).keys@.contains_key(key));
                old(self).lemma_owned_lanes(*self);
                assert(self.has_lane(key, lane as int));
                assert(self@.queues =~= old(self)@.queues);
            }
        }
        lane
    }

    /// Everything but the given lane is as it was, and so is the capacity.
    spec fn differs_in(&self, before: Self, lane: int) -> bool {
        &&& self.keys == before.keys
        &&& self.lanes@.len() == before.lanes@.len()
        &&& forall|other: int|
            0 <= other < self.lanes@.len() && other != lane ==> self.lanes@[other]
                == #[trigger] before.lanes@[other]
        &&& self.capacity == before.capacity
    }

    /// The place that the next value of the lane will have.
    spec fn end_of(&self, lane: int) -> (usize, usize) {
        (
            lane as usize,
            index_at(self.lanes@[lane].first_index(), self.lanes@[lane]@.len() as int),
        )
    }

    /// Takes the places of a lane off until there is one whose value is still there.
    fn take_from(&mut self, lane: usize) -> (value: Option<V>)
        requires
            old(self).cache_wf(),
            lane < old(self).lanes@.len(),
        ensures
            final(self).cache_wf(),
            final(self).differs_in(*old(self), lane as int),
            final(self).lanes@[lane as int]@ == after_next(old(self).lanes@[lane as int]@),
            value == next_value(old(self).lanes@[lane as int]@),
            ({
                let before = old(self).lanes@[lane as int];
                let taken = before@.len() - final(self).lanes@[lane as int]@.len();
                exists|caches: Seq<PlaceCache>|
                    {
                        &&& #[trigger] leads_from_to(
                            caches,
                            old(self).inner,
                            final(self).inner,
                            taken,
                        )
                        &&& forall|at: int, next: int|
                            0 <= at < taken && #[trigger] is_next(at, next) ==> exists|
                                cache: &mut PlaceCache,
                                had: bool,
                            |
                                *cache == caches[at] && *final(cache) == caches[next]
                                    && #[trigger] cache_gives_up(
                                    cache,
                                    (lane, index_at(before.first_index(), at)),
                                    had,
                                ) && had == (at == taken - 1 && value is Some)
                    }
            }),
            cache_places(final(self).inner).len() == cache_places(old(self).inner).len() - (
            if value is Some {
                1int
            } else {
                0
            }),
    {
        let ghost first = self.lanes@[lane as int];
        let ghost mut caches: Seq<PlaceCache> = seq![self.inner];
        proof {
            first.lemma_len();
        }
        while !self.lanes[lane].is_empty()
            invariant
                first == old(self).lanes@[lane as int],
                self.lanes@[lane as int]@.len() <= first@.len() <= usize::MAX,
                leads_from_to(
                    caches,
                    old(self).inner,
                    self.inner,
                    first@.len() - self.lanes@[lane as int]@.len(),
                ),
                self.lanes@[lane as int].first_index() == index_at(
                    first.first_index(),
                    first@.len() - self.lanes@[lane as int]@.len(),
                ),
                forall|at: int, next: int|
                    0 <= at < first@.len() - self.lanes@[lane as int]@.len()
                        && #[trigger] is_next(at, next)
                        ==> exists|cache: &mut PlaceCache, had: bool|
                        *cache == caches[at] && *final(cache) == caches[next]
                            && #[trigger] cache_gives_up(
                            cache,
                            (lane, index_at(first.first_index(), at)),
                            had,
                        ) && !had,
                self.cache_wf(),
                lane < self.lanes@.len(),
                self.differs_in(*old(self), lane as int),
                cache_places(self.inner).len() == cache_places(old(self).inner).len(),
                next_value(self.lanes@[lane as int]@) == next_value(
                    old(self).lanes@[lane as int]@,
                ),
                after_next(self.lanes@[lane as int]@) == after_next(
                    old(self).lanes@[lane as int]@,
                ),
            decreases self.lanes@[lane as int]@.len(),
        {
            let ghost before = *self;
            let (index, value) = self.lanes[lane].pop();
            let remove = cache_remove;
            let removed = remove(&mut self.inner, (lane, index));
            proof {
                let earlier = caches;
                caches = caches.push(self.inner);
                let asked = choose|cache: &mut PlaceCache|
                    *cache == before.inner && *final(cache) == self.inner
                        && #[trigger] call_ensures(cache_remove, (cache, (lane, index)), removed);
                assert(cache_gives_up(asked, (lane, index), removed));
                assert forall|at: int, next: int|
                    0 <= at < caches.len() - 1 && #[trigger] is_next(at, next) implies exists|
                    cache: &mut PlaceCache,
                    had: bool,
                |
                    *cache == caches[at] && *final(cache) == caches[next]
                        && #[trigger] cache_gives_up(
                        cache,
                        (lane, index_at(first.first_index(), at)),
                        had,
                    ) && had == (at == caches.len() - 2 && removed) by {
                    if at < earlier.len() - 1 {
                        assert(earlier[at] == caches[at] && earlier[next] == caches[next]);
                    }
                }
                assert forall|place: (usize, usize)| #[trigger]
                    cache_places(self.inner).contains(place) == self.holds(place) by {
                    assert(cache_places(before.inner).contains(place) == before.holds(place));
                }
                assert(before.lanes@[lane as int].holds(index) == removed);
                assert(leads_from_to(
                    caches,
                    old(self).inner,
                    self.inner,
                    first@.len() - self.lanes@[lane as int]@.len(),
                ));
                assert(caches.len() - 2 == first@.len() - self.lanes@[lane as int]@.len() - 1);
            }
            if removed {
                return value;
            }
        }
        None
    }

    /// Gives up every value of a lane.
    fn discard(&mut self, lane: usize)
        requires
            old(self).cache_wf(),
            lane < old(self).lanes@.len(),
        ensures
            final(self).cache_wf(),
            final(self).differs_in(*old(self), lane as int),
            final(self).lanes@[lane as int]@.len() == 0,
            cache_places(final(self).inner).len() == cache_places(old(self).inner).len()
                - waiting(old(self).lanes@[lane as int]@).len(),
    {
        while !self.lanes[lane].is_empty()
            invariant
                self.cache_wf(),
                lane < self.lanes@.len(),
                self.differs_in(*old(self), lane as int),
                cache_places(self.inner).len() - waiting(self.lanes@[lane as int]@).len()
                    == cache_places(old(self).inner).len() - waiting(
                    old(self).lanes@[lane as int]@,
                ).len(),
            decreases self.lanes@[lane as int]@.len(),
        {
            proof {
                law_next_value_is_first_waiting(self.lanes@[lane as int]@);
            }
            let _ = self.take_from(lane);
        }
    }

    /// Puts a value at the end of a lane, and gives up the value that the cache evicts for it.
    fn store_in(&mut self, lane: usize, value: V) -> (evicted: Option<(usize, usize)>)
        requires
            old(self).cache_wf(),
            lane < old(self).lanes@.len(),
            old(self).lanes@[lane as int]@.len() < usize::MAX,
            can_number_one_more(
                cache_places(old(self).inner).len() as int,
                old(self).capacity as nat,
            ),
        ensures
            final(self).cache_wf(),
            final(self).keys == old(self).keys,
            final(self).capacity == old(self).capacity,
            final(self).longest_queue() <= old(self).longest_queue() + 1,
            exists|cache: &mut PlaceCache|
                *cache == old(self).inner && *final(cache) == final(self).inner
                    && #[trigger] call_ensures(
                    cache_insert,
                    (cache, old(self).end_of(lane as int)),
                    evicted,
                ),
            forall|other: int|
                0 <= other < old(self).lanes@.len() ==> (
                #[trigger] final(self).lanes@[other]).first_index()
                    == old(self).lanes@[other].first_index(),
            ({
                let pushed = old(self).lanes@[lane as int]@.push(Some(value));
                let lanes = old(self).lane_queues().update(lane as int, pushed);
                let after = final(self).lane_queues();
                match evicted {
                    None => {
                        &&& after == lanes
                        &&& cache_places(final(self).inner).len() == cache_places(
                            old(self).inner,
                        ).len() + 1
                    },
                    Some(place) => {
                        let offset = distance(
                            old(self).lanes@[place.0 as int].first_index(),
                            place.1,
                        ) as int;
                        &&& place.0 < lanes.len()
                        &&& 0 <= offset < lanes[place.0 as int].len()
                        &&& lanes[place.0 as int][offset] is Some
                        &&& place.0 == lane && offset == pushed.len() - 1 ==> old(self).capacity
                            == 0
                        &&& after == lanes.update(
                            place.0 as int,
                            lanes[place.0 as int].update(offset, None),
                        )
                        &&& cache_places(old(self).inner).len() >= old(self).capacity
                        &&& cache_places(final(self).inner).len() == cache_places(
                            old(self).inner,
                        ).len()
                    },
                }
            }),
    {
        let index = self.lanes[lane].push(value);
        let ghost pushed = *self;
        let insert = cache_insert;
        let evicted = insert(&mut self.inner, (lane, index));
        proof {
            assert(old(self).end_of(lane as int) == (lane, index));
            assert forall|place: (usize, usize)| #[trigger]
                cache_places(old(self).inner).insert((lane, index)).contains(place)
                    == pushed.holds(place) by {
                assert(cache_places(old(self).inner).contains(place) == old(self).holds(place));
            }
        }
        if let Some(place) = evicted {
            assert(pushed.holds(place));
            self.lanes[place.0].evict(place.1);
        }
        proof {
            old(self).lemma_longest_queue(old(self).longest_queue());
            self.lemma_longest_queue(old(self).longest_queue() + 1);
        }
        evicted
    }
}

} // verus!
