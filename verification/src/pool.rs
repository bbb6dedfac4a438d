//! The connection pool.
use crate::cache::PlaceCache;
use crate::concurrent_limited_multimap::{cache_takes_in, ConcurrentLimitedMultimap};
use crate::limits::{Limit, LimitView, LocalLimits};
use crate::model::{next_value, MultimapView};
use crate::semaphore::max_permits;
use std::hash::Hash;
use vstd::prelude::*;
use vstd::std_specs::hash::obeys_key_model;

verus! {

broadcast use vstd::std_specs::hash::group_hash_axioms;

/// What a pool holds, and what it has lent out.
#[verifier::reject_recursive_types(K)]
pub struct PoolView<K, I> {
    /// The values that wait to be pulled.
    pub idle: MultimapView<K, I>,
    /// The global limit, if there is one.
    pub global: Option<LimitView>,
    /// The local limits, by their indexes.
    pub local: Map<usize, LimitView>,
}

/// What a pull waits for.
pub enum Stage {
    /// A permit of the local limit with this index.
    Local(usize),
    /// A permit of the global limit, while a permit of this local limit, if any, is held.
    Global(Option<usize>),
}

/// A pull that stands in line for a permit of a limit.
pub struct Waiter<K> {
    key: K,
    stage: Stage,
    ticket: usize,
}

impl<K> Waiter<K> {
    /// The key that is pulled for.
    pub closed spec fn key(&self) -> K {
        self.key
    }

    /// What the pull waits for.
    pub closed spec fn stage(&self) -> Stage {
        self.stage
    }

    /// The ticket by which the pull stands in line.
    pub closed spec fn ticket(&self) -> usize {
        self.ticket
    }

    /// What the pull waits for.
    pub fn waits_for(&self) -> (stage: &Stage)
        ensures
            *stage == self.stage(),
    {
        &self.stage
    }
}

/// An item in the connection pool.
pub struct Item<K, I> {
    key: K,
    inner: Option<I>,
    guard: bool,
    local_guard: Option<usize>,
}

/// What comes of a pull that may have to wait.
pub enum Pull<K, I> {
    /// The item is pulled.
    Ready(Item<K, I>),
    /// A limit is reached.
    Wait(Waiter<K>),
}

/// A keep-alive connection pool.
#[verifier::reject_recursive_types(K)]
pub struct Pool<K, I> {
    inner: ConcurrentLimitedMultimap<K, I>,
    local_limits: LocalLimits,
    semaphore: Option<Limit>,
}

impl<K, I> PoolView<K, I> {
    /// Nothing is stored, nothing is lent out, and no local limit is set.
    pub open spec fn is_new(self) -> bool {
        &&& self.idle.is_new()
        &&& self.global matches Some(limit) ==> limit == LimitView::unused(limit.limit)
        &&& self.local == Map::<usize, LimitView>::empty()
    }

    /// The limits are kept to, and no more is stored than the capacity allows.
    pub open spec fn within_limits(self) -> bool {
        &&& self.global is Some ==> self.global->0.is_kept()
        &&& forall|index: usize| #[trigger]
            self.local.contains_key(index) ==> self.local[index].is_kept()
        &&& self.idle.stored <= self.idle.capacity
    }

    /// The global limit is reached.
    pub open spec fn global_reached(self) -> bool {
        self.global is Some && self.global->0.is_reached()
    }

    /// The local limit that applies: that with the index, if there is one.
    pub open spec fn applying(self, index: Option<usize>) -> Option<usize> {
        if index is Some && self.local.contains_key(index->0) {
            index
        } else {
            None
        }
    }

    /// A local limit applies and is reached.
    pub open spec fn local_reached(self, index: Option<usize>) -> bool {
        self.applying(index) is Some && self.local[index->0].is_reached()
    }

    /// The global limit has become another.
    pub open spec fn with_global(self, limit: LimitView) -> Self {
        PoolView { global: Some(limit), ..self }
    }

    /// The local limit with the index has become another.
    pub open spec fn with_local(self, index: usize, limit: LimitView) -> Self {
        PoolView { local: self.local.insert(index, limit), ..self }
    }

    /// A permit of the global limit, if there is one, is lent out.
    pub open spec fn global_acquired(self) -> Self {
        match self.global {
            Some(limit) => self.with_global(limit.acquired()),
            None => self,
        }
    }

    /// A permit of the local limit, if any, is lent out.
    pub open spec fn local_acquired(self, limit: Option<usize>) -> Self {
        match limit {
            Some(index) => self.with_local(index, self.local[index].acquired()),
            None => self,
        }
    }

    /// A permit of the global limit has come back, if one was held.
    pub open spec fn global_released(self, held: bool) -> Self {
        if held && self.global is Some {
            self.with_global(self.global->0.released())
        } else {
            self
        }
    }

    /// A permit of the local limit, if any, has come back.
    pub open spec fn local_released(self, limit: Option<usize>) -> Self {
        match limit {
            Some(index) => self.with_local(index, self.local[index].released()),
            None => self,
        }
    }

    /// A permit of the local limit, if any, is lent out.
    pub open spec fn has_lent_local(self, limit: Option<usize>) -> bool {
        limit is Some ==> self.local.contains_key(limit->0) && self.local[limit->0].lent > 0
    }

    /// The permits that the item holds are lent out.
    pub open spec fn has_lent(self, item: Item<K, I>) -> bool {
        &&& item.holds_global() ==> self.global is Some && self.global->0.lent > 0
        &&& self.has_lent_local(item.local_limit())
    }

    /// Nothing but the values that wait differs, nor does what they are bounded by.
    pub open spec fn same_but_idle(self, other: Self) -> bool {
        &&& self.global == other.global
        &&& self.local == other.local
        &&& self.idle.capacity == other.idle.capacity
    }

    /// The pull stands in line, and holds the permit of a local limit that its stage tells.
    pub open spec fn awaits(self, waiter: Waiter<K>) -> bool {
        match waiter.stage() {
            Stage::Local(index) => {
                &&& self.local.contains_key(index)
                &&& self.local[index].line.contains(waiter.ticket())
            },
            Stage::Global(local) => {
                &&& self.global is Some
                &&& self.global->0.line.contains(waiter.ticket())
                &&& self.has_lent_local(local)
            },
        }
    }

    /// The item is lent out, now that its permits are: one of the global limit, if there is one,
    /// and one of the local limit, if any. It has the next value that waited under the key, if
    /// one did.
    pub open spec fn lends(
        self,
        key: K,
        local: Option<usize>,
        item: Item<K, I>,
        after: Self,
    ) -> bool {
        &&& item.key() == key
        &&& item.holds_global() == (self.global is Some)
        &&& item.local_limit() == local
        &&& after.same_but_idle(self)
        &&& after.idle.stored == self.idle.stored - (if item.value() is Some {
            1int
        } else {
            0
        })
        &&& obeys_key_model::<K>() ==> {
            &&& item.value() == next_value(self.idle.queues[key])
            &&& after.idle == self.idle.removed(key)
        }
    }

    /// What comes of a pull that holds a permit of the local limit, if any: it stands in line
    /// if the global limit is reached, and is ready otherwise.
    pub open spec fn grants(
        self,
        key: K,
        local: Option<usize>,
        pull: Pull<K, I>,
        after: Self,
    ) -> bool {
        if self.global_reached() {
            &&& pull matches Pull::Wait(waiter)
            &&& waiter.key() == key
            &&& waiter.stage() == Stage::Global(local)
            &&& !self.global->0.line.contains(waiter.ticket())
            &&& after == self.with_global(self.global->0.joined(waiter.ticket()))
        } else {
            &&& pull matches Pull::Ready(item)
            &&& self.global_acquired().lends(key, local, item, after)
        }
    }

    /// What comes of a pull from its start: it stands in line if the local limit is reached,
    /// and goes on with a permit of it otherwise.
    pub open spec fn pulls(
        self,
        key: K,
        index: Option<usize>,
        pull: Pull<K, I>,
        after: Self,
    ) -> bool {
        if self.local_reached(index) {
            &&& pull matches Pull::Wait(waiter)
            &&& waiter.key() == key
            &&& waiter.stage() == Stage::Local(index->0)
            &&& !self.local[index->0].line.contains(waiter.ticket())
            &&& after == self.with_local(index->0, self.local[index->0].joined(waiter.ticket()))
        } else {
            self.local_acquired(self.applying(index)).grants(
                key,
                self.applying(index),
                pull,
                after,
            )
        }
    }

    /// What comes of a pull that waits for the global limit only: it is refused if a local limit
    /// is reached.
    pub open spec fn pulls_unless_local_reached(
        self,
        key: K,
        index: Option<usize>,
        pull: Option<Pull<K, I>>,
        after: Self,
    ) -> bool {
        match pull {
            None => self.local_reached(index) && after == self,
            Some(pull) => !self.local_reached(index) && self.pulls(key, index, pull, after),
        }
    }

    /// What comes of a pull that does not wait: it is refused if a limit is reached.
    pub open spec fn tries(
        self,
        key: K,
        index: Option<usize>,
        item: Option<Item<K, I>>,
        after: Self,
    ) -> bool {
        match item {
            None => (self.local_reached(index) || self.global_reached()) && after == self,
            Some(item) => {
                &&& !self.local_reached(index)
                &&& !self.global_reached()
                &&& self.pulls(key, index, Pull::Ready(item), after)
            },
        }
    }

    /// What comes of a pull that stands in line: it goes on with a permit if one is due to it,
    /// and waits on otherwise.
    pub open spec fn resumes(self, waiter: Waiter<K>, pull: Pull<K, I>, after: Self) -> bool {
        match waiter.stage() {
            Stage::Local(index) => if self.local[index].is_due(waiter.ticket()) {
                self.with_local(index, self.local[index].admitted(waiter.ticket())).grants(
                    waiter.key(),
                    Some(index),
                    pull,
                    after,
                )
            } else {
                pull == Pull::<K, I>::Wait(waiter) && after == self
            },
            Stage::Global(local) => if self.global->0.is_due(waiter.ticket()) {
                &&& pull matches Pull::Ready(item)
                &&& self.with_global(self.global->0.admitted(waiter.ticket())).lends(
                    waiter.key(),
                    local,
                    item,
                    after,
                )
            } else {
                pull == Pull::<K, I>::Wait(waiter) && after == self
            },
        }
    }

    /// The pull has left the line, and has given back the permit that it held, if any.
    pub open spec fn cancelled(self, waiter: Waiter<K>) -> Self {
        match waiter.stage() {
            Stage::Local(index) => self.with_local(
                index,
                self.local[index].left(waiter.ticket()),
            ),
            Stage::Global(local) => self.with_global(
                self.global->0.left(waiter.ticket()),
            ).local_released(local),
        }
    }

    /// What comes of an item that is returned: its value, if it has one, is stored, and its
    /// permits have come back.
    pub open spec fn takes_back(self, item: Item<K, I>, after: Self) -> bool {
        &&& after.same_but_idle(self.permits_released(item))
        &&& match item.value() {
            Some(value) => obeys_key_model::<K>() ==> self.idle.insert_to(
                item.key(),
                value,
                after.idle,
            ),
            None => after.idle == self.idle,
        }
    }

    /// A local limit that is new has been added, under the next index.
    pub open spec fn limits_locally(self, limit: nat, index: usize, after: Self) -> bool {
        &&& !self.local.contains_key(index)
        &&& index == self.local.len()
        &&& after == self.with_local(index, LimitView::unused(limit))
    }

    /// The permits that the item held have come back.
    pub open spec fn permits_released(self, item: Item<K, I>) -> Self {
        self.global_released(item.holds_global()).local_released(item.local_limit())
    }
}

impl<K, I> Item<K, I> {
    /// The key that the item was pulled for.
    pub closed spec fn key(&self) -> K {
        self.key
    }

    /// The value of the item.
    pub closed spec fn value(&self) -> Option<I> {
        self.inner
    }

    /// Whether the item holds a permit of the global limit.
    pub closed spec fn holds_global(&self) -> bool {
        self.guard
    }

    /// The local limit that the item holds a permit of.
    pub closed spec fn local_limit(&self) -> Option<usize> {
        self.local_guard
    }

    /// Nothing but the value differs.
    pub open spec fn same_but_value(&self, other: Self) -> bool {
        &&& self.key() == other.key()
        &&& self.holds_global() == other.holds_global()
        &&& self.local_limit() == other.local_limit()
    }
}

/// The multimap, in the state that the reference shows, was asked once for the next value of the
/// key, and answered with the value.
pub closed spec fn idle_values_give<K: Eq + Hash, I>(
    values: &mut ConcurrentLimitedMultimap<K, I>,
    key: K,
    value: Option<I>,
) -> bool {
    call_ensures(ConcurrentLimitedMultimap::<K, I>::remove, (values, &key), value)
}

/// What the values that wait are said to have given is what the one call that was made on them, in
/// that very state, has returned.
pub(crate) proof fn law_idle_values_were_asked<K: Eq + Hash, I>(
    values: &mut ConcurrentLimitedMultimap<K, I>,
    key: K,
    value: Option<I>,
)
    ensures
        idle_values_give(values, key, value) <==> call_ensures(
            ConcurrentLimitedMultimap::<K, I>::remove,
            (values, &key),
            value,
        ),
{
}

impl<K, I> View for Pool<K, I> {
    type V = PoolView<K, I>;

    closed spec fn view(&self) -> PoolView<K, I> {
        PoolView {
            idle: self.inner@,
            global: match self.semaphore {
                Some(limit) => Some(limit@),
                None => None,
            },
            local: self.local_limits@,
        }
    }
}

impl<K, I> Pool<K, I> {
    /// The parts of the pool are well-formed.
    pub closed spec fn wf(&self) -> bool {
        &&& self.inner.wf()
        &&& self.local_limits.wf()
        &&& self.semaphore matches Some(limit) ==> limit.wf()
    }

    /// A pool always keeps to its limits: neither the global limit nor a local limit is ever
    /// exceeded, nor is the number of values that the pool has room for.
    pub proof fn law_limits_are_kept(self)
        requires
            self.wf(),
        ensures
            self@.within_limits(),
            self@.global is Some ==> self@.global->0.lent <= self@.global->0.limit,
            forall|index: usize| #[trigger]
                self@.local.contains_key(index) ==> self@.local[index].lent
                    <= self@.local[index].limit,
            0 <= self@.idle.stored <= self@.idle.capacity,
    {
        self.inner.law_stored_within_capacity();
        self.local_limits.lemma_are_kept();
        if let Some(limit) = self.semaphore {
            limit.lemma_is_kept();
        }
    }

    /// If the keys are told apart, then a bound on the queues is a bound on the queue of every
    /// key.
    pub proof fn law_bound_holds_of_every_queue(self, bound: nat)
        requires
            self.wf(),
            obeys_key_model::<K>(),
        ensures
            self.longest_queue() <= bound <==> forall|key: K| #[trigger]
                self@.idle.queues[key].len() <= bound,
    {
        self.inner.law_bound_holds_of_every_queue(bound);
        assert(self@.idle == self.inner@);
    }

    /// The multimap of the values that wait.
    pub closed spec fn idle_values(&self) -> ConcurrentLimitedMultimap<K, I> {
        self.inner
    }

    /// How many places the longest of the queues of values that wait has, whether or not the
    /// keys are told apart.
    pub closed spec fn longest_queue(&self) -> nat {
        self.inner.longest_queue()
    }

    /// Some queue of values that wait has come full circle: it has as many places as there are
    /// indexes.
    pub open spec fn has_full_queue(&self) -> bool {
        self.longest_queue() >= usize::MAX
    }
}

impl<K, I> Pool<K, I> where K: Eq + Hash {
    /// Creates a new connection pool with the given limit.
    pub fn new(capacity: usize) -> (pool: Self)
        requires
            capacity <= max_permits(),
        ensures
            pool.wf(),
            pool@.is_new(),
            pool.longest_queue() == 0,
            pool@.idle.capacity == capacity,
            pool.idle_values().cache_is_made_for(capacity, capacity as u64),
            pool@.global == Some(LimitView::unused(capacity as nat)),
    {
        Pool {
            inner: ConcurrentLimitedMultimap::new(capacity),
            semaphore: Some(Limit::new(capacity)),
            local_limits: LocalLimits::new(),
        }
    }

    /// Creates a new connection pool with no limit.
    pub fn new_unbounded() -> (pool: Self)
        ensures
            pool.wf(),
            pool@.is_new(),
            pool.longest_queue() == 0,
            pool@.idle.capacity == u64::MAX,
            pool.idle_values().cache_is_made_for(usize::MAX, u64::MAX),
            pool@.global is None,
    {
        Pool {
            inner: ConcurrentLimitedMultimap::unbounded(),
            semaphore: None,
            local_limits: LocalLimits::new(),
        }
    }

    /// Sets a local limit for a key. Returns the index for the local limit.
    pub fn set_local_limit(&mut self, limit: usize) -> (index: usize)
        requires
            old(self).wf(),
            limit <= max_permits(),
        ensures
            final(self).wf(),
            final(self).longest_queue() <= old(self).longest_queue(),
            final(self).idle_values() == old(self).idle_values(),
            old(self)@.limits_locally(limit as nat, index, final(self)@),
    {
        self.local_limits.insert(limit)
    }

    /// Takes a permit of the local limit with the index, if there is one. Returns the limit
    /// that applies, or `None` if it is reached.
    fn acquire_local(&mut self, index: Option<usize>) -> (guard: Option<Option<usize>>)
        requires
            old(self).wf(),
        ensures
            final(self).wf(),
            final(self).inner == old(self).inner,
            match guard {
                None => old(self)@.local_reached(index) && final(self)@ == old(self)@,
                Some(local) => {
                    &&& !old(self)@.local_reached(index)
                    &&& local == old(self)@.applying(index)
                    &&& final(self)@ == old(self)@.local_acquired(local)
                },
            },
    {
        match index {
            Some(index) => {
                if self.local_limits.contains(index) {
                    if self.local_limits.try_acquire(index) {
                        Some(Some(index))
                    } else {
                        None
                    }
                } else {
                    Some(None)
                }
            },
            None => Some(None),
        }
    }

    /// Takes a permit of the global limit, if there is one. Returns whether there is one, or
    /// `None` if it is reached.
    fn acquire_global(&mut self) -> (guard: Option<bool>)
        requires
            old(self).wf(),
        ensures
            final(self).wf(),
            final(self).inner == old(self).inner,
            match guard {
                None => old(self)@.global_reached() && final(self)@ == old(self)@,
                Some(held) => {
                    &&& !old(self)@.global_reached()
                    &&& held == (old(self)@.global is Some)
                    &&& final(self)@ == old(self)@.global_acquired()
                },
            },
    {
        match &mut self.semaphore {
            Some(limit) => {
                if limit.try_acquire() {
                    Some(true)
                } else {
                    None
                }
            },
            None => Some(false),
        }
    }

    /// Gives a permit of the local limit back, if one was held.
    fn release_local(&mut self, local: Option<usize>)
        requires
            old(self).wf(),
            old(self)@.has_lent_local(local),
        ensures
            final(self).wf(),
            final(self).inner == old(self).inner,
            final(self)@ == old(self)@.local_released(local),
    {
        if let Some(index) = local {
            self.local_limits.release(index);
        }
    }

    /// Lends an item out whose permits have been taken.
    fn lend(&mut self, key: K, guard: bool, local_guard: Option<usize>) -> (item: Item<K, I>)
        requires
            old(self).wf(),
        ensures
            final(self).wf(),
            final(self).longest_queue() <= old(self).longest_queue(),
            exists|values: &mut ConcurrentLimitedMultimap<K, I>|
                *values == old(self).idle_values() && *final(values) == final(self).idle_values()
                    && #[trigger] idle_values_give(values, key, item.value()),
            item.key() == key,
            item.holds_global() == guard,
            item.local_limit() == local_guard,
            final(self)@.same_but_idle(old(self)@),
            final(self)@.idle.stored == old(self)@.idle.stored - (if item.value() is Some {
                1int
            } else {
                0
            }),
            obeys_key_model::<K>() ==> {
                &&& item.value() == next_value(old(self)@.idle.queues[key])
                &&& final(self)@.idle == old(self)@.idle.removed(key)
            },
    {
        let remove = ConcurrentLimitedMultimap::<K, I>::remove;
        let ghost before = self.inner;
        let inner = remove(&mut self.inner, &key);
        proof {
            let values = choose|values: &mut ConcurrentLimitedMultimap<K, I>|
                *values == before && *final(values) == self.inner && #[trigger] call_ensures(
                    ConcurrentLimitedMultimap::<K, I>::remove,
                    (values, &key),
                    inner,
                );
            assert(idle_values_give(values, key, inner));
        }
        Item { key, inner, guard, local_guard }
    }

    /// Stands in line for a permit of the global limit, and returns the ticket for it.
    fn join_global(&mut self) -> (ticket: usize)
        requires
            old(self).wf(),
            old(self)@.global is Some,
        ensures
            final(self).wf(),
            final(self).inner == old(self).inner,
            !old(self)@.global->0.line.contains(ticket),
            final(self)@ == old(self)@.with_global(old(self)@.global->0.joined(ticket)),
    {
        match &mut self.semaphore {
            Some(limit) => limit.join(),
            None => 0,
        }
    }

    /// Leaves the line of the global limit with a permit, if one is due to the ticket, and
    /// returns whether it is.
    fn admit_global(&mut self, ticket: usize) -> (admitted: bool)
        requires
            old(self).wf(),
            old(self)@.global is Some,
        ensures
            final(self).wf(),
            final(self).inner == old(self).inner,
            admitted == old(self)@.global->0.is_due(ticket),
            final(self)@ == if admitted {
                old(self)@.with_global(old(self)@.global->0.admitted(ticket))
            } else {
                old(self)@
            },
    {
        match &mut self.semaphore {
            Some(limit) => limit.try_admit(ticket),
            None => false,
        }
    }

    /// Goes on with a pull that holds a permit of the local limit, if any.
    fn grant(&mut self, key: K, local: Option<usize>) -> (pull: Pull<K, I>)
        requires
            old(self).wf(),
        ensures
            final(self).wf(),
            final(self).longest_queue() <= old(self).longest_queue(),
            pull is Ready ==> exists|values: &mut ConcurrentLimitedMultimap<K, I>|
                *values == old(self).idle_values() && *final(values) == final(self).idle_values()
                    && #[trigger] idle_values_give(values, key, pull->Ready_0.value()),
            pull is Wait ==> final(self).idle_values() == old(self).idle_values(),
            old(self)@.grants(key, local, pull, final(self)@),
    {
        match self.acquire_global() {
            Some(guard) => Pull::Ready(self.lend(key, guard, local)),
            None => {
                let ticket = self.join_global();
                Pull::Wait(Waiter { key, stage: Stage::Global(local), ticket })
            },
        }
    }

    /// Pulls an item from the pool.
    /// This method waits, when the global limit is reached.
    pub fn pull(&mut self, key: K) -> (pull: Pull<K, I>)
        requires
            old(self).wf(),
        ensures
            final(self).wf(),
            final(self).longest_queue() <= old(self).longest_queue(),
            pull is Ready ==> exists|values: &mut ConcurrentLimitedMultimap<K, I>|
                *values == old(self).idle_values() && *final(values) == final(self).idle_values()
                    && #[trigger] idle_values_give(values, key, pull->Ready_0.value()),
            pull is Wait ==> final(self).idle_values() == old(self).idle_values(),
            old(self)@.grants(key, None, pull, final(self)@),
            old(self)@.pulls(key, None, pull, final(self)@),
            pull is Wait <==> old(self)@.global is Some && old(self)@.global->0.lent
                + old(self)@.global->0.line.len() >= old(self)@.global->0.limit,
    {
        self.pull_with_wait_local_limit(key, None)
    }

    /// Attempts to pull an item from the pool (with local limit applied).
    /// This method waits, when the global limit is reached, and returns `None`, when a local
    /// limit is reached.
    pub fn pull_with_local_limit(&mut self, key: K, local_limit_index: Option<usize>) -> (pull:
        Option<Pull<K, I>>)
        requires
            old(self).wf(),
        ensures
            final(self).wf(),
            final(self).longest_queue() <= old(self).longest_queue(),
            pull is Some && pull->0 is Ready ==> exists|
                values: &mut ConcurrentLimitedMultimap<K, I>,
            |
                *values == old(self).idle_values() && *final(values) == final(self).idle_values()
                    && #[trigger] idle_values_give(values, key, pull->0->Ready_0.value()),
            pull is None || pull->0 is Wait ==> final(self).idle_values()
                == old(self).idle_values(),
            old(self)@.pulls_unless_local_reached(key, local_limit_index, pull, final(self)@),
            pull is None <==> local_limit_index is Some && old(self)@.local.contains_key(
                local_limit_index->0,
            ) && old(self)@.local[local_limit_index->0].lent
                + old(self)@.local[local_limit_index->0].line.len()
                >= old(self)@.local[local_limit_index->0].limit,
            pull is Some ==> (pull->0 is Wait <==> old(self)@.global is Some
                && old(self)@.global->0.lent
                + old(self)@.global->0.line.len() >= old(self)@.global->0.limit),
    {
        match self.acquire_local(local_limit_index) {
            Some(local) => Some(self.grant(key, local)),
            None => None,
        }
    }

    /// Pulls an item from the pool (with local limit applied).
    /// This method waits, when either the global limit or a local limit is reached.
    pub fn pull_with_wait_local_limit(&mut self, key: K, local_limit_index: Option<usize>) -> (pull:
        Pull<K, I>)
        requires
            old(self).wf(),
        ensures
            final(self).wf(),
            final(self).longest_queue() <= old(self).longest_queue(),
            pull is Ready ==> exists|values: &mut ConcurrentLimitedMultimap<K, I>|
                *values == old(self).idle_values() && *final(values) == final(self).idle_values()
                    && #[trigger] idle_values_give(values, key, pull->Ready_0.value()),
            pull is Wait ==> final(self).idle_values() == old(self).idle_values(),
            old(self)@.pulls(key, local_limit_index, pull, final(self)@),
            pull is Wait <==> (local_limit_index is Some && old(self)@.local.contains_key(
                local_limit_index->0,
            ) && old(self)@.local[local_limit_index->0].lent
                + old(self)@.local[local_limit_index->0].line.len()
                >= old(self)@.local[local_limit_index->0].limit) || (old(self)@.global is Some
                && old(self)@.global->0.lent
                + old(self)@.global->0.line.len() >= old(self)@.global->0.limit),
    {
        match self.acquire_local(local_limit_index) {
            Some(local) => self.grant(key, local),
            None => {
                // Only a limit that has an index can be reached.
                let index: usize = local_limit_index.unwrap();
                let ticket = self.local_limits.join(index);
                Pull::Wait(Waiter { key, stage: Stage::Local(index), ticket })
            },
        }
    }

    /// Goes on with a pull that stands in line, if a permit is due to it. It waits on otherwise.
    pub fn resume(&mut self, waiter: Waiter<K>) -> (pull: Pull<K, I>)
        requires
            old(self).wf(),
            old(self)@.awaits(waiter),
        ensures
            final(self).wf(),
            final(self).longest_queue() <= old(self).longest_queue(),
            pull is Ready ==> exists|values: &mut ConcurrentLimitedMultimap<K, I>|
                *values == old(self).idle_values() && *final(values) == final(self).idle_values()
                    && #[trigger] idle_values_give(values, waiter.key(), pull->Ready_0.value()),
            pull is Wait ==> final(self).idle_values() == old(self).idle_values(),
            old(self)@.resumes(waiter, pull, final(self)@),
            waiter.stage() is Global ==> (pull is Ready <==> old(self)@.global->0.lent
                + old(self)@.global->0.line.index_of(waiter.ticket())
                < old(self)@.global->0.limit),
            waiter.stage() matches Stage::Local(index) ==> (pull is Wait
                && pull->Wait_0.stage() == Stage::Local(index) <==> old(self)@.local[index].lent
                + old(self)@.local[index].line.index_of(waiter.ticket())
                >= old(self)@.local[index].limit),
    {
        assert(waiter.key() == waiter.key);
        match waiter.stage {
            Stage::Local(index) => {
                if self.local_limits.try_admit(index, waiter.ticket) {
                    self.grant(waiter.key, Some(index))
                } else {
                    Pull::Wait(waiter)
                }
            },
            Stage::Global(local) => {
                if self.admit_global(waiter.ticket) {
                    Pull::Ready(self.lend(waiter.key, true, local))
                } else {
                    Pull::Wait(waiter)
                }
            },
        }
    }

    /// Gives up a pull that stands in line, and with it the permit that it holds, if any.
    pub fn cancel(&mut self, waiter: Waiter<K>)
        requires
            old(self).wf(),
            old(self)@.awaits(waiter),
        ensures
            final(self).wf(),
            final(self).longest_queue() <= old(self).longest_queue(),
            final(self).idle_values() == old(self).idle_values(),
            final(self)@ == old(self)@.cancelled(waiter),
    {
        match waiter.stage {
            Stage::Local(index) => {
                self.local_limits.leave(index, waiter.ticket);
            },
            Stage::Global(local) => {
                if let Some(limit) = &mut self.semaphore {
                    limit.leave(waiter.ticket);
                }
                self.release_local(local);
            },
        }
    }

    /// Attempts to pull an item from the pool.
    /// This method returns `None`, when the global limit is reached.
    pub fn try_pull(&mut self, key: K) -> (item: Option<Item<K, I>>)
        requires
            old(self).wf(),
        ensures
            final(self).wf(),
            final(self).longest_queue() <= old(self).longest_queue(),
            item is Some ==> exists|values: &mut ConcurrentLimitedMultimap<K, I>|
                *values == old(self).idle_values() && *final(values) == final(self).idle_values()
                    && #[trigger] idle_values_give(values, key, item->0.value()),
            item is None ==> final(self).idle_values() == old(self).idle_values(),
            old(self)@.tries(key, None, item, final(self)@),
            item is None <==> old(self)@.global is Some && old(self)@.global->0.lent
                + old(self)@.global->0.line.len() >= old(self)@.global->0.limit,
    {
        self.try_pull_with_local_limit(key, None)
    }

    /// Attempts to pull an item from the pool (with local limit applied).
    /// This method returns `None`, when either the global limit or a local limit is reached.
    pub fn try_pull_with_local_limit(&mut self, key: K, local_limit_index: Option<usize>) -> (item:
        Option<Item<K, I>>)
        requires
            old(self).wf(),
        ensures
            final(self).wf(),
            final(self).longest_queue() <= old(self).longest_queue(),
            item is Some ==> exists|values: &mut ConcurrentLimitedMultimap<K, I>|
                *values == old(self).idle_values() && *final(values) == final(self).idle_values()
                    && #[trigger] idle_values_give(values, key, item->0.value()),
            item is None ==> final(self).idle_values() == old(self).idle_values(),
            old(self)@.tries(key, local_limit_index, item, final(self)@),
            item is None <==> (local_limit_index is Some && old(self)@.local.contains_key(
                local_limit_index->0,
            ) && old(self)@.local[local_limit_index->0].lent
                + old(self)@.local[local_limit_index->0].line.len()
                >= old(self)@.local[local_limit_index->0].limit) || (old(self)@.global is Some
                && old(self)@.global->0.lent
                + old(self)@.global->0.line.len() >= old(self)@.global->0.limit),
    {
        let local = match self.acquire_local(local_limit_index) {
            Some(local) => local,
            None => {
                return None;
            },
        };
        match self.acquire_global() {
            Some(guard) => Some(self.lend(key, guard, local)),
            None => {
                self.release_local(local);
                assert(self@.local =~= old(self)@.local);
                None
            },
        }
    }

    /// The number of permits of the global limit that are neither lent out nor due to a pull
    /// that waits, if there is such a limit.
    pub fn available_permits(&self) -> (permits: Option<usize>)
        requires
            self.wf(),
        ensures
            match permits {
                Some(permits) => self@.global is Some && permits == self@.global->0.free(),
                None => self@.global is None,
            },
            permits matches Some(permits) ==> permits == if self@.global->0.lent
                + self@.global->0.line.len() < self@.global->0.limit {
                self@.global->0.limit - self@.global->0.lent - self@.global->0.line.len()
            } else {
                0
            },
    {
        match &self.semaphore {
            Some(limit) => Some(limit.available_permits()),
            None => None,
        }
    }

    /// The number of permits of the local limit with the index that are neither lent out nor due
    /// to a pull that waits, if there is such a limit.
    pub fn local_available_permits(&self, index: usize) -> (permits: Option<usize>)
        requires
            self.wf(),
        ensures
            match permits {
                Some(permits) => self@.local.contains_key(index) && permits
                    == self@.local[index].free(),
                None => !self@.local.contains_key(index),
            },
            permits matches Some(permits) ==> permits == if self@.local[index].lent
                + self@.local[index].line.len() < self@.local[index].limit {
                self@.local[index].limit - self@.local[index].lent - self@.local[index].line.len()
            } else {
                0
            },
    {
        self.local_limits.available_permits(index)
    }

    /// Whether one more value can be stored.
    pub fn has_room(&self) -> (room: bool)
        ensures
            room == self@.idle.has_room(),
    {
        self.inner.has_room()
    }

    /// The number of values that wait to be pulled.
    pub fn stored(&self) -> (stored: usize)
        ensures
            stored == self@.idle.stored,
    {
        self.inner.len()
    }

    /// Gives the permits of an item back.
    fn release_permits(&mut self, guard: bool, local: Option<usize>)
        requires
            old(self).wf(),
            guard ==> old(self)@.global is Some && old(self)@.global->0.lent > 0,
            old(self)@.has_lent_local(local),
        ensures
            final(self).wf(),
            final(self).inner == old(self).inner,
            final(self)@ == old(self)@.global_released(guard).local_released(local),
    {
        if guard {
            if let Some(limit) = &mut self.semaphore {
                limit.release();
            }
        }
        self.release_local(local);
    }
}

impl<K, I> Item<K, I> where K: Eq + Hash {
    /// Takes the inner value from the item. This will also ensure that the item won't be
    /// returned. Only the permits that it holds go back to the pool.
    pub fn take(self, pool: &mut Pool<K, I>) -> (value: Option<I>)
        requires
            old(pool).wf(),
            old(pool)@.has_lent(self),
        ensures
            final(pool).wf(),
            value == self.value(),
            final(pool)@ == old(pool)@.permits_released(self),
            final(pool).longest_queue() <= old(pool).longest_queue(),
            final(pool).idle_values() == old(pool).idle_values(),
    {
        pool.release_permits(self.guard, self.local_guard);
        self.inner
    }

    /// Returns a reference to the inner value.
    pub fn inner(&self) -> (value: &Option<I>)
        ensures
            *value == self.value(),
    {
        &self.inner
    }

    /// Returns a mutable reference to the inner value.
    pub fn inner_mut(&mut self) -> (value: &mut Option<I>)
        ensures
            *value == old(self).value(),
            final(self).value() == *final(value),
            final(self).same_but_value(*old(self)),
    {
        &mut self.inner
    }

    /// The index of the local limit that the item counts against.
    pub fn limited_by(&self) -> (index: Option<usize>)
        ensures
            index == self.local_limit(),
    {
        self.local_guard
    }

    /// Returns the item to the pool: its value, if it has one, for a later pull, and the
    /// permits that it holds.
    pub fn release(self, pool: &mut Pool<K, I>)
        requires
            old(pool).wf(),
            old(pool)@.has_lent(self),
            self.value() is Some ==> old(pool)@.idle.has_room(),
        ensures
            final(pool).wf(),
            old(pool)@.takes_back(self, final(pool)@),
            self.value() is Some && !old(pool).has_full_queue() ==> final(pool)@.idle.stored
                == old(pool)@.idle.stored_after_insert(),
            self.value() is Some ==> final(pool)@.idle.stored
                <= old(pool)@.idle.stored_after_insert(),
            final(pool).longest_queue() <= old(pool).longest_queue() + (if self.value() is Some {
                1int
            } else {
                0
            }),
            self.value() is None ==> final(pool).idle_values() == old(pool).idle_values(),
            obeys_key_model::<K>() && old(pool)@.idle.queues[self.key()].len() < usize::MAX
                && self.value() is Some ==> {
                &&& final(pool).idle_values().names_places_as(old(pool).idle_values())
                &&& exists|cache: &mut PlaceCache, left: Option<(usize, usize)>|
                    {
                        &&& *cache == old(pool).idle_values().cache()
                        &&& *final(cache) == final(pool).idle_values().cache()
                        &&& #[trigger] cache_takes_in(
                            cache,
                            final(pool).idle_values().place_of(
                                self.key(),
                                old(pool)@.idle.queues[self.key()].len() as int,
                            ),
                            left,
                        )
                        &&& match left {
                            None => old(pool)@.idle.keeps_all(
                                self.key(),
                                self.value()->0,
                                final(pool)@.idle,
                            ),
                            Some(place) => exists|from: K, offset: int|
                                place == #[trigger] final(pool).idle_values().place_of(
                                    from,
                                    offset,
                                ) && old(pool)@.idle.evicts(
                                    self.key(),
                                    self.value()->0,
                                    from,
                                    offset,
                                    final(pool)@.idle,
                                ),
                        }
                    }
            },
    {
        assert(self.key() == self.key);
        assert(pool@.idle == pool.inner@);
        if let Some(value) = self.inner {
            pool.inner.insert(self.key, value);
        }
        pool.release_permits(self.guard, self.local_guard);
        assert(old(pool)@.idle == old(pool).idle_values()@);
        assert(pool@.idle == pool.idle_values()@);
        assert(obeys_key_model::<K>() && old(pool)@.idle.queues[self.key()].len() < usize::MAX
            && self.value() is Some ==> pool.idle_values().names_places_as(
            old(pool).idle_values(),
        ));
    }
}

} // verus!
