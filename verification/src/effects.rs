//! What every operation of a pool comes to, told by the numbers of permits, by the lines of pulls
//! that wait and by the values alone.
use crate::concurrent_limited_multimap::keys_are_told_apart;
use crate::laws::{
    law_inserted_value_waits_last, law_next_value_is_first_waiting, law_no_eviction_below_capacity,
};
use crate::limits::LimitView;
use crate::model::{after_next, next_value, waiting, MultimapView};
use crate::pool::{Item, PoolView, Pull, Stage, Waiter};
use vstd::prelude::*;
use vstd::std_specs::hash::{builds_valid_hashers, obeys_key_model};

verus! {

/// A limit is reached just if its permits are all lent out or due to pulls that wait. The
/// others are free.
pub proof fn law_limit_is_reached_by_number(limit: LimitView)
    ensures
        limit.is_reached() <==> limit.lent + limit.line.len() >= limit.limit,
        limit.lent + limit.line.len() < limit.limit ==> limit.free() == limit.limit - limit.lent
            - limit.line.len(),
        limit.lent + limit.line.len() >= limit.limit ==> limit.free() == 0,
{
}

/// A permit is due to a pull that waits just if those that are lent out and those in front of it
/// leave one.
pub proof fn law_permit_is_due_by_number(limit: LimitView, ticket: usize)
    ensures
        limit.is_due(ticket) <==> limit.line.contains(ticket) && limit.lent + limit.line.index_of(
            ticket,
        ) < limit.limit,
{
}

/// A local limit applies just if it was set, and to nothing but its own index.
pub proof fn law_every_set_limit_applies<K, I>(pool: PoolView<K, I>, index: usize)
    ensures
        pool.local.contains_key(index) ==> pool.applying(Some(index)) == Some(index),
        !pool.local.contains_key(index) ==> pool.applying(Some(index)) == None::<usize>,
        pool.applying(None) == None::<usize>,
{
}

/// The global limit is reached just if its permits are all lent out or due to pulls that wait.
/// So is a local limit, if it was set. A pull without an index reaches none.
pub proof fn law_limits_are_reached_by_number<K, I>(pool: PoolView<K, I>, index: usize)
    ensures
        pool.global_reached() <==> pool.global is Some && pool.global->0.lent
            + pool.global->0.line.len() >= pool.global->0.limit,
        pool.local_reached(Some(index)) <==> pool.local.contains_key(index)
            && pool.local[index].lent + pool.local[index].line.len() >= pool.local[index].limit,
        !pool.local_reached(None),
{
}

/// A new pool stores nothing, has lent nothing out, lets nobody wait, and has no local limit.
pub proof fn law_new_pool_is_empty<K, I>(pool: PoolView<K, I>, key: K)
    requires
        pool.is_new(),
    ensures
        pool.idle.queues[key].len() == 0,
        waiting(pool.idle.queues[key]).len() == 0,
        pool.idle.stored == 0,
        pool.global is Some ==> pool.global->0.lent == 0 && pool.global->0.line.len() == 0,
        forall|index: usize| !pool.local.contains_key(index),
{
}

/// A limit starts with all of its permits.
pub proof fn law_new_limit_has_all_permits(limit: nat)
    ensures
        LimitView::unused(limit).limit == limit,
        LimitView::unused(limit).lent == 0,
        LimitView::unused(limit).line.len() == 0,
{
}

/// A local limit that is set gets the next index and all of its permits. Nothing else changes.
pub proof fn law_set_limit_is_new<K, I>(
    before: PoolView<K, I>,
    limit: nat,
    index: usize,
    after: PoolView<K, I>,
)
    requires
        before.limits_locally(limit, index, after),
    ensures
        index == before.local.len(),
        !before.local.contains_key(index),
        after.local == before.local.insert(
            index,
            (LimitView { limit, lent: 0, line: Seq::empty() }),
        ),
        after.global == before.global,
        after.idle == before.idle,
{
}

/// A pull that may wait for either limit.
///
/// It waits for its local limit if one was set under its index and has no permit left for it.
/// Otherwise it takes a permit of that limit, and waits for the global limit if that has no
/// permit left for it. Otherwise it takes a permit of that limit too and is ready. Who waits
/// stands last in line. No other limit changes, and no value leaves for a pull that waits.
pub proof fn law_pull_by_number<K, I>(
    before: PoolView<K, I>,
    key: K,
    index: Option<usize>,
    pull: Pull<K, I>,
    after: PoolView<K, I>,
)
    requires
        before.pulls(key, index, pull, after),
    ensures
        ({
            let set = index is Some && before.local.contains_key(index->0);
            let local = before.local[index->0];
            let global = before.global->0;
            let held = if set {
                index
            } else {
                None
            };
            let with_permit = if set {
                before.local.insert(index->0, (LimitView { lent: local.lent + 1, ..local }))
            } else {
                before.local
            };
            if set && local.lent + local.line.len() >= local.limit {
                &&& pull matches Pull::Wait(waiter)
                &&& waiter.key() == key
                &&& waiter.stage() == Stage::Local(index->0)
                &&& !local.line.contains(waiter.ticket())
                &&& after.local == before.local.insert(
                    index->0,
                    (LimitView { line: local.line.push(waiter.ticket()), ..local }),
                )
                &&& after.global == before.global
                &&& after.idle == before.idle
            } else if before.global is Some && global.lent + global.line.len() >= global.limit {
                &&& pull matches Pull::Wait(waiter)
                &&& waiter.key() == key
                &&& waiter.stage() == Stage::Global(held)
                &&& !global.line.contains(waiter.ticket())
                &&& after.local == with_permit
                &&& after.global == Some(
                    LimitView { line: global.line.push(waiter.ticket()), ..global },
                )
                &&& after.idle == before.idle
            } else {
                &&& pull matches Pull::Ready(item)
                &&& item.key() == key
                &&& item.local_limit() == held
                &&& item.holds_global() == (before.global is Some)
                &&& after.local == with_permit
                &&& after.global == match before.global {
                    Some(limit) => Some(LimitView { lent: limit.lent + 1, ..limit }),
                    None => None,
                }
            }
        }),
{
}

/// A pull that waits for the global limit only.
///
/// It is refused just if a local limit was set under its index and has no permit left for it, and
/// then nothing changes. So it is never refused without an index. Otherwise it does as a pull
/// that may wait for either limit, and so waits just if the global limit has no permit left.
pub proof fn law_pull_is_refused_for_a_local_limit_only<K, I>(
    before: PoolView<K, I>,
    key: K,
    index: Option<usize>,
    pull: Option<Pull<K, I>>,
    after: PoolView<K, I>,
)
    requires
        before.pulls_unless_local_reached(key, index, pull, after),
    ensures
        pull is None <==> index is Some && before.local.contains_key(index->0)
            && before.local[index->0].lent + before.local[index->0].line.len()
            >= before.local[index->0].limit,
        index is None ==> pull is Some,
        pull is None ==> after == before,
        pull is Some ==> before.pulls(key, index, pull->0, after),
        pull is Some ==> (pull->0 is Wait <==> before.global is Some && before.global->0.lent
            + before.global->0.line.len() >= before.global->0.limit),
        pull is Some && pull->0 is Wait ==> {
            &&& pull->0->Wait_0.key() == key
            &&& pull->0->Wait_0.stage() == Stage::Global(
                if index is Some && before.local.contains_key(index->0) {
                    index
                } else {
                    None
                },
            )
        },
{
    if pull is Some {
        law_pull_by_number(before, key, index, pull->0, after);
    }
}

/// A pull that does not wait.
///
/// It is refused just if a local limit was set under its index and has no permit left for it, or
/// the global limit has none, and then nothing changes. Otherwise it does as a pull that may
/// wait.
pub proof fn law_try_is_refused_by_number<K, I>(
    before: PoolView<K, I>,
    key: K,
    index: Option<usize>,
    item: Option<Item<K, I>>,
    after: PoolView<K, I>,
)
    requires
        before.tries(key, index, item, after),
    ensures
        item is None <==> {
            ||| index is Some && before.local.contains_key(index->0) && before.local[index->0].lent
                + before.local[index->0].line.len() >= before.local[index->0].limit
            ||| before.global is Some && before.global->0.lent + before.global->0.line.len()
                >= before.global->0.limit
        },
        item is None ==> after == before,
        item is Some ==> before.pulls(key, index, Pull::Ready(item->0), after),
{
}

/// A pull that goes on where it stands in line.
///
/// It stays where it is, and nothing changes, just if those that are lent out of the limit that
/// it waits for and those in front of it leave it no permit. Otherwise it leaves the line with a
/// permit. If that was one of a local limit, then it waits for the global limit if that has no
/// permit left for it, and takes one of that otherwise. It is ready as soon as it has all of its
/// permits.
pub proof fn law_due_permit_is_given<K, I>(
    before: PoolView<K, I>,
    waiter: Waiter<K>,
    pull: Pull<K, I>,
    after: PoolView<K, I>,
)
    requires
        before.awaits(waiter),
        before.resumes(waiter, pull, after),
    ensures
        waiter.stage() matches Stage::Global(held) ==> {
            let global = before.global->0;
            let place = global.line.index_of(waiter.ticket());
            &&& pull is Ready <==> global.lent + place < global.limit
            &&& pull is Wait ==> pull == Pull::<K, I>::Wait(waiter) && after == before
            &&& pull matches Pull::Ready(item) ==> {
                &&& item.key() == waiter.key()
                &&& item.local_limit() == held
                &&& item.holds_global()
                &&& after.local == before.local
                &&& after.global == Some(
                    LimitView {
                        limit: global.limit,
                        lent: global.lent + 1,
                        line: global.line.remove(place),
                    },
                )
            }
        },
        waiter.stage() matches Stage::Local(index) ==> {
            let local = before.local[index];
            let global = before.global->0;
            let place = local.line.index_of(waiter.ticket());
            let with_permit = before.local.insert(
                index,
                (LimitView {
                    limit: local.limit,
                    lent: local.lent + 1,
                    line: local.line.remove(place),
                }),
            );
            &&& pull is Wait && pull->Wait_0.stage() == Stage::Local(index) <==> local.lent + place
                >= local.limit
            &&& local.lent + place >= local.limit ==> pull == Pull::<K, I>::Wait(waiter) && after
                == before
            &&& local.lent + place < local.limit && before.global is Some && global.lent
                + global.line.len() >= global.limit ==> {
                &&& pull matches Pull::Wait(next)
                &&& next.key() == waiter.key()
                &&& next.stage() == Stage::Global(Some(index))
                &&& !global.line.contains(next.ticket())
                &&& after.local == with_permit
                &&& after.global == Some(
                    LimitView { line: global.line.push(next.ticket()), ..global },
                )
                &&& after.idle == before.idle
            }
            &&& local.lent + place < local.limit && !(before.global is Some && global.lent
                + global.line.len() >= global.limit) ==> {
                &&& pull matches Pull::Ready(item)
                &&& item.key() == waiter.key()
                &&& item.local_limit() == Some(index)
                &&& item.holds_global() == (before.global is Some)
                &&& after.local == with_permit
                &&& after.global == match before.global {
                    Some(limit) => Some(LimitView { lent: limit.lent + 1, ..limit }),
                    None => None,
                }
            }
        },
{
}

/// A pull that may go on where it stands in line is one whose ticket is in the line of its limit,
/// and that has the permit of the local limit that it passed, if any.
pub proof fn law_who_may_go_on<K, I>(pool: PoolView<K, I>, waiter: Waiter<K>)
    ensures
        waiter.stage() matches Stage::Local(index) ==> (pool.awaits(waiter)
            <==> pool.local.contains_key(index) && pool.local[index].line.contains(
            waiter.ticket(),
        )),
        waiter.stage() matches Stage::Global(held) ==> (pool.awaits(waiter) <==> pool.global is Some
            && pool.global->0.line.contains(waiter.ticket()) && (held is Some
            ==> pool.local.contains_key(held->0) && pool.local[held->0].lent > 0)),
{
}

/// An item that may come back is one whose permits are lent out.
pub proof fn law_who_may_come_back<K, I>(pool: PoolView<K, I>, item: Item<K, I>)
    ensures
        pool.has_lent(item) <==> (item.holds_global() ==> pool.global is Some
            && pool.global->0.lent > 0) && (item.local_limit() is Some ==> pool.local.contains_key(
            item.local_limit()->0,
        ) && pool.local[item.local_limit()->0].lent > 0),
{
}

/// An item that is lent out, in whichever way, has the first of the values that wait under its
/// key, and none just if none waits. The others wait on, those of other keys too.
pub proof fn law_lent_item_has_the_first_value<K, I>(
    before: PoolView<K, I>,
    key: K,
    index: Option<usize>,
    waiter: Waiter<K>,
    item: Item<K, I>,
    after: PoolView<K, I>,
    other: K,
)
    requires
        ({
            ||| before.pulls(key, index, Pull::Ready(item), after)
            ||| before.grants(key, None, Pull::Ready(item), after)
            ||| before.pulls_unless_local_reached(key, index, Some(Pull::Ready(item)), after)
            ||| before.tries(key, index, Some(item), after)
            ||| before.awaits(waiter) && waiter.key() == key && before.resumes(
                waiter,
                Pull::Ready(item),
                after,
            )
        }),
    ensures
        item.key() == key,
        after.idle.capacity == before.idle.capacity,
        after.idle.stored == before.idle.stored - (if item.value() is Some {
            1int
        } else {
            0
        }),
        obeys_key_model::<K>() ==> {
            let waits = waiting(before.idle.queues[key]);
            &&& waits.len() > 0 ==> {
                &&& item.value() == Some(waits[0])
                &&& waiting(after.idle.queues[key]) == waits.skip(1)
            }
            &&& waits.len() == 0 ==> {
                &&& item.value() is None
                &&& waiting(after.idle.queues[key]).len() == 0
            }
            &&& other != key ==> after.idle.queues[other] == before.idle.queues[other]
        },
{
    law_next_value_is_first_waiting(before.idle.queues[key]);
}

/// A pull that is given up leaves the line, in which the others keep their order, and gives back
/// the permit of the local limit that it held, if any. Nothing else changes.
pub proof fn law_cancel_by_number<K, I>(before: PoolView<K, I>, waiter: Waiter<K>)
    requires
        before.awaits(waiter),
    ensures
        before.cancelled(waiter).idle == before.idle,
        waiter.stage() matches Stage::Local(index) ==> {
            let local = before.local[index];
            &&& before.cancelled(waiter).global == before.global
            &&& before.cancelled(waiter).local == before.local.insert(
                index,
                (LimitView {
                    line: local.line.remove(local.line.index_of(waiter.ticket())),
                    ..local
                }),
            )
        },
        waiter.stage() matches Stage::Global(held) ==> {
            let global = before.global->0;
            &&& before.cancelled(waiter).global == Some(
                LimitView {
                    line: global.line.remove(global.line.index_of(waiter.ticket())),
                    ..global
                },
            )
            &&& before.cancelled(waiter).local == match held {
                Some(index) => before.local.insert(
                    index,
                    (LimitView {
                        lent: (before.local[index].lent - 1) as nat,
                        ..before.local[index]
                    }),
                ),
                None => before.local,
            }
        },
{
}

/// An item whose permits come back gives back one permit of every limit that it holds one of.
/// Nothing else changes.
pub proof fn law_returned_permits_by_number<K, I>(before: PoolView<K, I>, item: Item<K, I>)
    requires
        before.has_lent(item),
    ensures
        before.permits_released(item).idle == before.idle,
        before.permits_released(item).global == if item.holds_global() {
            Some(
                LimitView {
                    lent: (before.global->0.lent - 1) as nat,
                    ..before.global->0
                },
            )
        } else {
            before.global
        },
        before.permits_released(item).local == match item.local_limit() {
            Some(index) => before.local.insert(
                index,
                (LimitView {
                    lent: (before.local[index].lent - 1) as nat,
                    ..before.local[index]
                }),
            ),
            None => before.local,
        },
{
}

/// An item that is returned gives its permits back, and its value, if it has one, waits last
/// under its key, in front of nothing and behind whatever still waits there. Below the capacity
/// nothing gives way for it. An item without a value changes nothing but the permits.
pub proof fn law_returned_item_by_number<K, I>(
    before: PoolView<K, I>,
    item: Item<K, I>,
    after: PoolView<K, I>,
    other: K,
)
    requires
        before.has_lent(item),
        before.takes_back(item, after),
    ensures
        after.idle.capacity == before.idle.capacity,
        after.global == if item.holds_global() {
            Some(
                LimitView {
                    lent: (before.global->0.lent - 1) as nat,
                    ..before.global->0
                },
            )
        } else {
            before.global
        },
        after.local == match item.local_limit() {
            Some(index) => before.local.insert(
                index,
                (LimitView {
                    lent: (before.local[index].lent - 1) as nat,
                    ..before.local[index]
                }),
            ),
            None => before.local,
        },
        item.value() is None ==> after.idle == before.idle,
        item.value() matches Some(value) ==> (obeys_key_model::<K>()
            && before.idle.queues[item.key()].len() < usize::MAX ==> {
            &&& before.idle.stored < before.idle.capacity ==> {
                &&& after.idle.stored == before.idle.stored + 1
                &&& waiting(after.idle.queues[item.key()]) == waiting(
                    before.idle.queues[item.key()],
                ).push(value)
                &&& other != item.key() ==> after.idle.queues[other] == before.idle.queues[other]
            }
            &&& before.idle.stored >= before.idle.capacity ==> after.idle.stored
                == before.idle.stored
            &&& before.idle.capacity > 0 ==> {
                &&& waiting(after.idle.queues[item.key()]).len() > 0
                &&& waiting(after.idle.queues[item.key()]).last() == value
            }
        }),
{
    law_returned_permits_by_number(before, item);
    if let Some(value) = item.value() {
        if obeys_key_model::<K>() && before.idle.queues[item.key()].len() < usize::MAX {
            if before.idle.stored < before.idle.capacity {
                law_no_eviction_below_capacity(before.idle, item.key(), value, after.idle);
            }
            if before.idle.capacity > 0 {
                law_inserted_value_waits_last(before.idle, item.key(), value, after.idle);
            }
        }
    }
}

/// A value that is stored adds one to the number of values, unless that is the capacity already.
/// There is room for one more as long as the places can be numbered.
pub proof fn law_stored_by_number<K, V>(map: MultimapView<K, V>)
    ensures
        map.stored < map.capacity ==> map.stored_after_insert() == map.stored + 1,
        map.stored >= map.capacity ==> map.stored_after_insert() == map.stored,
        map.has_room() <==> map.capacity + map.capacity / 2 <= 0xffff_fffe || (map.stored
            < map.capacity && map.stored < 0xffff_fffe),
{
}

/// When a value gives way to a new one, it is one value that waited before, and nothing else is
/// gone: every other value still waits where it did, and the new one behind them.
pub proof fn law_one_value_gives_way<K, V>(
    before: MultimapView<K, V>,
    key: K,
    value: V,
    after: MultimapView<K, V>,
)
    requires
        before.insert_to(key, value, after),
        before.queues[key].len() < usize::MAX,
        before.capacity > 0,
        before.stored >= before.capacity,
    ensures
        after.capacity == before.capacity,
        after.stored == before.stored,
        after.queues[key].len() == before.queues[key].len() + 1,
        after.queues[key].last() == Some(value),
        exists|from: K, offset: int|
            #![trigger before.queues[from][offset]]
            {
                &&& 0 <= offset < before.queues[from].len()
                &&& before.queues[from][offset] is Some
                &&& after.queues[from][offset] is None
                &&& forall|other: K, place: int|
                    0 <= place < before.queues[other].len() && (other, place) != (from, offset)
                        ==> #[trigger] after.queues[other][place] == before.queues[other][place]
            },
        forall|other: K|
            other != key ==> #[trigger] after.queues[other].len() == before.queues[other].len(),
{
    let (from, offset) = choose|from: K, offset: int|
        before.evicts(key, value, from, offset, after);
    assert(before.queues[from][offset] is Some);
}

/// A multimap for no values keeps none.
pub proof fn law_nothing_stays_without_capacity<K, V>(
    before: MultimapView<K, V>,
    key: K,
    value: V,
    after: MultimapView<K, V>,
    other: K,
)
    requires
        before.insert_to(key, value, after),
        before.capacity == 0,
        before.stored == 0,
        forall|k: K, place: int|
            0 <= place < before.queues[k].len() ==> #[trigger] before.queues[k][place] is None,
    ensures
        after.stored == 0 || before.queues[key].len() >= usize::MAX,
        forall|place: int|
            0 <= place < after.queues[other].len() ==> #[trigger] after.queues[other][place]
                is None,
{
    if before.queues[key].len() < usize::MAX {
        let (from, offset) = choose|from: K, offset: int|
            before.evicts(key, value, from, offset, after);
        assert(from == key && offset == before.queues[key].len()) by {
            if from != key || offset < before.queues[key].len() {
                assert(before.queues[from][offset] is None);
            }
        }
        assert forall|place: int| 0 <= place < after.queues[other].len() implies
            #[trigger] after.queues[other][place] is None by {
            if place < before.queues[other].len() {
                assert(before.queues[other][place] is None);
            }
        }
    }
}

/// A queue that has as many places as there are indexes is empty once a value is stored in it,
/// since its first index and its next index are equal then. The other queues stay as they are.
pub proof fn law_full_circle_empties_the_queue<K, V>(
    before: MultimapView<K, V>,
    key: K,
    value: V,
    after: MultimapView<K, V>,
    other: K,
)
    requires
        before.insert_to(key, value, after),
        before.queues[key].len() >= usize::MAX,
    ensures
        after.queues[key].len() == 0,
        after.stored == before.stored - waiting(before.queues[key]).len(),
        other != key ==> after.queues[other] == before.queues[other],
{
}

/// What waits in a queue is what is still there, first to last. What is taken is the first of it,
/// together with the places in front of it.
pub proof fn law_queue_by_place<V>(places: Seq<Option<V>>)
    ensures
        places.len() == 0 ==> {
            &&& waiting(places).len() == 0
            &&& next_value(places) is None
            &&& after_next(places).len() == 0
        },
        places.len() > 0 && places[0] is Some ==> {
            &&& waiting(places) == seq![places[0]->0] + waiting(places.skip(1))
            &&& next_value(places) == places[0]
            &&& after_next(places) == places.skip(1)
        },
        places.len() > 0 && places[0] is None ==> {
            &&& waiting(places) == waiting(places.skip(1))
            &&& next_value(places) == next_value(places.skip(1))
            &&& after_next(places) == after_next(places.skip(1))
        },
{
}

/// What is removed under a key is the first value that waits under it, and nothing just if none
/// does. The others wait on, those of other keys too.
pub proof fn law_removed_value_is_the_first<K, V>(before: MultimapView<K, V>, key: K, other: K)
    ensures
        ({
            let waits = waiting(before.queues[key]);
            &&& before.removed(key).capacity == before.capacity
            &&& waits.len() > 0 ==> {
                &&& next_value(before.queues[key]) == Some(waits[0])
                &&& waiting(before.removed(key).queues[key]) == waits.skip(1)
                &&& before.removed(key).stored == before.stored - 1
            }
            &&& waits.len() == 0 ==> {
                &&& next_value(before.queues[key]) is None
                &&& waiting(before.removed(key).queues[key]).len() == 0
                &&& before.removed(key).stored == before.stored
            }
            &&& other != key ==> before.removed(key).queues[other] == before.queues[other]
        }),
{
    law_next_value_is_first_waiting(before.queues[key]);
}

/// The contracts speak of every key type whose keys `==`, `Hash` and the hasher tell apart.
pub proof fn law_lawful_keys_are_told_apart<K, S>()
    requires
        obeys_key_model::<K>(),
        builds_valid_hashers::<S>(),
    ensures
        keys_are_told_apart::<K, S>(),
{
}

} // verus!
