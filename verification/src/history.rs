//! What holds of multimaps and pools over any number of calls.
use crate::laws::{
    is_limit_step, law_insert_only_drops, law_next_value_is_first_waiting,
    law_no_eviction_below_capacity, law_place_in_line_is_kept, lemma_insert_keeps_order,
    lemma_remove_keeps_order, LimitStep,
};
use crate::limits::LimitView;
use crate::model::{is_subsequence, next_value, stands_at, waiting, MultimapView};
use crate::pool::{Item, PoolView, Pull, Stage, Waiter};
use vstd::prelude::*;
use vstd::std_specs::hash::obeys_key_model;

verus! {

/// A call on a multimap.
pub enum Call<K, V> {
    /// A value is stored under a key.
    Insert(K, V),
    /// The next value of a key is taken out.
    Remove(K),
}

/// A history of calls on a multimap, from its creation on.
#[verifier::reject_recursive_types(K)]
pub struct History<K, V> {
    /// What the multimap holds before the first call and after each call.
    pub states: Seq<MultimapView<K, V>>,
    /// The calls, first to last.
    pub calls: Seq<Call<K, V>>,
    /// What each call returns, where it returns a value.
    pub results: Seq<Option<V>>,
}

impl<K, V> History<K, V> {
    /// The call at the position does what it should.
    pub open spec fn is_step(self, at: int) -> bool {
        let before = self.states[at];
        let after = self.states[at + 1];
        match self.calls[at] {
            Call::Insert(key, value) => {
                &&& before.has_room()
                &&& before.insert_to(key, value, after)
                &&& self.results[at] is None
            },
            Call::Remove(key) => {
                &&& self.results[at] == next_value(before.queues[key])
                &&& after == before.removed(key)
            },
        }
    }

    /// The multimap is new at first, and every call does what it should.
    pub open spec fn is_possible(self) -> bool {
        &&& self.states.len() == self.calls.len() + 1
        &&& self.results.len() == self.calls.len()
        &&& self.states[0].is_new()
        &&& forall|at: int| 0 <= at < self.calls.len() ==> #[trigger] self.is_step(at)
    }

    /// No value is stored while the multimap is full.
    pub open spec fn never_overfull(self) -> bool {
        forall|at: int|
            0 <= at < self.calls.len() && #[trigger] self.calls[at] is Insert
                ==> self.states[at].stored < self.states[at].capacity
    }

    /// No value is stored under a key whose queue has come full circle.
    pub open spec fn never_full_circle(self) -> bool {
        forall|at: int|
            0 <= at < self.calls.len() ==> (#[trigger] self.calls[at] matches Call::Insert(key, _)
                ==> self.states[at].queues[key].len() < usize::MAX)
    }

    /// The values that the first calls store under the key, first to last.
    pub open spec fn inserted(self, key: K, calls: nat) -> Seq<V>
        decreases calls,
    {
        if calls == 0 {
            Seq::empty()
        } else {
            let earlier = self.inserted(key, (calls - 1) as nat);
            match self.calls[calls - 1] {
                Call::Insert(under, value) => if under == key {
                    earlier.push(value)
                } else {
                    earlier
                },
                Call::Remove(_) => earlier,
            }
        }
    }

    /// The values that the first calls take out under the key, first to last.
    pub open spec fn removed(self, key: K, calls: nat) -> Seq<V>
        decreases calls,
    {
        if calls == 0 {
            Seq::empty()
        } else {
            let earlier = self.removed(key, (calls - 1) as nat);
            match self.calls[calls - 1] {
                Call::Insert(_, _) => earlier,
                Call::Remove(under) => if under == key && self.results[calls - 1] is Some {
                    earlier.push(self.results[calls - 1]->0)
                } else {
                    earlier
                },
            }
        }
    }
}

/// The capacity of a multimap stays what it is, and a queue has no more places than calls were
/// made.
proof fn lemma_history_bounds<K, V>(history: History<K, V>, calls: nat)
    requires
        history.is_possible(),
        calls <= history.calls.len(),
    ensures
        history.states[calls as int].capacity == history.states[0].capacity,
        forall|key: K| #[trigger] history.states[calls as int].queues[key].len() <= calls,
    decreases calls,
{
    if calls > 0 {
        let before = history.states[calls - 1];
        lemma_history_bounds(history, (calls - 1) as nat);
        assert(history.is_step(calls - 1));
        assert forall|key: K| #[trigger]
            history.states[calls as int].queues[key].len() <= calls by {
            law_next_value_is_first_waiting(before.queues[key]);
            if history.calls[calls - 1] is Insert {
                assert(before.queues[key].len() <= calls - 1);
            }
        }
    }
}

/// It takes as many calls as there are indexes until a queue has come full circle.
pub proof fn law_full_circle_takes_many_calls<K, V>(history: History<K, V>)
    requires
        history.is_possible(),
        history.calls.len() <= usize::MAX,
    ensures
        history.never_full_circle(),
{
    assert forall|at: int| 0 <= at < history.calls.len() implies (
    #[trigger] history.calls[at] matches Call::Insert(key, _) ==> history.states[at].queues[key].len()
        < usize::MAX) by {
        lemma_history_bounds(history, at as nat);
        if let Call::Insert(key, _) = history.calls[at] {
            assert(history.states[at].queues[key].len() <= at);
        }
    }
}

/// A multimap keeps to the capacity that it was made with, whatever is done with it.
pub proof fn law_capacity_is_never_exceeded<K, V>(history: History<K, V>, calls: nat)
    requires
        history.is_possible(),
        calls <= history.calls.len(),
    ensures
        history.states[calls as int].capacity == history.states[0].capacity,
        history.states[calls as int].stored <= history.states[0].capacity,
    decreases calls,
{
    if calls > 0 {
        let before = history.states[calls - 1];
        law_capacity_is_never_exceeded(history, (calls - 1) as nat);
        assert(history.is_step(calls - 1));
        if let Call::Insert(key, value) = history.calls[calls - 1] {
            law_insert_only_drops(before, key, value, history.states[calls as int], key);
        }
    }
}

/// Whatever a multimap evicts, it never makes a value up, hands one out twice, under another key
/// or out of order: the values that have come out under a key, followed by those that wait under
/// it, are some of those that were stored under it, in the order in which they were stored.
pub proof fn law_order_survives_eviction<K, V>(history: History<K, V>, key: K, calls: nat)
    requires
        history.is_possible(),
        calls <= history.calls.len(),
    ensures
        is_subsequence(
            history.removed(key, calls) + waiting(history.states[calls as int].queues[key]),
            history.inserted(key, calls),
        ),
    decreases calls,
{
    if calls > 0 {
        let earlier = (calls - 1) as nat;
        let before = history.states[calls - 1];
        let after = history.states[calls as int];
        let out = history.removed(key, earlier);
        let stored = history.inserted(key, earlier);
        law_order_survives_eviction(history, key, earlier);
        assert(history.is_step(calls - 1));
        match history.calls[calls - 1] {
            Call::Insert(under, value) => {
                lemma_insert_keeps_order(before, under, value, after, key, out, stored);
            },
            Call::Remove(under) => {
                lemma_remove_keeps_order(before, under, key, out, stored);
            },
        }
    } else {
        assert(stands_at(
            history.removed(key, calls) + waiting(history.states[0].queues[key]),
            history.inserted(key, calls),
            Seq::empty(),
        ));
    }
}

/// As long as no value is stored while a multimap is full, and no queue comes full circle, nothing
/// is lost and nothing comes out of order: the values that have come out under a key, followed by
/// those that wait under it, are those that were stored under it.
pub proof fn law_nothing_is_lost<K, V>(history: History<K, V>, key: K, calls: nat)
    requires
        history.is_possible(),
        history.never_overfull(),
        history.never_full_circle(),
        calls <= history.calls.len(),
    ensures
        history.removed(key, calls) + waiting(history.states[calls as int].queues[key])
            == history.inserted(key, calls),
    decreases calls,
{
    if calls > 0 {
        let earlier = (calls - 1) as nat;
        let before = history.states[calls - 1];
        let after = history.states[calls as int];
        law_nothing_is_lost(history, key, earlier);
        assert(history.is_step(calls - 1));
        match history.calls[calls - 1] {
            Call::Insert(under, value) => {
                law_no_eviction_below_capacity(before, under, value, after);
            },
            Call::Remove(under) => {
                law_next_value_is_first_waiting(before.queues[under]);
                if under == key && history.results[calls - 1] is Some {
                    let values = waiting(before.queues[key]);
                    assert(values =~= seq![values[0]] + values.skip(1));
                }
            },
        }
        assert(history.removed(key, calls) + waiting(after.queues[key]) =~= history.inserted(
            key,
            calls,
        ));
    } else {
        assert(history.removed(key, calls) + waiting(history.states[0].queues[key])
            =~= history.inserted(key, calls));
    }
}

/// A multimap that was made without a bound is never full, and so never evicts anything. As long as
/// no queue comes full circle, nothing is lost and nothing comes out of order: the values that have
/// come out under a key, followed by those that wait under it, are those that were stored under it.
pub proof fn law_unbounded_loses_nothing<K, V>(history: History<K, V>, key: K, calls: nat)
    requires
        history.is_possible(),
        history.states[0].capacity == u64::MAX,
        history.never_full_circle(),
        calls <= history.calls.len(),
    ensures
        history.never_overfull(),
        history.removed(key, calls) + waiting(history.states[calls as int].queues[key])
            == history.inserted(key, calls),
{
    lemma_unbounded_never_overfull(history);
    law_nothing_is_lost(history, key, calls);
}

proof fn lemma_unbounded_never_overfull<K, V>(history: History<K, V>)
    requires
        history.is_possible(),
        history.states[0].capacity == u64::MAX,
    ensures
        history.never_overfull(),
{
    assert forall|at: int|
        0 <= at < history.calls.len() && #[trigger] history.calls[at] is Insert implies history.states[at].stored
        < history.states[at].capacity by {
        lemma_history_bounds(history, at as nat);
        assert(history.is_step(at));
    }
}

/// Two multimaps of the same capacity that get the same calls return the same, as long as no
/// value is stored while they are full. What hashes their keys has no influence.
pub proof fn law_same_calls_same_results<K, V>(one: History<K, V>, other: History<K, V>)
    requires
        one.is_possible(),
        other.is_possible(),
        one.calls == other.calls,
        one.states[0].capacity == other.states[0].capacity,
        one.never_overfull(),
    ensures
        one.results == other.results,
        one.states == other.states,
{
    assert forall|at: int| 0 <= at < one.calls.len() implies one.results[at] == #[trigger] other.results[at] by {
        lemma_same_states(one, other, at as nat);
        assert(one.is_step(at) && other.is_step(at));
    }
    assert forall|at: int| 0 <= at < one.states.len() implies one.states[at] == #[trigger] other.states[at] by {
        lemma_same_states(one, other, at as nat);
    }
    assert(one.results =~= other.results);
    assert(one.states =~= other.states);
}

proof fn lemma_same_states<K, V>(one: History<K, V>, other: History<K, V>, calls: nat)
    requires
        one.is_possible(),
        other.is_possible(),
        one.calls == other.calls,
        one.states[0].capacity == other.states[0].capacity,
        one.never_overfull(),
        calls <= one.calls.len(),
    ensures
        one.states[calls as int] == other.states[calls as int],
    decreases calls,
{
    if calls > 0 {
        lemma_same_states(one, other, (calls - 1) as nat);
        assert(one.is_step(calls - 1) && other.is_step(calls - 1));
        assert(one.calls[calls - 1] is Insert ==> one.states[calls - 1].stored
            < one.states[calls - 1].capacity);
    }
}

/// Two multimaps that were made without a bound and get the same calls return the same. What
/// hashes their keys has no influence.
pub proof fn law_unbounded_same_calls_same_results<K, V>(one: History<K, V>, other: History<K, V>)
    requires
        one.is_possible(),
        other.is_possible(),
        one.calls == other.calls,
        one.states[0].capacity == u64::MAX,
        other.states[0].capacity == u64::MAX,
    ensures
        one.results == other.results,
        one.states == other.states,
{
    lemma_unbounded_never_overfull(one);
    law_same_calls_same_results(one, other);
}

/// A call on a pool, with what it returns.
pub enum PoolCall<K, I> {
    /// A local limit is set, and the index is returned.
    SetLocalLimit(nat, usize),
    /// A pull that waits for either limit.
    Pull(K, Option<usize>, Pull<K, I>),
    /// A pull that waits for the global limit only.
    PullUnlessLocalReached(K, Option<usize>, Option<Pull<K, I>>),
    /// A pull that does not wait.
    TryPull(K, Option<usize>, Option<Item<K, I>>),
    /// A pull that stands in line goes on.
    Resume(Waiter<K>, Pull<K, I>),
    /// A pull that stands in line is given up.
    Cancel(Waiter<K>),
    /// An item is returned.
    Release(Item<K, I>),
    /// The value of an item is taken.
    Take(Item<K, I>),
}

impl<K, I> PoolCall<K, I> {
    /// What comes of the pull that the call starts or goes on with, if any.
    pub open spec fn pull(self) -> Option<Pull<K, I>> {
        match self {
            PoolCall::Pull(_, _, pull) => Some(pull),
            PoolCall::PullUnlessLocalReached(_, _, pull) => pull,
            PoolCall::TryPull(_, _, Some(item)) => Some(Pull::Ready(item)),
            PoolCall::Resume(_, pull) => Some(pull),
            _ => None,
        }
    }

    /// The item that the call lends out, if any.
    pub open spec fn lent(self) -> Option<Item<K, I>> {
        match self.pull() {
            Some(Pull::Ready(item)) => Some(item),
            _ => None,
        }
    }

    /// The item that comes back with the call, if any.
    pub open spec fn returned(self) -> Option<Item<K, I>> {
        match self {
            PoolCall::Release(item) => Some(item),
            PoolCall::Take(item) => Some(item),
            _ => None,
        }
    }

    /// The waiting pull that the call goes on with or gives up, if any.
    pub open spec fn resumed_or_cancelled(self) -> Option<Waiter<K>> {
        match self {
            PoolCall::Resume(waiter, _) => Some(waiter),
            PoolCall::Cancel(waiter) => Some(waiter),
            _ => None,
        }
    }

    /// How many permits of the global limit are held once the call has been made, less those
    /// that were held before.
    pub open spec fn global_permits(self) -> int {
        count(self.lent() is Some && self.lent()->0.holds_global()) - count(
            self.returned() is Some && self.returned()->0.holds_global(),
        )
    }

    /// How many permits of the local limit are held once the call has been made, less those that
    /// were held before. A pull that waits for the global limit holds one too.
    pub open spec fn local_permits(self, index: usize) -> int {
        count(self.lent() is Some && self.lent()->0.local_limit() == Some(index)) + count(
            self.pull() is Some && self.pull()->0 is Wait && self.pull()->0->Wait_0.stage()
                == Stage::Global(Some(index)),
        ) - count(
            self.resumed_or_cancelled() is Some && self.resumed_or_cancelled()->0.stage()
                == Stage::Global(Some(index)),
        ) - count(self.returned() is Some && self.returned()->0.local_limit() == Some(index))
    }
}

/// One if it holds, and none otherwise.
pub open spec fn count(holds: bool) -> int {
    if holds {
        1
    } else {
        0
    }
}

/// A history of calls on a pool, from its creation on.
#[verifier::reject_recursive_types(K)]
pub struct PoolHistory<K, I> {
    /// What the pool holds before the first call and after each call.
    pub states: Seq<PoolView<K, I>>,
    /// The calls, first to last.
    pub calls: Seq<PoolCall<K, I>>,
}

impl<K, I> PoolHistory<K, I> {
    /// The call at the position is allowed, and does what it should.
    pub open spec fn is_step(self, at: int) -> bool {
        let before = self.states[at];
        let after = self.states[at + 1];
        match self.calls[at] {
            PoolCall::SetLocalLimit(limit, index) => before.limits_locally(limit, index, after),
            PoolCall::Pull(key, index, pull) => before.pulls(key, index, pull, after),
            PoolCall::PullUnlessLocalReached(key, index, pull) => {
                before.pulls_unless_local_reached(key, index, pull, after)
            },
            PoolCall::TryPull(key, index, item) => before.tries(key, index, item, after),
            PoolCall::Resume(waiter, pull) => {
                before.awaits(waiter) && before.resumes(waiter, pull, after)
            },
            PoolCall::Cancel(waiter) => before.awaits(waiter) && after == before.cancelled(waiter),
            PoolCall::Release(item) => {
                &&& before.has_lent(item)
                &&& item.value() is Some ==> before.idle.has_room()
                &&& before.takes_back(item, after)
            },
            PoolCall::Take(item) => {
                before.has_lent(item) && after == before.permits_released(item)
            },
        }
    }

    /// The pool is new at first, and every call does what it should.
    pub open spec fn is_possible(self) -> bool {
        &&& self.states.len() == self.calls.len() + 1
        &&& self.states[0].is_new()
        &&& forall|at: int| 0 <= at < self.calls.len() ==> #[trigger] self.is_step(at)
    }

    /// The pool is new and has no limit at first, and every call does what it should.
    pub open spec fn is_possible_unbounded(self) -> bool {
        &&& self.is_possible()
        &&& self.states[0].idle.capacity == u64::MAX
        &&& self.states[0].global is None
    }

    /// No value is returned while the pool stores as many as it can.
    pub open spec fn never_overfull(self) -> bool {
        forall|at: int|
            0 <= at < self.calls.len() && (#[trigger] self.calls[at] matches PoolCall::Release(item)
                && item.value() is Some) ==> self.states[at].idle.stored
                < self.states[at].idle.capacity
    }

    /// No value is returned under a key whose queue has come full circle.
    pub open spec fn never_full_circle(self) -> bool {
        forall|at: int|
            0 <= at < self.calls.len() ==> (
            #[trigger] self.calls[at] matches PoolCall::Release(item)
                ==> self.states[at].idle.queues[item.key()].len() < usize::MAX)
    }

    /// How many permits of the global limit are held by items that the first calls have lent
    /// out and not taken back.
    pub open spec fn global_permits(self, calls: nat) -> int
        decreases calls,
    {
        if calls == 0 {
            0
        } else {
            self.global_permits((calls - 1) as nat) + self.calls[calls - 1].global_permits()
        }
    }

    /// How many permits of the local limit are held by items that the first calls have lent out
    /// and not taken back, and by pulls that wait for the global limit.
    pub open spec fn local_permits(self, index: usize, calls: nat) -> int
        decreases calls,
    {
        if calls == 0 {
            0
        } else {
            self.local_permits(index, (calls - 1) as nat) + self.calls[calls - 1].local_permits(
                index,
            )
        }
    }

    /// The values of the items that the first calls lend out under the key, first to last.
    pub open spec fn pulled(self, key: K, calls: nat) -> Seq<I>
        decreases calls,
    {
        if calls == 0 {
            Seq::empty()
        } else {
            let earlier = self.pulled(key, (calls - 1) as nat);
            match self.calls[calls - 1].lent() {
                Some(item) => if item.key() == key && item.value() is Some {
                    earlier.push(item.value()->0)
                } else {
                    earlier
                },
                None => earlier,
            }
        }
    }

    /// The values of the items that are returned under the key in the first calls, first to
    /// last.
    pub open spec fn returned(self, key: K, calls: nat) -> Seq<I>
        decreases calls,
    {
        if calls == 0 {
            Seq::empty()
        } else {
            let earlier = self.returned(key, (calls - 1) as nat);
            match self.calls[calls - 1] {
                PoolCall::Release(item) => if item.key() == key && item.value() is Some {
                    earlier.push(item.value()->0)
                } else {
                    earlier
                },
                _ => earlier,
            }
        }
    }
}

/// What a call does to the global limit.
proof fn lemma_step_of_global_limit<K, I>(history: PoolHistory<K, I>, at: int)
    requires
        history.is_step(at),
    ensures
        ({
            let before = history.states[at].global;
            let after = history.states[at + 1].global;
            match before {
                Some(limit) => {
                    &&& after is Some
                    &&& after->0.limit == limit.limit
                    &&& after->0.lent == limit.lent + history.calls[at].global_permits()
                    &&& limit.lent <= limit.limit ==> after->0.lent <= limit.limit
                },
                None => after is None,
            }
        }),
{
}

/// What a call does to a local limit.
proof fn lemma_step_of_local_limit<K, I>(history: PoolHistory<K, I>, at: int, index: usize)
    requires
        history.is_step(at),
    ensures
        ({
            let before = history.states[at].local;
            let after = history.states[at + 1].local;
            &&& before.contains_key(index) ==> {
                &&& after.contains_key(index)
                &&& after[index].limit == before[index].limit
                &&& after[index].lent == before[index].lent + history.calls[at].local_permits(
                    index,
                )
                &&& before[index].lent <= before[index].limit ==> after[index].lent
                    <= after[index].limit
            }
            &&& !before.contains_key(index) ==> {
                &&& history.calls[at].local_permits(index) == 0
                &&& after.contains_key(index) ==> exists|limit: nat|
                    #![trigger LimitView::unused(limit)]
                    history.calls[at] == PoolCall::<K, I>::SetLocalLimit(limit, index)
                        && after[index] == LimitView::unused(limit)
            }
        }),
{
}

/// Whatever is done with a pool, the items that hold a permit of the global limit are as many as
/// are lent out of it, and never more than the limit that the pool was made with. Together with
/// the permits that are due to pulls that wait and those that are free they make up the limit.
pub proof fn law_items_and_free_permits_make_up_the_limit<K, I>(
    history: PoolHistory<K, I>,
    calls: nat,
)
    requires
        history.is_possible(),
        calls <= history.calls.len(),
    ensures
        history.states[calls as int].global is Some <==> history.states[0].global is Some,
        history.states[calls as int].global matches Some(limit) ==> {
            &&& limit.limit == history.states[0].global->0.limit
            &&& limit.lent == history.global_permits(calls)
            &&& history.global_permits(calls) <= limit.limit
            &&& history.global_permits(calls) + limit.reserved() + limit.free() == limit.limit
        },
    decreases calls,
{
    if calls > 0 {
        law_items_and_free_permits_make_up_the_limit(history, (calls - 1) as nat);
        assert(history.is_step(calls - 1));
        lemma_step_of_global_limit(history, calls - 1);
    }
}

/// Whatever is done with a pool, the items and the waiting pulls that hold a permit of a local
/// limit are as many as are lent out of it, and never more than the limit. Together with the
/// permits that are due to pulls that wait for it and those that are free they make up the
/// limit.
pub proof fn law_items_and_free_permits_make_up_a_local_limit<K, I>(
    history: PoolHistory<K, I>,
    index: usize,
    calls: nat,
)
    requires
        history.is_possible(),
        calls <= history.calls.len(),
    ensures
        history.states[calls as int].local.contains_key(index) ==> {
            let limit = history.states[calls as int].local[index];
            &&& limit.lent == history.local_permits(index, calls)
            &&& history.local_permits(index, calls) <= limit.limit
            &&& history.local_permits(index, calls) + limit.reserved() + limit.free()
                == limit.limit
        },
        !history.states[calls as int].local.contains_key(index) ==> history.local_permits(
            index,
            calls,
        ) == 0,
    decreases calls,
{
    if calls > 0 {
        law_items_and_free_permits_make_up_a_local_limit(history, index, (calls - 1) as nat);
        assert(history.is_step(calls - 1));
        lemma_step_of_local_limit(history, calls - 1, index);
    }
}

/// A local limit that was set stays what it is, under its index.
pub proof fn law_local_limit_stays<K, I>(history: PoolHistory<K, I>, at: int, calls: nat)
    requires
        history.is_possible(),
        0 <= at < calls <= history.calls.len(),
    ensures
        history.calls[at] matches PoolCall::SetLocalLimit(limit, index) ==> {
            &&& history.states[calls as int].local.contains_key(index)
            &&& history.states[calls as int].local[index].limit == limit
        },
    decreases calls,
{
    assert(history.is_step(at));
    if let PoolCall::SetLocalLimit(_, index) = history.calls[at] {
        if calls > at + 1 {
            law_local_limit_stays(history, at, (calls - 1) as nat);
            assert(history.is_step(calls - 1));
            lemma_step_of_local_limit(history, calls - 1, index);
        }
    }
}

/// A local limit that was set applies ever after. A pull under its index that lends an item out
/// lends one that counts against it, and lends none while the items and the waiting pulls that
/// hold a permit of it, together with the pulls that wait for one, are as many as it allows. A
/// pull under its index that does not wait for it is refused just then, or for the global limit.
pub proof fn law_set_limit_applies_ever_after<K, I>(
    history: PoolHistory<K, I>,
    set: int,
    limit: nat,
    index: usize,
    at: int,
)
    requires
        history.is_possible(),
        0 <= set < at < history.calls.len(),
        history.calls[set] == PoolCall::<K, I>::SetLocalLimit(limit, index),
    ensures
        ({
            let out = history.local_permits(index, at as nat)
                + history.states[at].local[index].line.len();
            &&& history.calls[at] matches PoolCall::Pull(_, under, pull) ==> under == Some(index)
                ==> {
                &&& pull matches Pull::Ready(item) ==> item.local_limit() == Some(index) && out
                    < limit
                &&& pull matches Pull::Wait(waiter) ==> (waiter.stage() == Stage::Local(index)
                    <==> out >= limit) && (out < limit ==> waiter.stage() == Stage::Global(
                    Some(index),
                ))
            }
            &&& history.calls[at] matches PoolCall::PullUnlessLocalReached(_, under, pull)
                ==> under == Some(index) ==> {
                &&& pull is None <==> out >= limit
                &&& pull matches Some(Pull::Ready(item)) ==> item.local_limit() == Some(index)
                &&& pull matches Some(Pull::Wait(waiter)) ==> waiter.stage() == Stage::Global(
                    Some(index),
                )
            }
            &&& history.calls[at] matches PoolCall::TryPull(_, under, item) ==> under == Some(index)
                ==> {
                &&& out >= limit ==> item is None
                &&& item is Some ==> item->0.local_limit() == Some(index)
            }
        }),
{
    law_local_limit_stays(history, set, at as nat);
    law_items_and_free_permits_make_up_a_local_limit(history, index, at as nat);
    assert(history.is_step(at));
}

/// A pull that counts against no local limit is refused, or has to wait, just if the items that
/// hold a permit of the global limit, together with the pulls that wait for one, are as many as
/// the pool was made for. One that counts against a local limit is refused or has to wait for
/// one of the two only if that is so of it.
pub proof fn law_refusal_means_that_permits_are_out<K, I>(history: PoolHistory<K, I>, at: int)
    requires
        history.is_possible(),
        0 <= at < history.calls.len(),
    ensures
        ({
            let now = history.states[at];
            let out = history.global_permits(at as nat) + now.global->0.line.len();
            let full = history.states[0].global is Some && out >= history.states[0].global->0.limit;
            &&& history.calls[at] matches PoolCall::TryPull(_, under, item) ==> {
                let used_up = under is Some && now.local.contains_key(under->0)
                    && history.local_permits(under->0, at as nat) + now.local[under->0].line.len()
                    >= now.local[under->0].limit;
                item is None <==> full || used_up
            }
            &&& history.calls[at] matches PoolCall::Pull(_, under, pull) ==> {
                let used_up = under is Some && now.local.contains_key(under->0)
                    && history.local_permits(under->0, at as nat) + now.local[under->0].line.len()
                    >= now.local[under->0].limit;
                pull is Wait <==> full || used_up
            }
            &&& history.calls[at] matches PoolCall::PullUnlessLocalReached(_, under, pull) ==> {
                let used_up = under is Some && now.local.contains_key(under->0)
                    && history.local_permits(under->0, at as nat) + now.local[under->0].line.len()
                    >= now.local[under->0].limit;
                &&& pull is None <==> used_up
                &&& pull is Some ==> (pull->0 is Wait <==> full)
            }
            &&& history.calls[at] matches PoolCall::Resume(waiter, pull) ==> (
            waiter.stage() matches Stage::Global(_) ==> (pull is Ready <==> history.global_permits(
                at as nat,
            ) + now.global->0.line.index_of(waiter.ticket()) < history.states[0].global->0.limit))
        }),
{
    law_items_and_free_permits_make_up_the_limit(history, at as nat);
    match history.calls[at] {
        PoolCall::TryPull(_, Some(index), _) => {
            law_items_and_free_permits_make_up_a_local_limit(history, index, at as nat);
        },
        PoolCall::Pull(_, Some(index), _) => {
            law_items_and_free_permits_make_up_a_local_limit(history, index, at as nat);
        },
        PoolCall::PullUnlessLocalReached(_, Some(index), _) => {
            law_items_and_free_permits_make_up_a_local_limit(history, index, at as nat);
        },
        _ => {},
    }
    assert(history.is_step(at));
}

/// A pull that waits for the global limit is not overtaken: whatever others do, it keeps its place
/// in the line or moves up, and a permit that is due to it stays due to it.
pub proof fn law_pull_in_the_global_line_is_not_overtaken<K, I>(
    history: PoolHistory<K, I>,
    at: int,
    ticket: usize,
)
    requires
        history.is_step(at),
        history.states[at].within_limits(),
        history.states[at].global is Some,
        history.states[at].global->0.line.contains(ticket),
        history.calls[at] matches PoolCall::Resume(waiter, _) ==> !(waiter.stage() is Global
            && waiter.ticket() == ticket),
        history.calls[at] matches PoolCall::Cancel(waiter) ==> !(waiter.stage() is Global
            && waiter.ticket() == ticket),
    ensures
        ({
            let before = history.states[at].global->0;
            let after = history.states[at + 1].global->0;
            &&& history.states[at + 1].global is Some
            &&& after.line.contains(ticket)
            &&& after.line.index_of(ticket) <= before.line.index_of(ticket)
            &&& before.lent + before.line.index_of(ticket) < before.limit ==> after.lent
                + after.line.index_of(ticket) < after.limit
        }),
{
    let before = history.states[at].global->0;
    let after = history.states[at + 1].global->0;
    let step = match history.calls[at] {
        PoolCall::SetLocalLimit(_, _) => None,
        PoolCall::Cancel(waiter) => if waiter.stage() is Global {
            Some(LimitStep::Leave(waiter.ticket()))
        } else {
            None
        },
        PoolCall::Release(item) => if item.holds_global() {
            Some(LimitStep::Release)
        } else {
            None
        },
        PoolCall::Take(item) => if item.holds_global() {
            Some(LimitStep::Release)
        } else {
            None
        },
        PoolCall::Resume(waiter, pull) => match (waiter.stage(), pull) {
            (Stage::Global(_), Pull::Ready(_)) => Some(LimitStep::Admit(waiter.ticket())),
            (Stage::Local(_), Pull::Ready(_)) => Some(LimitStep::Acquire),
            (Stage::Local(_), Pull::Wait(next)) => if next.stage() is Global {
                Some(LimitStep::Join(next.ticket()))
            } else {
                None
            },
            _ => None,
        },
        _ => match history.calls[at].pull() {
            Some(Pull::Ready(_)) => Some(LimitStep::Acquire),
            Some(Pull::Wait(next)) => if next.stage() is Global {
                Some(LimitStep::Join(next.ticket()))
            } else {
                None
            },
            None => None,
        },
    };
    match step {
        Some(step) => {
            assert(is_limit_step(before, step, after));
            law_place_in_line_is_kept(before, step, after, ticket);
        },
        None => {
            assert(after == before);
        },
    }
}

/// A pull that waits for a local limit is not overtaken: whatever others do, it keeps its place in
/// the line or moves up, and a permit that is due to it stays due to it.
pub proof fn law_pull_in_a_local_line_is_not_overtaken<K, I>(
    history: PoolHistory<K, I>,
    at: int,
    index: usize,
    ticket: usize,
)
    requires
        history.is_step(at),
        history.states[at].within_limits(),
        history.states[at].local.contains_key(index),
        history.states[at].local[index].line.contains(ticket),
        history.calls[at] matches PoolCall::Resume(waiter, _) ==> !(waiter.stage() == Stage::Local(
            index,
        ) && waiter.ticket() == ticket),
        history.calls[at] matches PoolCall::Cancel(waiter) ==> !(waiter.stage() == Stage::Local(
            index,
        ) && waiter.ticket() == ticket),
    ensures
        ({
            let before = history.states[at].local[index];
            let after = history.states[at + 1].local[index];
            &&& history.states[at + 1].local.contains_key(index)
            &&& after.line.contains(ticket)
            &&& after.line.index_of(ticket) <= before.line.index_of(ticket)
            &&& before.lent + before.line.index_of(ticket) < before.limit ==> after.lent
                + after.line.index_of(ticket) < after.limit
        }),
{
    let before = history.states[at].local[index];
    let after = history.states[at + 1].local[index];
    let step = match history.calls[at] {
        PoolCall::SetLocalLimit(_, _) => None,
        PoolCall::Cancel(waiter) => if waiter.stage() == Stage::Local(index) {
            Some(LimitStep::Leave(waiter.ticket()))
        } else if waiter.stage() == Stage::Global(Some(index)) {
            Some(LimitStep::Release)
        } else {
            None
        },
        PoolCall::Release(item) => if item.local_limit() == Some(index) {
            Some(LimitStep::Release)
        } else {
            None
        },
        PoolCall::Take(item) => if item.local_limit() == Some(index) {
            Some(LimitStep::Release)
        } else {
            None
        },
        PoolCall::Resume(waiter, pull) => if waiter.stage() == Stage::Local(index) && !(
        pull is Wait && pull->Wait_0.stage() is Local) {
            Some(LimitStep::Admit(waiter.ticket()))
        } else {
            None
        },
        _ => match history.calls[at].pull() {
            Some(Pull::Ready(item)) => if item.local_limit() == Some(index) {
                Some(LimitStep::Acquire)
            } else {
                None
            },
            Some(Pull::Wait(next)) => if next.stage() == Stage::Local(index) {
                Some(LimitStep::Join(next.ticket()))
            } else if next.stage() == Stage::Global(Some(index)) {
                Some(LimitStep::Acquire)
            } else {
                None
            },
            None => None,
        },
    };
    match step {
        Some(step) => {
            assert(is_limit_step(before, step, after));
            law_place_in_line_is_kept(before, step, after, ticket);
        },
        None => {
            assert(after == before);
        },
    }
}

/// What a call does to the values that wait.
proof fn lemma_step_of_idle_values<K, I>(history: PoolHistory<K, I>, at: int)
    requires
        history.is_step(at),
        obeys_key_model::<K>(),
    ensures
        ({
            let before = history.states[at].idle;
            let after = history.states[at + 1].idle;
            match history.calls[at] {
                PoolCall::Release(item) => match item.value() {
                    Some(value) => before.insert_to(item.key(), value, after),
                    None => after == before,
                },
                _ => match history.calls[at].lent() {
                    Some(item) => {
                        &&& item.value() == next_value(before.queues[item.key()])
                        &&& after == before.removed(item.key())
                    },
                    None => after == before,
                },
            }
        }),
{
}

/// Whatever a pool evicts, a pull gets no value but one that was returned under its own key: the
/// values that were pulled under a key, followed by those that wait under it, are some of those
/// that were returned under it, in the order in which they came back. None is pulled twice.
pub proof fn law_pulled_values_were_returned<K, I>(
    history: PoolHistory<K, I>,
    key: K,
    calls: nat,
)
    requires
        history.is_possible(),
        obeys_key_model::<K>(),
        calls <= history.calls.len(),
    ensures
        is_subsequence(
            history.pulled(key, calls) + waiting(history.states[calls as int].idle.queues[key]),
            history.returned(key, calls),
        ),
    decreases calls,
{
    if calls > 0 {
        let earlier = (calls - 1) as nat;
        let before = history.states[calls - 1].idle;
        let after = history.states[calls as int].idle;
        let out = history.pulled(key, earlier);
        let stored = history.returned(key, earlier);
        law_pulled_values_were_returned(history, key, earlier);
        assert(history.is_step(calls - 1));
        lemma_step_of_idle_values(history, calls - 1);
        match history.calls[calls - 1] {
            PoolCall::Release(item) => {
                if let Some(value) = item.value() {
                    lemma_insert_keeps_order(before, item.key(), value, after, key, out, stored);
                }
            },
            _ => {
                if let Some(item) = history.calls[calls - 1].lent() {
                    lemma_remove_keeps_order(before, item.key(), key, out, stored);
                }
            },
        }
    } else {
        assert(stands_at(
            history.pulled(key, calls) + waiting(history.states[0].idle.queues[key]),
            history.returned(key, calls),
            Seq::empty(),
        ));
    }
}

/// As long as no value is returned while a pool stores as many as it can, and no queue comes full
/// circle, no value that is returned is lost: the values that were pulled under a key, followed
/// by those that wait under it, are those that were returned under it.
pub proof fn law_no_returned_value_is_lost<K, I>(history: PoolHistory<K, I>, key: K, calls: nat)
    requires
        history.is_possible(),
        history.never_overfull(),
        history.never_full_circle(),
        obeys_key_model::<K>(),
        calls <= history.calls.len(),
    ensures
        history.pulled(key, calls) + waiting(history.states[calls as int].idle.queues[key])
            == history.returned(key, calls),
    decreases calls,
{
    if calls > 0 {
        let before = history.states[calls - 1].idle;
        let after = history.states[calls as int].idle;
        law_no_returned_value_is_lost(history, key, (calls - 1) as nat);
        assert(history.is_step(calls - 1));
        lemma_step_of_idle_values(history, calls - 1);
        match history.calls[calls - 1] {
            PoolCall::Release(item) => {
                if let Some(value) = item.value() {
                    law_no_eviction_below_capacity(before, item.key(), value, after);
                }
            },
            _ => {
                if let Some(item) = history.calls[calls - 1].lent() {
                    law_next_value_is_first_waiting(before.queues[item.key()]);
                    if item.key() == key && item.value() is Some {
                        let values = waiting(before.queues[key]);
                        assert(values =~= seq![values[0]] + values.skip(1));
                    }
                }
            },
        }
    }
    assert(history.pulled(key, calls) + waiting(history.states[calls as int].idle.queues[key])
        =~= history.returned(key, calls));
}

/// The capacity of a pool stays what it is, and a queue has no more places than calls were made.
proof fn lemma_pool_history_bounds<K, I>(history: PoolHistory<K, I>, calls: nat)
    requires
        history.is_possible(),
        calls <= history.calls.len(),
    ensures
        history.states[calls as int].idle.capacity == history.states[0].idle.capacity,
        history.states[0].global is None ==> history.states[calls as int].global is None,
        obeys_key_model::<K>() ==> forall|key: K| #[trigger]
            history.states[calls as int].idle.queues[key].len() <= calls,
    decreases calls,
{
    if calls > 0 {
        let before = history.states[calls - 1];
        let after = history.states[calls as int];
        lemma_pool_history_bounds(history, (calls - 1) as nat);
        assert(history.is_step(calls - 1));
        if obeys_key_model::<K>() {
            assert forall|key: K| #[trigger] after.idle.queues[key].len() <= calls by {
                law_next_value_is_first_waiting(before.idle.queues[key]);
                assert(before.idle.queues[key].len() <= calls - 1);
            }
        }
    }
}

/// It takes as many calls as there are indexes until a queue of a pool has come full circle.
pub proof fn law_full_circle_of_pool_takes_many_calls<K, I>(history: PoolHistory<K, I>)
    requires
        history.is_possible(),
        obeys_key_model::<K>(),
        history.calls.len() <= usize::MAX,
    ensures
        history.never_full_circle(),
{
    assert forall|at: int| 0 <= at < history.calls.len() implies (
    #[trigger] history.calls[at] matches PoolCall::Release(item)
        ==> history.states[at].idle.queues[item.key()].len() < usize::MAX) by {
        lemma_pool_history_bounds(history, at as nat);
        if let PoolCall::Release(item) = history.calls[at] {
            assert(history.states[at].idle.queues[item.key()].len() <= at);
        }
    }
}

/// A pool that was made without a limit never refuses a pull for want of a global permit and
/// never makes one wait for it, whatever is done with the pool, and never stores as much as it
/// can.
pub proof fn law_unbounded_pool_has_no_limit<K, I>(history: PoolHistory<K, I>, at: int)
    requires
        history.is_possible_unbounded(),
        0 <= at < history.calls.len(),
    ensures
        history.calls[at] matches PoolCall::TryPull(_, index, item) ==> (item is None
            <==> history.states[at].local_reached(index)),
        history.calls[at] matches PoolCall::Pull(_, index, pull) ==> (pull is Wait
            <==> history.states[at].local_reached(index)),
        history.calls[at] matches PoolCall::PullUnlessLocalReached(_, index, pull) ==> (pull is None
            <==> history.states[at].local_reached(index)) && (pull is Some ==> pull->0 is Ready),
        !history.states[at].local_reached(None),
        history.never_overfull(),
{
    lemma_pool_history_bounds(history, at as nat);
    assert(history.is_step(at));
    assert forall|other: int|
        0 <= other < history.calls.len() && (
        #[trigger] history.calls[other] matches PoolCall::Release(item) && item.value() is Some)
        implies history.states[other].idle.stored < history.states[other].idle.capacity by {
        lemma_pool_history_bounds(history, other as nat);
        assert(history.is_step(other));
    }
}

/// A pool that was made without a limit never evicts anything. As long as no queue comes full
/// circle, no value that is returned is lost: the values that were pulled under a key, followed
/// by those that wait under it, are those that were returned under it.
pub proof fn law_unbounded_pool_loses_nothing<K, I>(
    history: PoolHistory<K, I>,
    key: K,
    calls: nat,
)
    requires
        history.is_possible_unbounded(),
        history.never_full_circle(),
        obeys_key_model::<K>(),
        calls <= history.calls.len(),
    ensures
        history.pulled(key, calls) + waiting(history.states[calls as int].idle.queues[key])
            == history.returned(key, calls),
{
    if history.calls.len() > 0 {
        law_unbounded_pool_has_no_limit(history, 0);
    }
    law_no_returned_value_is_lost(history, key, calls);
}

} // verus!
