//! What holds of multimaps and pools as a whole, from one call to the next.
use crate::limits::LimitView;
use crate::model::{after_next, is_subsequence, next_value, stands_at, waiting, MultimapView};
use crate::pool::{Item, PoolView, Pull, Stage, Waiter};
use vstd::prelude::*;
use vstd::std_specs::hash::obeys_key_model;

verus! {

/// What is removed from a queue is the first of the values that wait in it, and the others wait
/// on in their order.
pub proof fn law_next_value_is_first_waiting<V>(places: Seq<Option<V>>)
    ensures
        next_value(places) is Some <==> waiting(places).len() > 0,
        next_value(places) is Some ==> {
            &&& next_value(places) == Some(waiting(places)[0])
            &&& waiting(after_next(places)) == waiting(places).skip(1)
        },
        next_value(places) is None ==> after_next(places).len() == 0,
        places.len() > 0 ==> after_next(places).len() < places.len(),
    decreases places.len(),
{
    if places.len() > 0 && places[0] is None {
        law_next_value_is_first_waiting(places.skip(1));
    } else if places.len() > 0 {
        assert(waiting(places).skip(1) =~= waiting(places.skip(1)));
    }
}

/// A value that gets a place at the end of a queue waits behind all others.
pub proof fn law_pushed_value_waits_last<V>(places: Seq<Option<V>>, value: V)
    ensures
        waiting(places.push(Some(value))) == waiting(places).push(value),
    decreases places.len(),
{
    let pushed = places.push(Some(value));
    if places.len() == 0 {
        assert(waiting(pushed.skip(1)) =~= Seq::<V>::empty());
        assert(waiting(pushed) =~= waiting(places).push(value));
    } else {
        law_pushed_value_waits_last(places.skip(1), value);
        assert(pushed.skip(1) =~= places.skip(1).push(Some(value)));
        assert(waiting(pushed) =~= waiting(places).push(value));
    }
}

/// An eviction takes exactly one of the values that wait in a queue, and the others wait on in
/// their order.
pub proof fn law_eviction_takes_one<V>(places: Seq<Option<V>>, offset: int)
    requires
        0 <= offset < places.len(),
        places[offset] is Some,
    ensures
        exists|position: int|
            #![trigger waiting(places)[position]]
            0 <= position < waiting(places).len() && waiting(places)[position] == places[offset]->0
                && waiting(places.update(offset, None)) == waiting(places).remove(position),
    decreases places.len(),
{
    let evicted = places.update(offset, None);
    if offset == 0 {
        assert(evicted.skip(1) =~= places.skip(1));
        assert(waiting(places)[0] == places[0]->0);
        assert(waiting(evicted) =~= waiting(places).remove(0));
    } else {
        law_eviction_takes_one(places.skip(1), offset - 1);
        assert(evicted.skip(1) =~= places.skip(1).update(offset - 1, None));
        let rest = waiting(places.skip(1));
        let inner = choose|position: int|
            #![trigger rest[position]]
            0 <= position < rest.len() && rest[position] == places[offset]->0 && waiting(
                evicted.skip(1),
            ) == rest.remove(position);
        if places[0] is Some {
            assert(waiting(places)[inner + 1] == places[offset]->0);
            assert(waiting(evicted) =~= waiting(places).remove(inner + 1));
        } else {
            assert(waiting(places)[inner] == places[offset]->0);
        }
    }
}

/// A multimap that stores fewer values than its capacity keeps all of them when one more is
/// stored.
pub proof fn law_no_eviction_below_capacity<K, V>(
    before: MultimapView<K, V>,
    key: K,
    value: V,
    after: MultimapView<K, V>,
)
    requires
        before.insert_to(key, value, after),
        before.queues[key].len() < usize::MAX,
        before.stored < before.capacity,
    ensures
        after.stored == before.stored + 1,
        waiting(after.queues[key]) == waiting(before.queues[key]).push(value),
        forall|other: K| other != key ==> #[trigger] after.queues[other] == before.queues[other],
{
    law_pushed_value_waits_last(before.queues[key], value);
}

/// A multimap that is full gives up one value when one more is stored.
pub proof fn law_full_multimap_evicts<K, V>(
    before: MultimapView<K, V>,
    key: K,
    value: V,
    after: MultimapView<K, V>,
)
    requires
        before.insert_to(key, value, after),
        before.queues[key].len() < usize::MAX,
        before.stored == before.capacity,
    ensures
        after.stored == before.stored,
        exists|from: K, offset: int| before.evicts(key, value, from, offset, after),
{
}

/// A value that is stored waits last under its key, whatever is evicted for it, unless nothing
/// can be stored at all.
pub proof fn law_inserted_value_waits_last<K, V>(
    before: MultimapView<K, V>,
    key: K,
    value: V,
    after: MultimapView<K, V>,
)
    requires
        before.insert_to(key, value, after),
        before.queues[key].len() < usize::MAX,
        before.capacity > 0,
    ensures
        waiting(after.queues[key]).len() > 0,
        waiting(after.queues[key]).last() == value,
        waiting(after.queues[key]).len() <= waiting(before.queues[key]).len() + 1,
{
    let queue = before.queues[key];
    law_pushed_value_waits_last(queue, value);
    if !before.keeps_all(key, value, after) {
        let (from, offset) = choose|from: K, offset: int|
            before.evicts(key, value, from, offset, after);
        if from == key {
            law_eviction_takes_one(queue, offset);
            law_pushed_value_waits_last(queue.update(offset, None), value);
            assert(after.queues[key] =~= queue.update(offset, None).push(Some(value)));
        }
    }
}

/// What is stored under a key under which nothing waits is what is removed next.
pub proof fn law_inserted_value_comes_back<K, V>(
    before: MultimapView<K, V>,
    key: K,
    value: V,
    after: MultimapView<K, V>,
)
    requires
        before.insert_to(key, value, after),
        before.queues[key].len() < usize::MAX,
        before.capacity > 0,
        next_value(before.queues[key]) is None,
    ensures
        next_value(after.queues[key]) == Some(value),
        next_value(after.removed(key).queues[key]) is None,
{
    law_next_value_is_first_waiting(before.queues[key]);
    law_inserted_value_waits_last(before, key, value, after);
    law_next_value_is_first_waiting(after.queues[key]);
    law_next_value_is_first_waiting(after_next(after.queues[key]));
}

/// Storing a value under one key costs any other key one value at most, and does not disturb
/// the order of the others.
pub proof fn law_insert_spares_other_keys<K, V>(
    before: MultimapView<K, V>,
    key: K,
    value: V,
    after: MultimapView<K, V>,
    other: K,
)
    requires
        before.insert_to(key, value, after),
        other != key,
    ensures
        waiting(after.queues[other]) == waiting(before.queues[other]) || exists|position: int|
            #![trigger waiting(before.queues[other])[position]]
            0 <= position < waiting(before.queues[other]).len() && waiting(after.queues[other])
                == waiting(before.queues[other]).remove(position),
{
    if before.queues[key].len() < usize::MAX && !before.keeps_all(key, value, after) {
        let (from, offset) = choose|from: K, offset: int|
            before.evicts(key, value, from, offset, after);
        if from == other {
            law_eviction_takes_one(before.queues[other], offset);
        }
    }
}

/// Some of the values are still some of them once one more value has come to them, whether or
/// not it is taken along.
pub(crate) proof fn lemma_subsequence_grows<V>(values: Seq<V>, others: Seq<V>, value: V)
    requires
        is_subsequence(values, others),
    ensures
        is_subsequence(values, others.push(value)),
        is_subsequence(values.push(value), others.push(value)),
{
    let positions = choose|positions: Seq<int>| stands_at(values, others, positions);
    assert(stands_at(values, others.push(value), positions));
    assert(stands_at(
        values.push(value),
        others.push(value),
        positions.push(others.len() as int),
    ));
}

/// Some of the values are still some of them once one is left out.
proof fn lemma_subsequence_without<V>(values: Seq<V>, others: Seq<V>, position: int)
    requires
        is_subsequence(values, others),
        0 <= position < values.len(),
    ensures
        is_subsequence(values.remove(position), others),
{
    let positions = choose|positions: Seq<int>| stands_at(values, others, positions);
    assert(stands_at(values.remove(position), others, positions.remove(position)));
}

/// The first of some of the values are some of them.
proof fn lemma_first_are_subsequence<V>(first: Seq<V>, rest: Seq<V>, others: Seq<V>)
    requires
        is_subsequence(first + rest, others),
    ensures
        is_subsequence(first, others),
{
    let positions = choose|positions: Seq<int>| stands_at(first + rest, others, positions);
    let kept = positions.take(first.len() as int);
    assert forall|at: int| 0 <= at < kept.len() implies 0 <= #[trigger] kept[at] < others.len()
        && first[at] == others[kept[at]] by {
        assert((first + rest)[at] == others[positions[at]]);
    }
    assert(stands_at(first, others, kept));
}

/// If what has come out under a key, followed by what waits under it, is some of what was stored
/// under it, then it still is once a value is stored.
pub(crate) proof fn lemma_insert_keeps_order<K, V>(
    before: MultimapView<K, V>,
    key: K,
    value: V,
    after: MultimapView<K, V>,
    other: K,
    out: Seq<V>,
    stored: Seq<V>,
)
    requires
        before.insert_to(key, value, after),
        is_subsequence(out + waiting(before.queues[other]), stored),
    ensures
        is_subsequence(
            out + waiting(after.queues[other]),
            if other == key {
                stored.push(value)
            } else {
                stored
            },
        ),
{
    let waits = waiting(before.queues[other]);
    if before.queues[key].len() >= usize::MAX {
        if other == key {
            lemma_first_are_subsequence(out, waits, stored);
            lemma_subsequence_grows(out, stored, value);
            assert(out + waiting(after.queues[other]) =~= out);
        }
    } else {
        let pushed = before.pushed(key, value)[other];
        let came = if other == key {
            stored.push(value)
        } else {
            stored
        };
        if other == key {
            lemma_subsequence_grows(out + waits, stored, value);
            law_pushed_value_waits_last(before.queues[key], value);
            assert(out + waiting(pushed) =~= (out + waits).push(value));
        }
        assert(is_subsequence(out + waiting(pushed), came));
        if before.stored >= before.capacity {
            let (from, offset) = choose|from: K, offset: int|
                before.evicts(key, value, from, offset, after);
            if from == other {
                law_eviction_takes_one(pushed, offset);
                let position = choose|position: int|
                    #![trigger waiting(pushed)[position]]
                    0 <= position < waiting(pushed).len() && waiting(pushed)[position]
                        == pushed[offset]->0 && waiting(pushed.update(offset, None)) == waiting(
                        pushed,
                    ).remove(position);
                lemma_subsequence_without(out + waiting(pushed), came, out.len() + position);
                assert(out + waiting(after.queues[other]) =~= (out + waiting(pushed)).remove(
                    out.len() + position,
                ));
            }
        }
    }
}

/// If what has come out under a key, followed by what waits under it, is some of what was stored
/// under it, then it still is once a value is removed.
pub(crate) proof fn lemma_remove_keeps_order<K, V>(
    before: MultimapView<K, V>,
    key: K,
    other: K,
    out: Seq<V>,
    stored: Seq<V>,
)
    requires
        is_subsequence(out + waiting(before.queues[other]), stored),
    ensures
        is_subsequence(
            (if other == key && next_value(before.queues[key]) is Some {
                out.push(next_value(before.queues[key])->0)
            } else {
                out
            }) + waiting(before.removed(key).queues[other]),
            stored,
        ),
{
    law_next_value_is_first_waiting(before.queues[key]);
    if other == key {
        let waits = waiting(before.queues[key]);
        if next_value(before.queues[key]) is Some {
            assert(out.push(waits[0]) + waits.skip(1) =~= out + waits);
        } else {
            assert(out + waiting(before.removed(key).queues[key]) =~= out + waits);
        }
    }
}

/// Whatever has to give way when a value is stored, the capacity is kept to, and what waits
/// under a key afterwards is some of what waited under it before, followed by the value if it
/// was stored under that key.
pub proof fn law_insert_only_drops<K, V>(
    before: MultimapView<K, V>,
    key: K,
    value: V,
    after: MultimapView<K, V>,
    other: K,
)
    requires
        before.insert_to(key, value, after),
        before.stored <= before.capacity,
    ensures
        after.stored <= after.capacity == before.capacity,
        is_subsequence(
            waiting(after.queues[other]),
            if other == key {
                waiting(before.queues[other]).push(value)
            } else {
                waiting(before.queues[other])
            },
        ),
{
    let waits = waiting(before.queues[other]);
    let none = Seq::<V>::empty();
    assert(stands_at(waits, waits, Seq::new(waits.len(), |at: int| at)));
    assert(none + waits =~= waits);
    lemma_insert_keeps_order(before, key, value, after, other, none, waits);
    assert(none + waiting(after.queues[other]) =~= waiting(after.queues[other]));
}

/// Removing a value under one key leaves the others alone, and takes one value if one waits.
pub proof fn law_remove_takes_one<K, V>(before: MultimapView<K, V>, key: K, other: K)
    ensures
        other != key ==> before.removed(key).queues[other] == before.queues[other],
        waiting(before.removed(key).queues[key]) == if waiting(before.queues[key]).len() > 0 {
            waiting(before.queues[key]).skip(1)
        } else {
            Seq::empty()
        },
        before.removed(key).stored == before.stored - (if waiting(before.queues[key]).len() > 0 {
            1int
        } else {
            0
        }),
{
    law_next_value_is_first_waiting(before.queues[key]);
}

/// What is done to a limit.
pub enum LimitStep {
    /// A permit is taken by a pull that does not wait.
    Acquire,
    /// A permit is given back.
    Release,
    /// A pull stands in line, with this ticket.
    Join(usize),
    /// A pull leaves the line with a permit.
    Admit(usize),
    /// A pull leaves the line without a permit.
    Leave(usize),
}

/// The step can be taken, and leads to `after`.
pub open spec fn is_limit_step(before: LimitView, step: LimitStep, after: LimitView) -> bool {
    match step {
        LimitStep::Acquire => !before.is_reached() && after == before.acquired(),
        LimitStep::Release => before.lent > 0 && after == before.released(),
        LimitStep::Join(ticket) => {
            &&& !before.line.contains(ticket)
            &&& after == before.joined(ticket)
        },
        LimitStep::Admit(ticket) => before.is_due(ticket) && after == before.admitted(ticket),
        LimitStep::Leave(ticket) => {
            &&& before.line.contains(ticket)
            &&& after == before.left(ticket)
        },
    }
}

/// How many permits are out after the given steps.
pub open spec fn taken_less_returned(steps: Seq<LimitStep>) -> int
    decreases steps.len(),
{
    if steps.len() == 0 {
        0
    } else {
        taken_less_returned(steps.drop_last()) + match steps.last() {
            LimitStep::Acquire => 1int,
            LimitStep::Admit(_) => 1,
            LimitStep::Release => -1,
            _ => 0,
        }
    }
}

/// Whatever is done to a limit, what is out never exceeds it, and what is counted as out is just
/// what was taken and has not come back.
pub proof fn law_limit_counts_what_is_out(states: Seq<LimitView>, steps: Seq<LimitStep>)
    requires
        states.len() == steps.len() + 1,
        states[0].is_kept(),
        forall|at: int|
            #![trigger steps[at]]
            0 <= at < steps.len() ==> is_limit_step(states[at], steps[at], states[at + 1]),
    ensures
        states.last().is_kept(),
        states.last().limit == states[0].limit,
        states.last().lent == states[0].lent + taken_less_returned(steps),
    decreases steps.len(),
{
    if steps.len() > 0 {
        let earlier = states.drop_last();
        let last = steps.len() - 1;
        assert forall|at: int|
            #![trigger steps.drop_last()[at]]
            0 <= at < steps.drop_last().len() implies is_limit_step(
            earlier[at],
            steps.drop_last()[at],
            earlier[at + 1],
        ) by {
            assert(steps[at] == steps.drop_last()[at]);
        }
        law_limit_counts_what_is_out(earlier, steps.drop_last());
        assert(is_limit_step(states[last], steps[last], states[last + 1]));
    }
}

/// A pull that does not stand in line gets a permit only if one is due to every pull that does.
pub proof fn law_nobody_is_overtaken(limit: LimitView, ticket: usize)
    requires
        !limit.is_reached(),
        limit.line.contains(ticket),
    ensures
        limit.is_due(ticket),
{
}

/// The line is served in its order: a permit that is due to a pull is due to every pull in front
/// of it.
pub proof fn law_line_is_served_in_order(limit: LimitView, front: usize, back: usize)
    requires
        limit.line.contains(front),
        limit.line.index_of(front) <= limit.line.index_of(back),
        limit.is_due(back),
    ensures
        limit.is_due(front),
{
}

/// Nothing that others do takes away a permit that is due to a pull, nor its place in the line:
/// it keeps its place or moves up.
pub proof fn law_place_in_line_is_kept(
    before: LimitView,
    step: LimitStep,
    after: LimitView,
    ticket: usize,
)
    requires
        before.is_kept(),
        before.line.contains(ticket),
        is_limit_step(before, step, after),
        step != LimitStep::Admit(ticket),
        step != LimitStep::Leave(ticket),
    ensures
        after.line.contains(ticket),
        after.line.index_of(ticket) <= before.line.index_of(ticket),
        before.is_due(ticket) ==> after.is_due(ticket),
{
    let place = before.line.index_of(ticket);
    match step {
        LimitStep::Join(_) => {
            assert(after.line[place] == ticket);
        },
        LimitStep::Admit(other) => {
            lemma_moves_up(before.line, other, ticket);
        },
        LimitStep::Leave(other) => {
            lemma_moves_up(before.line, other, ticket);
        },
        _ => {},
    }
}

proof fn lemma_moves_up(line: Seq<usize>, other: usize, ticket: usize)
    requires
        line.no_duplicates(),
        line.contains(other),
        line.contains(ticket),
        other != ticket,
    ensures
        ({
            let after = line.remove(line.index_of(other));
            &&& after.contains(ticket)
            &&& after.index_of(ticket) == if line.index_of(other) < line.index_of(ticket) {
                line.index_of(ticket) - 1
            } else {
                line.index_of(ticket)
            }
        }),
{
    let gone = line.index_of(other);
    let place = line.index_of(ticket);
    let after = line.remove(gone);
    if gone < place {
        assert(after[place - 1] == ticket);
    } else {
        assert(after[place] == ticket);
    }
}

/// The permits that are kept for pulls that wait are due to just as many of the first of them.
pub proof fn law_reserved_permits_are_due_to_the_first(limit: LimitView, ticket: usize)
    requires
        limit.is_kept(),
    ensures
        limit.lent + limit.reserved() + limit.free() == limit.limit,
        limit.is_due(ticket) <==> limit.line.contains(ticket) && limit.line.index_of(ticket)
            < limit.reserved(),
{
    if limit.line.contains(ticket) {
        assert(0 <= limit.line.index_of(ticket) < limit.line.len());
    }
}

/// A permit that comes back is due to the first pull in the line, or free if there is none.
pub proof fn law_returned_permit_goes_to_the_first(limit: LimitView)
    requires
        limit.is_kept(),
        limit.lent > 0,
    ensures
        limit.line.len() == 0 ==> !limit.released().is_reached(),
        limit.line.len() > 0 ==> limit.released().is_due(limit.line[0]),
{
    if limit.line.len() > 0 {
        assert(limit.released().line.contains(limit.line[0]));
    }
}

/// A pull is ready just if neither limit is reached, and stands last in line for a limit that is
/// reached otherwise.
pub proof fn law_pull_waits_for_reached_limit<K, I>(
    before: PoolView<K, I>,
    key: K,
    index: Option<usize>,
    pull: Pull<K, I>,
    after: PoolView<K, I>,
)
    requires
        before.pulls(key, index, pull, after),
    ensures
        pull is Ready <==> !before.local_reached(index) && !before.global_reached(),
        pull matches Pull::Wait(waiter) ==> after.awaits(waiter) && match waiter.stage() {
            Stage::Local(local) => {
                &&& index == Some(local)
                &&& before.local_reached(index)
                &&& after.local[local].line.last() == waiter.ticket()
            },
            Stage::Global(local) => {
                &&& local == before.applying(index)
                &&& before.global_reached()
                &&& after.global->0.line.last() == waiter.ticket()
            },
        },
{
    if let Pull::Wait(waiter) = pull {
        match waiter.stage() {
            Stage::Local(local) => {
                let line = before.local[local].line;
                assert(after.local[local].line[line.len() as int] == waiter.ticket());
            },
            Stage::Global(_) => {
                let line = before.global->0.line;
                assert(after.global->0.line[line.len() as int] == waiter.ticket());
            },
        }
    }
}

/// A pull that could wait is ready without waiting just if one that does not wait would not be
/// refused, and then nothing tells the two apart: they lend out the same, and leave the same
/// behind.
pub proof fn law_waiting_makes_no_difference_if_ready<K, I>(
    before: PoolView<K, I>,
    key: K,
    index: Option<usize>,
    tried: Option<Item<K, I>>,
    after_try: PoolView<K, I>,
    pull: Pull<K, I>,
    after_pull: PoolView<K, I>,
)
    requires
        before.tries(key, index, tried, after_try),
        before.pulls(key, index, pull, after_pull),
    ensures
        pull is Ready <==> tried is Some,
        tried is None ==> after_try == before,
        pull is Ready ==> {
            &&& after_pull.same_but_idle(after_try)
            &&& pull->Ready_0.same_but_value(tried->0)
            &&& obeys_key_model::<K>() ==> {
                &&& pull->Ready_0.value() == tried->0.value()
                &&& after_pull == after_try
            }
        },
{
}

/// A pull that has just come to stand in line and is given up leaves the pool as it was before.
pub proof fn law_cancelled_pull_leaves_no_trace<K, I>(
    before: PoolView<K, I>,
    key: K,
    index: Option<usize>,
    waiter: Waiter<K>,
    after: PoolView<K, I>,
)
    requires
        before.within_limits(),
        before.pulls(key, index, Pull::Wait(waiter), after),
    ensures
        after.cancelled(waiter) == before,
{
    let ticket = waiter.ticket();
    match waiter.stage() {
        Stage::Local(local) => {
            let line = before.local[local].line;
            lemma_last_leaves(line, ticket);
            assert(after.cancelled(waiter).local =~= before.local);
        },
        Stage::Global(local) => {
            let line = before.global->0.line;
            lemma_last_leaves(line, ticket);
            assert(after.cancelled(waiter).local =~= before.local);
        },
    }
}

proof fn lemma_last_leaves(line: Seq<usize>, ticket: usize)
    requires
        !line.contains(ticket),
    ensures
        line.push(ticket).index_of(ticket) == line.len(),
        line.push(ticket).remove(line.push(ticket).index_of(ticket)) == line,
{
    let joined = line.push(ticket);
    assert(joined[line.len() as int] == ticket);
    let place = joined.index_of(ticket);
    if place < line.len() {
        assert(line[place] == ticket);
    }
    assert(joined.remove(place) =~= line);
}

/// Once an item has come back, the permits that it held are due to the first pulls that wait for
/// them, or free if none does.
pub proof fn law_returned_item_ends_waiting<K, I>(before: PoolView<K, I>, item: Item<K, I>)
    requires
        before.within_limits(),
        before.has_lent(item),
    ensures
        before.permits_released(item).within_limits(),
        item.holds_global() ==> {
            let limit = before.permits_released(item).global->0;
            if limit.line.len() > 0 {
                limit.is_due(limit.line[0])
            } else {
                !limit.is_reached()
            }
        },
        item.local_limit() matches Some(index) ==> {
            let limit = before.permits_released(item).local[index];
            if limit.line.len() > 0 {
                limit.is_due(limit.line[0])
            } else {
                !limit.is_reached()
            }
        },
{
    if item.holds_global() {
        law_returned_permit_goes_to_the_first(before.global->0);
    }
    if let Some(index) = item.local_limit() {
        law_returned_permit_goes_to_the_first(before.local[index]);
    }
}

/// An index that no local limit has is as good as none.
pub proof fn law_unknown_index_limits_nothing<K, I>(
    before: PoolView<K, I>,
    key: K,
    index: Option<usize>,
    pull: Pull<K, I>,
    after: PoolView<K, I>,
)
    requires
        before.applying(index) is None,
    ensures
        before.pulls(key, index, pull, after) <==> before.pulls(key, None, pull, after),
        before.pulls(key, index, pull, after) <==> before.grants(key, None, pull, after),
{
}

/// A pool without a global limit makes a pull wait for nothing but a local limit.
pub proof fn law_unbounded_pool_never_waits<K, I>(
    before: PoolView<K, I>,
    key: K,
    index: Option<usize>,
    pull: Pull<K, I>,
    after: PoolView<K, I>,
)
    requires
        before.global is None,
        before.pulls(key, index, pull, after),
        !before.local_reached(index),
    ensures
        pull is Ready,
        !pull->Ready_0.holds_global(),
        after.global is None,
{
}

/// An item that comes back, or whose value is taken, gives back just the permits that its pull
/// took.
pub proof fn law_returned_item_restores_permits<K, I>(
    before: PoolView<K, I>,
    key: K,
    index: Option<usize>,
    item: Item<K, I>,
    after: PoolView<K, I>,
)
    requires
        before.pulls(key, index, Pull::Ready(item), after),
    ensures
        after.has_lent(item),
        after.permits_released(item).same_but_idle(before),
        after.permits_released(item).idle == after.idle,
{
    assert(after.permits_released(item).local =~= before.local);
}

/// What is written into an item is what comes back with it, under the key that it was pulled
/// for. It changes neither the permits that the item holds nor what else is stored.
pub proof fn law_written_value_comes_back<K, I>(
    pulled: Item<K, I>,
    written: Item<K, I>,
    before: PoolView<K, I>,
    after: PoolView<K, I>,
)
    requires
        written.same_but_value(pulled),
        before.takes_back(written, after),
    ensures
        before.has_lent(written) <==> before.has_lent(pulled),
        before.permits_released(written) == before.permits_released(pulled),
        after.same_but_idle(before.permits_released(pulled)),
        match written.value() {
            Some(value) => obeys_key_model::<K>() ==> before.idle.insert_to(
                pulled.key(),
                value,
                after.idle,
            ),
            None => after.idle == before.idle,
        },
{
}

/// The value of an item that comes back is pulled next for its key, if nothing else waits under
/// the key, and if the pool can hold values at all.
pub proof fn law_returned_value_is_pulled_next<K, I>(
    before: MultimapView<K, I>,
    returned: Item<K, I>,
    between: PoolView<K, I>,
    local: Option<usize>,
    item: Item<K, I>,
    after: PoolView<K, I>,
)
    requires
        obeys_key_model::<K>(),
        returned.value() is Some,
        before.capacity > 0,
        before.queues[returned.key()].len() < usize::MAX,
        next_value(before.queues[returned.key()]) is None,
        before.insert_to(returned.key(), returned.value()->0, between.idle),
        between.lends(returned.key(), local, item, after),
    ensures
        item.value() == returned.value(),
        next_value(after.idle.queues[returned.key()]) is None,
{
    law_inserted_value_comes_back(before, returned.key(), returned.value()->0, between.idle);
}

} // verus!
