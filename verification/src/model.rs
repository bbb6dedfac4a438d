//! What a multimap holds, in mathematical terms.
use crate::cache::can_number_one_more;
use vstd::prelude::*;

verus! {

/// The first value that is still there, in a queue of places.
pub open spec fn next_value<V>(places: Seq<Option<V>>) -> Option<V>
    decreases places.len(),
{
    if places.len() == 0 {
        None
    } else if places[0] is Some {
        places[0]
    } else {
        next_value(places.skip(1))
    }
}

/// The places behind the first value that is still there.
pub open spec fn after_next<V>(places: Seq<Option<V>>) -> Seq<Option<V>>
    decreases places.len(),
{
    if places.len() == 0 {
        places
    } else if places[0] is Some {
        places.skip(1)
    } else {
        after_next(places.skip(1))
    }
}

/// The values that are still there, first to last.
pub open spec fn waiting<V>(places: Seq<Option<V>>) -> Seq<V>
    decreases places.len(),
{
    if places.len() == 0 {
        Seq::empty()
    } else if places[0] is Some {
        seq![places[0]->0] + waiting(places.skip(1))
    } else {
        waiting(places.skip(1))
    }
}

/// The values are the others at the given positions, which are in ascending order.
pub open spec fn stands_at<V>(values: Seq<V>, others: Seq<V>, positions: Seq<int>) -> bool {
    &&& positions.len() == values.len()
    &&& forall|at: int|
        0 <= at < positions.len() ==> 0 <= #[trigger] positions[at] < others.len() && values[at]
            == others[positions[at]]
    &&& forall|one: int, other: int|
        0 <= one < other < positions.len() ==> positions[one] < positions[other]
}

/// The values are some of the others, in the order of the others: nothing is added, nothing
/// comes twice, and nothing is out of order.
pub open spec fn is_subsequence<V>(values: Seq<V>, others: Seq<V>) -> bool {
    exists|positions: Seq<int>| stands_at(values, others, positions)
}

/// What a multimap holds.
#[verifier::reject_recursive_types(K)]
pub struct MultimapView<K, V> {
    /// For every key its queue of places. A place is `Some` until its value is evicted.
    pub queues: Map<K, Seq<Option<V>>>,
    /// How many values are stored under all keys together.
    pub stored: int,
    /// How many values can be stored at most.
    pub capacity: nat,
}

impl<K, V> MultimapView<K, V> {
    /// Nothing is stored under any key.
    pub open spec fn is_new(self) -> bool {
        &&& self.queues == Map::new(|key: K| true, |key: K| Seq::<Option<V>>::empty())
        &&& self.stored == 0
    }

    /// The places whose value is still there, by the key and the offset in its queue.
    pub open spec fn filled(self) -> Set<(K, int)> {
        Set::new(
            |place: (K, int)|
                0 <= place.1 < self.queues[place.0].len() && self.queues[place.0][place.1] is Some,
        )
    }

    /// One more value can be stored. That is so in any case if the capacity is not extremely
    /// large.
    pub open spec fn has_room(self) -> bool {
        can_number_one_more(self.stored, self.capacity)
    }

    /// How many values are stored once one more is.
    pub open spec fn stored_after_insert(self) -> int {
        if self.stored < self.capacity {
            self.stored + 1
        } else {
            self.stored
        }
    }

    /// The queues once the value has got a place at the end of the queue of its key.
    pub open spec fn pushed(self, key: K, value: V) -> Map<K, Seq<Option<V>>> {
        self.queues.insert(key, self.queues[key].push(Some(value)))
    }

    /// `after` is what can become of the multimap when the value is stored under the key.
    ///
    /// The value goes to the end of the queue of the key. If the capacity is reached, then one
    /// value is evicted, though never the new one, unless nothing can be stored at all. A queue
    /// that has come full circle, with as many places as there are indexes, is empty
    /// afterwards, since its first index and its next index are equal then.
    pub open spec fn insert_to(self, key: K, value: V, after: Self) -> bool {
        &&& after.capacity == self.capacity
        &&& if self.queues[key].len() >= usize::MAX {
            &&& after.queues == self.queues.insert(key, Seq::empty())
            &&& after.stored == self.stored - waiting(self.queues[key]).len()
        } else if self.stored < self.capacity {
            self.keeps_all(key, value, after)
        } else {
            exists|from: K, offset: int| self.evicts(key, value, from, offset, after)
        }
    }

    /// The value is stored under the key, and nothing is evicted.
    pub open spec fn keeps_all(self, key: K, value: V, after: Self) -> bool {
        &&& after.queues == self.pushed(key, value)
        &&& after.stored == self.stored + 1
    }

    /// The value is stored under the key, and that at `offset` in the queue of the key `from`
    /// is evicted.
    pub open spec fn evicts(self, key: K, value: V, from: K, offset: int, after: Self) -> bool {
        let pushed = self.pushed(key, value);
        &&& 0 <= offset < pushed[from].len()
        &&& pushed[from][offset] is Some
        &&& from == key && offset == self.queues[key].len() ==> self.capacity == 0
        &&& after.queues == pushed.insert(from, pushed[from].update(offset, None))
        &&& after.stored == self.stored
    }

    /// The multimap once the next value of the key is taken out, together with the places in
    /// front of it.
    pub open spec fn removed(self, key: K) -> Self {
        MultimapView {
            queues: self.queues.insert(key, after_next(self.queues[key])),
            stored: if next_value(self.queues[key]) is Some {
                self.stored - 1
            } else {
                self.stored
            },
            ..self
        }
    }
}

} // verus!
