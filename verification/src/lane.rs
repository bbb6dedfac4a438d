//! The queue of one key: the values that wait under it, by the index that each was given.
use std::collections::HashMap;
use vstd::prelude::*;

verus! {

broadcast use vstd::std_specs::hash::group_hash_axioms;

/// The index that stands `offset` places behind `start`, on the circle of all `usize` values.
pub open spec fn index_at(start: usize, offset: int) -> usize {
    if start + offset <= usize::MAX {
        (start + offset) as usize
    } else {
        (start + offset - usize::MAX - 1) as usize
    }
}

/// How many places behind `start` the index stands, on the circle of all `usize` values.
pub open spec fn distance(start: usize, index: usize) -> nat {
    if start <= index {
        (index - start) as nat
    } else {
        (index - start + usize::MAX + 1) as nat
    }
}

/// A queue of places, each of which holds a value until the value leaves it.
///
/// Places are numbered by indexes that wrap around. `read` is the index of the first place of
/// the queue and `write` the index that the next value will get, so that equal indexes mean an
/// empty queue.
pub struct Lane<V> {
    read: usize,
    write: usize,
    values: HashMap<usize, V>,
}

impl<V> View for Lane<V> {
    type V = Seq<Option<V>>;

    /// The places of the queue, first to last: `Some` where the value is still there.
    closed spec fn view(&self) -> Seq<Option<V>> {
        Seq::new(
            distance(self.read, self.write),
            |offset: int|
                if self.values@.contains_key(index_at(self.read, offset)) {
                    Some(self.values@[index_at(self.read, offset)])
                } else {
                    None
                },
        )
    }
}

impl<V> Lane<V> {
    /// Every value lies under the index of a place of the queue.
    pub closed spec fn wf(&self) -> bool {
        forall|index: usize| #[trigger]
            self.values@.contains_key(index) ==> distance(self.read, index) < distance(
                self.read,
                self.write,
            )
    }

    /// The index of the first place.
    pub closed spec fn first_index(&self) -> usize {
        self.read
    }

    /// The value of the place with the given index is still there.
    pub open spec fn holds(&self, index: usize) -> bool {
        &&& distance(self.first_index(), index) < self@.len()
        &&& self@[distance(self.first_index(), index) as int] is Some
    }

    /// A queue has fewer places than there are indexes.
    pub proof fn lemma_len(self)
        ensures
            self@.len() <= usize::MAX,
    {
    }

    /// An empty queue.
    pub fn new() -> (lane: Self)
        ensures
            lane.wf(),
            lane@ == Seq::<Option<V>>::empty(),
    {
        Lane { read: 0, write: 0, values: HashMap::new() }
    }

    /// Whether the queue has no place.
    pub fn is_empty(&self) -> (empty: bool)
        ensures
            empty == (self@.len() == 0),
    {
        self.read == self.write
    }

    /// Whether one more place would make the first index and the next index equal.
    pub fn is_full(&self) -> (full: bool)
        ensures
            full == (self@.len() == usize::MAX),
            self@.len() <= usize::MAX,
    {
        self.write.wrapping_add(1) == self.read
    }

    /// Adds a place for the value at the end, and returns its index.
    pub fn push(&mut self, value: V) -> (index: usize)
        requires
            old(self).wf(),
            old(self)@.len() < usize::MAX,
        ensures
            final(self).wf(),
            final(self)@ == old(self)@.push(Some(value)),
            final(self).first_index() == old(self).first_index(),
            index == index_at(old(self).first_index(), old(self)@.len() as int),
            forall|other: usize| #[trigger]
                final(self).holds(other) == (old(self).holds(other) || other == index),
            !old(self).holds(index),
    {
        let index: usize = self.write;
        self.write = index.wrapping_add(1);
        self.values.insert(index, value);
        index
    }

    /// Takes the first place off, and returns its index and its value, if that is still there.
    pub fn pop(&mut self) -> (first: (usize, Option<V>))
        requires
            old(self).wf(),
            old(self)@.len() > 0,
        ensures
            final(self).wf(),
            final(self)@ == old(self)@.skip(1),
            final(self).first_index() == index_at(old(self).first_index(), 1),
            first.0 == old(self).first_index(),
            first.1 == old(self)@[0],
            forall|other: usize| #[trigger]
                final(self).holds(other) == (old(self).holds(other) && other != first.0),
    {
        let index: usize = self.read;
        self.read = index.wrapping_add(1);
        let value = self.values.remove(&index);
        (index, value)
    }

    /// Drops the value of the place with the given index. The place stays.
    pub fn evict(&mut self, index: usize)
        requires
            old(self).wf(),
            old(self).holds(index),
        ensures
            final(self).wf(),
            final(self)@ == old(self)@.update(
                distance(old(self).first_index(), index) as int,
                None,
            ),
            final(self).first_index() == old(self).first_index(),
            forall|other: usize| #[trigger]
                final(self).holds(other) == (old(self).holds(other) && other != index),
    {
        self.values.remove(&index);
    }
}

} // verus!
