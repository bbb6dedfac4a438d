//! Limits on what may be lent out at a time.
use crate::lane::index_at;
use crate::semaphore::{
    max_permits, semaphore_available, semaphore_closed, semaphore_new, semaphore_permits,
    semaphore_release, semaphore_try_acquire,
};
use slab::Slab;
use tokio::sync::Semaphore;
use vstd::prelude::*;

verus! {

/// `slab::Slab`, of which only the name below is known.
#[verifier::external_type_specification]
#[verifier::external_body]
#[verifier::reject_recursive_types(T)]
pub struct ExSlab<T>(slab::Slab<T>);

/// The numbers that a slab holds, by their keys.
pub uninterp spec fn slab_entries(slab: Slab<usize>) -> Map<usize, usize>;

/// Whether a slab has no vacant slot between or behind its entries.
pub uninterp spec fn slab_compact(slab: Slab<usize>) -> bool;

/// `slab::Slab::new`: an empty slab.
#[verifier::external_body]
pub(crate) fn slab_new() -> (empty: Slab<usize>)
    ensures
        slab_entries(empty).dom() == Set::<usize>::empty(),
        slab_compact(empty),
{
    Slab::new()
}

/// `slab::Slab::insert`: puts a number into the slab, under a key that was not in use, and
/// returns the key. Without a vacant slot, that is the number of entries.
#[verifier::external_body]
pub(crate) fn slab_insert(entries: &mut Slab<usize>, number: usize) -> (key: usize)
    ensures
        !slab_entries(*old(entries)).contains_key(key),
        slab_entries(*final(entries)) == slab_entries(*old(entries)).insert(key, number),
        slab_compact(*old(entries)) ==> key == slab_entries(*old(entries)).len() && slab_compact(
            *final(entries),
        ),
{
    entries.insert(number)
}

/// `slab::Slab::get`: the number under the key, if the key is in use.
#[verifier::external_body]
pub(crate) fn slab_get(entries: &Slab<usize>, key: usize) -> (number: Option<usize>)
    ensures
        number == if slab_entries(*entries).contains_key(key) {
            Some(slab_entries(*entries)[key])
        } else {
            None
        },
{
    entries.get(key).copied()
}

/// A limit, how much of it is in use, and what waits for it.
#[verifier::ext_equal]
pub struct LimitView {
    /// How many permits there are.
    pub limit: nat,
    /// How many of them are lent out.
    pub lent: nat,
    /// The tickets of the pulls that wait for a permit, first to last.
    pub line: Seq<usize>,
}

impl LimitView {
    /// A limit of which nothing is in use.
    pub open spec fn unused(limit: nat) -> Self {
        LimitView { limit, lent: 0, line: Seq::empty() }
    }

    /// The number of permits that are neither lent out nor due to a pull that waits.
    pub open spec fn free(self) -> nat {
        if self.lent + self.line.len() < self.limit {
            (self.limit - self.lent - self.line.len()) as nat
        } else {
            0
        }
    }

    /// The number of permits that are due to pulls that wait.
    pub open spec fn reserved(self) -> nat {
        if self.lent + self.line.len() < self.limit {
            self.line.len()
        } else if self.lent < self.limit {
            (self.limit - self.lent) as nat
        } else {
            0
        }
    }

    /// Every permit is lent out, or due to a pull that waits.
    pub open spec fn is_reached(self) -> bool {
        self.free() == 0
    }

    /// A permit is due to the pull with the ticket: no more pulls are in front of it than there
    /// are permits left for them.
    pub open spec fn is_due(self, ticket: usize) -> bool {
        &&& self.line.contains(ticket)
        &&& self.lent + self.line.index_of(ticket) < self.limit
    }

    /// One more permit is lent out.
    pub open spec fn acquired(self) -> Self {
        LimitView { lent: self.lent + 1, ..self }
    }

    /// One permit has come back.
    pub open spec fn released(self) -> Self {
        LimitView { lent: (self.lent - 1) as nat, ..self }
    }

    /// A pull has joined the end of the line.
    pub open spec fn joined(self, ticket: usize) -> Self {
        LimitView { line: self.line.push(ticket), ..self }
    }

    /// The pull with the ticket has left the line.
    pub open spec fn left(self, ticket: usize) -> Self {
        LimitView { line: self.line.remove(self.line.index_of(ticket)), ..self }
    }

    /// The pull with the ticket has left the line with a permit.
    pub open spec fn admitted(self, ticket: usize) -> Self {
        self.left(ticket).acquired()
    }

    /// No more is lent out than the limit allows, and no two pulls that wait have the same
    /// ticket.
    pub open spec fn is_kept(self) -> bool {
        self.lent <= self.limit && self.line.no_duplicates()
    }
}

/// A limit on how many permits are lent out at a time. Pulls that wait for a permit stand in
/// line for it.
pub struct Limit {
    semaphore: Semaphore,
    limit: Ghost<nat>,
    line: Vec<usize>,
    next_ticket: usize,
}

impl View for Limit {
    type V = LimitView;

    closed spec fn view(&self) -> LimitView {
        LimitView {
            limit: self.limit@,
            lent: (self.limit@ - semaphore_permits(self.semaphore)) as nat,
            line: self.line@,
        }
    }
}

/// Where the ticket stands in the line.
fn position_of(line: &Vec<usize>, ticket: usize) -> (position: Option<usize>)
    requires
        line@.no_duplicates(),
    ensures
        match position {
            Some(position) => {
                &&& position < line@.len()
                &&& line@[position as int] == ticket
                &&& line@.contains(ticket)
                &&& position == line@.index_of(ticket)
            },
            None => !line@.contains(ticket),
        },
{
    let mut position: usize = 0;
    while position < line.len()
        invariant
            position <= line@.len(),
            line@.no_duplicates(),
            forall|other: int| 0 <= other < position ==> line@[other] != ticket,
        decreases line@.len() - position,
    {
        if line[position] == ticket {
            assert(line@.contains(ticket));
            return Some(position);
        }
        position += 1;
    }
    None
}

/// Of more numbers than a line is long, the line lacks one.
proof fn lemma_line_lacks_one(line: Seq<usize>, start: usize)
    requires
        line.len() <= usize::MAX,
    ensures
        exists|step: int|
            0 <= step <= line.len() && !line.contains(#[trigger] index_at(start, step)),
{
    if forall|step: int|
        0 <= step <= line.len() ==> line.contains(#[trigger] index_at(start, step)) {
        let number = |step: int| index_at(start, step);
        let steps = vstd::set_lib::set_int_range(0, line.len() as int + 1);
        vstd::set_lib::lemma_int_range(0, line.len() as int + 1);
        assert forall|step: int, other: int|
            steps.contains(step) && steps.contains(other) && #[trigger] number(step)
                == #[trigger] number(other) implies step == other by {}
        vstd::set_lib::lemma_map_size(steps, steps.map(number), number);
        vstd::seq_lib::seq_to_set_is_finite(line);
        vstd::set_lib::lemma_len_subset(steps.map(number), line.to_set());
        line.lemma_cardinality_of_set();
    }
}

impl Limit {
    /// The permits that are lent out and those that are available make up the limit, and no
    /// two pulls that wait have the same ticket.
    pub closed spec fn wf(&self) -> bool {
        &&& !semaphore_closed(self.semaphore)
        &&& semaphore_permits(self.semaphore) <= self.limit@ <= max_permits()
        &&& self.line@.no_duplicates()
    }

    /// No more is lent out than the limit allows.
    pub proof fn lemma_is_kept(self)
        requires
            self.wf(),
        ensures
            self@.is_kept(),
            self@.limit <= max_permits(),
    {
    }

    /// Creates a limit of which nothing is in use.
    pub fn new(limit: usize) -> (created: Self)
        requires
            limit <= max_permits(),
        ensures
            created.wf(),
            created@ == LimitView::unused(limit as nat),
    {
        Limit {
            semaphore: semaphore_new(limit),
            limit: Ghost(limit as nat),
            line: Vec::new(),
            next_ticket: 0,
        }
    }

    /// Takes a permit, unless the limit is reached, and returns whether it did.
    pub fn try_acquire(&mut self) -> (acquired: bool)
        requires
            old(self).wf(),
        ensures
            final(self).wf(),
            acquired == !old(self)@.is_reached(),
            final(self)@ == if acquired {
                old(self)@.acquired()
            } else {
                old(self)@
            },
    {
        self.available_permits() > 0 && semaphore_try_acquire(&mut self.semaphore)
    }

    /// Stands in line for a permit, and returns the ticket for it.
    pub fn join(&mut self) -> (ticket: usize)
        requires
            old(self).wf(),
        ensures
            final(self).wf(),
            !old(self)@.line.contains(ticket),
            final(self)@ == old(self)@.joined(ticket),
    {
        let mut ticket: usize = self.next_ticket;
        let ghost mut steps: int = 0;
        assert(self.line@.len() == self.line.len());
        while position_of(&self.line, ticket).is_some()
            invariant
                self.wf(),
                *self == *old(self),
                0 <= steps <= self.line@.len() <= usize::MAX,
                ticket == index_at(self.next_ticket, steps),
                forall|step: int|
                    0 <= step < steps ==> self.line@.contains(
                        #[trigger] index_at(self.next_ticket, step),
                    ),
            decreases self.line@.len() - steps,
        {
            proof {
                lemma_line_lacks_one(self.line@, self.next_ticket);
                steps = steps + 1;
            }
            ticket = ticket.wrapping_add(1);
        }
        self.next_ticket = ticket.wrapping_add(1);
        self.line.push(ticket);
        ticket
    }

    /// Leaves the line with a permit, if one is due to the ticket, and returns whether it is.
    pub fn try_admit(&mut self, ticket: usize) -> (admitted: bool)
        requires
            old(self).wf(),
        ensures
            final(self).wf(),
            admitted == old(self)@.is_due(ticket),
            final(self)@ == if admitted {
                old(self)@.admitted(ticket)
            } else {
                old(self)@
            },
    {
        match position_of(&self.line, ticket) {
            Some(position) => {
                if position < semaphore_available(&self.semaphore) {
                    self.line.remove(position);
                    semaphore_try_acquire(&mut self.semaphore)
                } else {
                    false
                }
            },
            None => false,
        }
    }

    /// Leaves the line without a permit.
    pub fn leave(&mut self, ticket: usize)
        requires
            old(self).wf(),
            old(self)@.line.contains(ticket),
        ensures
            final(self).wf(),
            final(self)@ == old(self)@.left(ticket),
    {
        if let Some(position) = position_of(&self.line, ticket) {
            self.line.remove(position);
        }
    }

    /// Gives a permit back.
    pub fn release(&mut self)
        requires
            old(self).wf(),
            old(self)@.lent > 0,
        ensures
            final(self).wf(),
            final(self)@ == old(self)@.released(),
    {
        semaphore_release(&mut self.semaphore)
    }

    /// The number of permits that are neither lent out nor due to a pull that waits.
    pub fn available_permits(&self) -> (permits: usize)
        requires
            self.wf(),
        ensures
            permits == self@.free(),
    {
        let permits: usize = semaphore_available(&self.semaphore);
        if self.line.len() < permits {
            permits - self.line.len()
        } else {
            0
        }
    }
}

/// Limits, each of which is found by the index that it was given.
///
/// The slab gives out the indexes. Under each it holds the position of the limit.
pub struct LocalLimits {
    positions: Slab<usize>,
    limits: Vec<Limit>,
}

impl View for LocalLimits {
    type V = Map<usize, LimitView>;

    closed spec fn view(&self) -> Map<usize, LimitView> {
        slab_entries(self.positions).map_values(|position: usize| self.limits@[position as int]@)
    }
}

impl LocalLimits {
    /// Every index leads to a limit of its own.
    pub closed spec fn wf(&self) -> bool {
        &&& slab_compact(self.positions)
        &&& forall|index: usize| #[trigger]
            slab_entries(self.positions).contains_key(index) ==> slab_entries(
                self.positions,
            )[index] < self.limits@.len()
        &&& forall|index: usize, other: usize|
            #![trigger slab_entries(self.positions).contains_key(index), slab_entries(self.positions).contains_key(other)]
            slab_entries(self.positions).contains_key(index) && slab_entries(
                self.positions,
            ).contains_key(other) && index != other ==> slab_entries(self.positions)[index]
                != slab_entries(self.positions)[other]
        &&& forall|position: int|
            0 <= position < self.limits@.len() ==> (#[trigger] self.limits@[position]).wf()
    }

    /// Every limit is kept to.
    pub proof fn lemma_are_kept(self)
        requires
            self.wf(),
        ensures
            forall|index: usize| #[trigger]
                self@.contains_key(index) ==> self@[index].is_kept() && self@[index].limit
                    <= max_permits(),
    {
        assert forall|index: usize| #[trigger] self@.contains_key(index) implies self@[index].is_kept()
            && self@[index].limit <= max_permits() by {
            self.limits@[slab_entries(self.positions)[index] as int].lemma_is_kept();
        }
    }

    /// No limits.
    pub fn new() -> (limits: Self)
        ensures
            limits.wf(),
            limits@ == Map::<usize, LimitView>::empty(),
    {
        let limits = LocalLimits { positions: slab_new(), limits: Vec::new() };
        assert(limits@ =~= Map::<usize, LimitView>::empty());
        limits
    }

    /// Adds a limit, and returns the index that it is found by.
    pub fn insert(&mut self, limit: usize) -> (index: usize)
        requires
            old(self).wf(),
            limit <= max_permits(),
        ensures
            final(self).wf(),
            !old(self)@.contains_key(index),
            index == old(self)@.len(),
            final(self)@ == old(self)@.insert(index, LimitView::unused(limit as nat)),
    {
        let position: usize = self.limits.len();
        self.limits.push(Limit::new(limit));
        let index = slab_insert(&mut self.positions, position);
        assert(old(self)@.dom() =~= slab_entries(old(self).positions).dom());
        assert(self@ =~= old(self)@.insert(index, LimitView::unused(limit as nat)));
        index
    }

    /// The position of the limit with the index, if there is one.
    fn position(&self, index: usize) -> (position: Option<usize>)
        requires
            self.wf(),
        ensures
            match position {
                Some(position) => {
                    &&& self@.contains_key(index)
                    &&& slab_entries(self.positions).contains_key(index)
                    &&& slab_entries(self.positions)[index] == position
                    &&& position < self.limits@.len()
                    &&& self.limits@[position as int].wf()
                    &&& self.limits@[position as int]@ == self@[index]
                },
                None => !self@.contains_key(index),
            },
    {
        slab_get(&self.positions, index)
    }

    /// If one limit changes, then so does what is found by its index, and nothing else.
    proof fn lemma_one_changes(self, after: Self, index: usize)
        requires
            self.wf(),
            self@.contains_key(index),
            after.positions == self.positions,
            after.limits@ == self.limits@.update(
                slab_entries(self.positions)[index] as int,
                after.limits@[slab_entries(self.positions)[index] as int],
            ),
            after.limits@[slab_entries(self.positions)[index] as int].wf(),
        ensures
            after.wf(),
            after@ == self@.insert(
                index,
                after.limits@[slab_entries(self.positions)[index] as int]@,
            ),
    {
        assert(slab_entries(self.positions).contains_key(index));
        assert(after@ =~= self@.insert(
            index,
            after.limits@[slab_entries(self.positions)[index] as int]@,
        ));
    }

    /// Whether there is a limit with the index.
    pub fn contains(&self, index: usize) -> (contained: bool)
        ensures
            contained == self@.contains_key(index),
    {
        slab_get(&self.positions, index).is_some()
    }

    /// Takes a permit of the limit with the index, unless it is reached, and returns whether it
    /// did.
    pub fn try_acquire(&mut self, index: usize) -> (acquired: bool)
        requires
            old(self).wf(),
            old(self)@.contains_key(index),
        ensures
            final(self).wf(),
            acquired == !old(self)@[index].is_reached(),
            final(self)@ == if acquired {
                old(self)@.insert(index, old(self)@[index].acquired())
            } else {
                old(self)@
            },
    {
        match self.position(index) {
            Some(position) => {
                let acquired = self.limits[position].try_acquire();
                proof {
                    old(self).lemma_one_changes(*self, index);
                    assert(!acquired ==> self@ =~= old(self)@);
                }
                acquired
            },
            None => false,
        }
    }

    /// Stands in line for a permit of the limit with the index, and returns the ticket for it.
    pub fn join(&mut self, index: usize) -> (ticket: usize)
        requires
            old(self).wf(),
            old(self)@.contains_key(index),
        ensures
            final(self).wf(),
            !old(self)@[index].line.contains(ticket),
            final(self)@ == old(self)@.insert(index, old(self)@[index].joined(ticket)),
    {
        match self.position(index) {
            Some(position) => {
                let ticket = self.limits[position].join();
                proof {
                    old(self).lemma_one_changes(*self, index);
                }
                ticket
            },
            None => 0,
        }
    }

    /// Leaves the line of the limit with the index with a permit, if one is due to the ticket,
    /// and returns whether it is.
    pub fn try_admit(&mut self, index: usize, ticket: usize) -> (admitted: bool)
        requires
            old(self).wf(),
            old(self)@.contains_key(index),
        ensures
            final(self).wf(),
            admitted == old(self)@[index].is_due(ticket),
            final(self)@ == if admitted {
                old(self)@.insert(index, old(self)@[index].admitted(ticket))
            } else {
                old(self)@
            },
    {
        match self.position(index) {
            Some(position) => {
                let admitted = self.limits[position].try_admit(ticket);
                proof {
                    old(self).lemma_one_changes(*self, index);
                    assert(!admitted ==> self@ =~= old(self)@);
                }
                admitted
            },
            None => false,
        }
    }

    /// Leaves the line of the limit with the index without a permit.
    pub fn leave(&mut self, index: usize, ticket: usize)
        requires
            old(self).wf(),
            old(self)@.contains_key(index),
            old(self)@[index].line.contains(ticket),
        ensures
            final(self).wf(),
            final(self)@ == old(self)@.insert(index, old(self)@[index].left(ticket)),
    {
        if let Some(position) = self.position(index) {
            self.limits[position].leave(ticket);
            proof {
                old(self).lemma_one_changes(*self, index);
            }
        }
    }

    /// Gives a permit back to the limit with the index.
    pub fn release(&mut self, index: usize)
        requires
            old(self).wf(),
            old(self)@.contains_key(index),
            old(self)@[index].lent > 0,
        ensures
            final(self).wf(),
            final(self)@ == old(self)@.insert(index, old(self)@[index].released()),
    {
        if let Some(position) = self.position(index) {
            self.limits[position].release();
            proof {
                old(self).lemma_one_changes(*self, index);
            }
        }
    }

    /// The number of permits of the limit with the index that are neither lent out nor due to a
    /// pull that waits.
    pub fn available_permits(&self, index: usize) -> (permits: Option<usize>)
        requires
            self.wf(),
        ensures
            match permits {
                Some(permits) => self@.contains_key(index) && permits == self@[index].free(),
                None => !self@.contains_key(index),
            },
    {
        match self.position(index) {
            Some(position) => Some(self.limits[position].available_permits()),
            None => None,
        }
    }
}

} // verus!
