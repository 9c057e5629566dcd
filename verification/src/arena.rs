//! The arena that takes single objects and whole sequences.

use vstd::prelude::*;
use vstd::layout::size_of;
use vstd::pervasive::unreached;
use crate::chunks::ChunkList;
use crate::growth::{capacity_limit, chunk_capacity_limit, next_capacity};
use crate::laws::{
    doubling_exact, lemma_alloc_contents, lemma_alloc_keeps_slots, lemma_alloc_span_values,
    lemma_replaced_keeps_rest, lemma_single_alloc_keeps_shape,
};
use crate::model::{
    admits, after_alloc, alloc_span, contents, history_full, holds, holds_span, replaced,
    value_at, values_in, well_formed, ChunkView, lemma_alloc_well_formed,
    lemma_chunk_count_bound,
};
use crate::slot::{Slot, Span};

verus! {

/// An arena of objects of type `T`.
///
/// Objects are placed one at a time with [`Arena::allocate`] or as a contiguous
/// run with [`Arena::alloc_slice`]. Each placement returns the position of
/// what was placed; the position stays valid, and the object stays where it
/// is, until the arena is torn down. The first chunk has room for one
/// object, and each further chunk has at least twice the room of the one
/// before.
///
/// Any element type is accepted, types of size zero included: objects are
/// told apart by position, not by address.
pub struct Arena<T> {
    list: ChunkList<T>,
}

impl<T> View for Arena<T> {
    type V = Seq<ChunkView<T>>;

    /// The chunks of the arena, oldest first; the last one is open.
    closed spec fn view(&self) -> Seq<ChunkView<T>> {
        self.list@
    }
}

impl<T> Arena<T> {
    /// The layout rules hold of this arena.
    pub open spec fn wf(&self) -> bool {
        well_formed(self@)
    }

    /// The most elements of type `T` that one chunk may hold.
    pub open spec fn limit() -> nat {
        capacity_limit(size_of::<T>())
    }

    /// An empty arena: one open chunk with room for one object, no history.
    pub fn new() -> (arena: Self)
        ensures
            arena.wf(),
            arena@ == seq![ChunkView::<T> { cap: 1, items: Seq::empty() }],
            contents(arena@) == Seq::<T>::empty(),
    {
        Arena { list: ChunkList::new(1) }
    }

    /// Whether an allocation of `count` objects is within the capacity that
    /// the machine can represent. [`Arena::allocate`] and
    /// [`Arena::alloc_slice`] must not be called when it is not.
    pub fn can_alloc(&self, count: usize) -> (ok: bool)
        requires
            self.wf(),
        ensures
            ok == admits(self@, count as nat, Self::limit()),
    {
        if count <= self.list.room() {
            true
        } else {
            let limit = chunk_capacity_limit(core::mem::size_of::<T>());
            next_capacity(self.list.open_capacity(), count, limit).is_some()
        }
    }

    /// Places `value` in the arena and returns its position.
    ///
    /// The object goes to the next free slot of the open chunk. If that
    /// chunk is full, it is retired and a chunk of twice its capacity is
    /// opened first. No object that is already in the arena moves or
    /// changes.
    pub fn allocate(&mut self, value: T) -> (slot: Slot)
        requires
            old(self).wf(),
            admits(old(self)@, 1, Self::limit()),
        ensures
            final(self).wf(),
            final(self)@ == after_alloc(old(self)@, seq![value]),
            slot == alloc_span(old(self)@, 1).start(),
            !holds(old(self)@, slot),
            holds(final(self)@, slot),
            value_at(final(self)@, slot) == value,
            forall|s: Slot|
                holds(old(self)@, s) ==> holds(final(self)@, s) && value_at(final(self)@, s)
                    == value_at(old(self)@, s),
            contents(final(self)@) == contents(old(self)@).push(value),
            history_full(old(self)@) ==> history_full(final(self)@),
            doubling_exact(old(self)@) ==> doubling_exact(final(self)@),
    {
        let ghost before = self@;
        if self.list.room() == 0 {
            let limit = chunk_capacity_limit(core::mem::size_of::<T>());
            match next_capacity(self.list.open_capacity(), 1, limit) {
                Some(cap) => {
                    self.list.open_chunk(cap);
                },
                None => {
                    unreached::<()>();
                },
            }
        }
        let slot = self.list.push(value);
        proof {
            let items = seq![value];
            lemma_chunk_count_bound(before);
            lemma_alloc_well_formed(before, items);
            lemma_alloc_span_values(before, items);
            assert(alloc_span(before, 1).nth(0) == slot);
            lemma_alloc_contents(before, items);
            assert(contents(before) + items =~= contents(before).push(value));
            lemma_single_alloc_keeps_shape(before, value);
            assert forall|s: Slot| holds(before, s) implies holds(self@, s) && value_at(self@, s)
                == value_at(before, s) by {
                lemma_alloc_keeps_slots(before, items, s);
            }
        }
        slot
    }

    /// Moves every object of `values` into the arena as one contiguous run
    /// and returns the positions of the run.
    ///
    /// The run goes to the tail of the open chunk. If that chunk has too
    /// little room, it is retired and a chunk is opened that has twice its
    /// capacity, or room for the whole run if that is more. The objects keep
    /// their order. No object that is already in the arena moves or changes.
    pub fn alloc_slice(&mut self, values: Vec<T>) -> (span: Span)
        requires
            old(self).wf(),
            admits(old(self)@, values@.len(), Self::limit()),
        ensures
            final(self).wf(),
            final(self)@ == after_alloc(old(self)@, values@),
            span == alloc_span(old(self)@, values@.len()),
            holds_span(final(self)@, span),
            values_in(final(self)@, span) == values@,
            forall|s: Slot| span.covers(s) ==> !holds(old(self)@, s),
            forall|s: Slot|
                holds(old(self)@, s) ==> holds(final(self)@, s) && value_at(final(self)@, s)
                    == value_at(old(self)@, s),
            contents(final(self)@) == contents(old(self)@) + values@,
    {
        let ghost before = self@;
        let ghost items = values@;
        let count = values.len();
        if self.list.room() < count {
            let limit = chunk_capacity_limit(core::mem::size_of::<T>());
            match next_capacity(self.list.open_capacity(), count, limit) {
                Some(cap) => {
                    self.list.open_chunk(cap);
                },
                None => {
                    unreached::<()>();
                },
            }
        }
        let span = self.list.extend(values);
        proof {
            lemma_chunk_count_bound(before);
            lemma_alloc_well_formed(before, items);
            lemma_alloc_span_values(before, items);
            lemma_alloc_contents(before, items);
            assert forall|s: Slot| holds(before, s) implies holds(self@, s) && value_at(self@, s)
                == value_at(before, s) by {
                lemma_alloc_keeps_slots(before, items, s);
            }
        }
        span
    }

    /// Whether an object lives at `slot`.
    pub fn contains(&self, slot: Slot) -> (found: bool)
        ensures
            found == holds(self@, slot),
    {
        self.list.contains(slot)
    }

    /// Whether `span` lies wholly inside the objects of one chunk.
    pub fn contains_span(&self, span: Span) -> (found: bool)
        ensures
            found == holds_span(self@, span),
    {
        self.list.contains_span(span)
    }

    /// The object at `slot`.
    pub fn get(&self, slot: Slot) -> (value: &T)
        requires
            holds(self@, slot),
        ensures
            *value == value_at(self@, slot),
    {
        self.list.get(slot)
    }

    /// The object at `slot`, for update in place. Nothing but that object
    /// changes, and no object moves.
    pub fn get_mut(&mut self, slot: Slot) -> (value: &mut T)
        requires
            holds(old(self)@, slot),
        ensures
            *value == value_at(old(self)@, slot),
            final(self)@ == replaced(old(self)@, slot, *final(value)),
            old(self).wf() ==> final(self).wf(),
    {
        let ghost before = self@;
        let value = self.list.get_mut(slot);
        proof {
            lemma_replaced_keeps_rest(before, slot, *final(value));
        }
        value
    }

    /// The objects of `span` as one contiguous slice.
    pub fn slice(&self, span: Span) -> (values: &[T])
        requires
            holds_span(self@, span),
        ensures
            values@ == values_in(self@, span),
    {
        self.list.slice(span)
    }

    /// The number of objects in the arena.
    pub fn len(&self) -> (count: usize)
        requires
            self.wf(),
        ensures
            count == contents(self@).len(),
    {
        self.list.len()
    }

    /// The chunk list of the arena, to read its layout.
    pub fn chunks(&self) -> (list: &ChunkList<T>)
        ensures
            list@ == self@,
    {
        &self.list
    }

    /// Ends the arena: hands over every object exactly once, in the order of
    /// allocation, and releases every chunk.
    pub fn teardown(self) -> (values: Vec<T>)
        ensures
            values@ == contents(self@),
    {
        self.list.teardown()
    }
}

impl<T> Default for Arena<T> {
    /// The same as [`Arena::new`].
    fn default() -> (arena: Self)
        ensures
            arena.wf(),
            arena@ == seq![ChunkView::<T> { cap: 1, items: Seq::empty() }],
            contents(arena@) == Seq::<T>::empty(),
    {
        Arena::new()
    }
}

} // verus!
