//! The arena that takes single objects only, with chunk sizes that are exact
//! powers of two.

use vstd::prelude::*;
use vstd::arithmetic::power2::{pow2, lemma2_to64, lemma_pow2_unfold};
use vstd::layout::size_of;
use vstd::pervasive::unreached;
use crate::chunks::ChunkList;
use crate::growth::{capacity_limit, chunk_capacity_limit, level_capacity};
use crate::laws::{
    doubling_exact, lemma_alloc_contents, lemma_alloc_keeps_slots, lemma_alloc_span_values,
    lemma_replaced_keeps_rest, lemma_single_alloc_keeps_shape,
};
use crate::model::{
    admits, after_alloc, alloc_span, contents, history_full, holds, replaced, value_at,
    well_formed, ChunkView, lemma_alloc_well_formed, lemma_chunk_count_bound,
};
use crate::slot::Slot;

verus! {

/// Why an element type cannot be kept in a [`SimpleArena`].
#[derive(Clone, Copy, Debug, PartialEq, Eq, Structural)]
pub enum LayoutError {
    /// The type has size zero.
    ZeroSized,
    /// One object of the type is larger than any allocation may be.
    Oversized,
}

/// A simple arena of objects of type `T`.
///
/// Objects are placed one at a time with [`SimpleArena::allocate`]; runs are
/// not supported. Chunk `i` has room for exactly two to the power `i`
/// objects, and a chunk is retired only when it is full. Element types of
/// size zero are refused when the arena is made.
pub struct SimpleArena<T> {
    list: ChunkList<T>,
}

impl<T> View for SimpleArena<T> {
    type V = Seq<ChunkView<T>>;

    /// The chunks of the arena, oldest first; the last one is open.
    closed spec fn view(&self) -> Seq<ChunkView<T>> {
        self.list@
    }
}

impl<T> SimpleArena<T> {
    /// The layout rules hold of this arena, chunk `i` has capacity two to
    /// the power `i`, every retired chunk is full, and the element type has
    /// a size that is not zero and that one allocation can span.
    pub open spec fn wf(&self) -> bool {
        &&& well_formed(self@)
        &&& doubling_exact(self@)
        &&& history_full(self@)
        &&& 0 < size_of::<T>() <= isize::MAX
    }

    /// The most elements of type `T` that one chunk may hold.
    pub open spec fn limit() -> nat {
        capacity_limit(size_of::<T>())
    }

    /// The capacity of the chunk at `level`, which is two to the power
    /// `level`: `None` exactly when a chunk of that many objects of type `T`
    /// would span more bytes than an allocation may.
    pub fn chunk_capacity(level: usize) -> (cap: Option<usize>)
        ensures
            cap.is_some() <==> pow2(level as nat) <= Self::limit(),
            cap.is_some() ==> cap.unwrap() == pow2(level as nat),
    {
        level_capacity(level, chunk_capacity_limit(core::mem::size_of::<T>()))
    }

    /// An empty arena: one open chunk with room for one object, no history.
    ///
    /// The element type is checked here, before anything is allocated: a
    /// type of size zero is refused, and so is a type of which a single
    /// object is larger than an allocation may be.
    pub fn new() -> (made: Result<Self, LayoutError>)
        ensures
            made == Err::<Self, LayoutError>(LayoutError::ZeroSized) <==> size_of::<T>() == 0,
            made == Err::<Self, LayoutError>(LayoutError::Oversized) <==> size_of::<T>()
                > isize::MAX,
            made.is_ok() ==> made.unwrap().wf() && made.unwrap()@ == seq![
                ChunkView::<T> { cap: 1, items: Seq::empty() },
            ] && contents(made.unwrap()@) == Seq::<T>::empty(),
    {
        let size: usize = core::mem::size_of::<T>();
        if size == 0 {
            return Err(LayoutError::ZeroSized);
        }
        proof {
            lemma2_to64();
            let top = isize::MAX as nat;
            let bytes = size as nat;
            assert((top / bytes >= 1) <==> bytes <= top) by (nonlinear_arith)
                requires
                    bytes > 0,
            ;
        }
        match Self::chunk_capacity(0) {
            Some(cap) => {
                let arena = SimpleArena { list: ChunkList::new(cap) };
                assert(doubling_exact(arena@));
                assert(history_full(arena@));
                Ok(arena)
            },
            None => Err(LayoutError::Oversized),
        }
    }

    /// Whether one more object is within the capacity that the machine can
    /// represent. [`SimpleArena::allocate`] must not be called when it is
    /// not.
    pub fn can_alloc(&self) -> (ok: bool)
        requires
            self.wf(),
        ensures
            ok == admits(self@, 1, Self::limit()),
    {
        if self.list.room() >= 1 {
            true
        } else {
            proof {
                self.lemma_next_level();
            }
            Self::chunk_capacity(self.list.chunk_count()).is_some()
        }
    }

    /// Places `value` in the arena and returns its position.
    ///
    /// The object goes to the next free slot of the open chunk. If that
    /// chunk is full, it is retired and a chunk of twice its capacity is
    /// opened first. No object that is already in the arena moves or
    /// changes.
    pub fn allocate(&mut self, value: T) -> (slot: Slot)
        requires
            old(self).wf(),
            admits(old(self)@, 1, Self::limit()),
        ensures
            final(self).wf(),
            final(self)@ == after_alloc(old(self)@, seq![value]),
            slot == alloc_span(old(self)@, 1).start(),
            !holds(old(self)@, slot),
            holds(final(self)@, slot),
            value_at(final(self)@, slot) == value,
            forall|s: Slot|
                holds(old(self)@, s) ==> holds(final(self)@, s) && value_at(final(self)@, s)
                    == value_at(old(self)@, s),
            contents(final(self)@) == contents(old(self)@).push(value),
    {
        let ghost before = self@;
        if self.list.room() == 0 {
            proof {
                self.lemma_next_level();
            }
            match Self::chunk_capacity(self.list.chunk_count()) {
                Some(cap) => {
                    self.list.open_chunk(cap);
                },
                None => {
                    unreached::<()>();
                },
            }
        }
        let slot = self.list.push(value);
        proof {
            let items = seq![value];
            lemma_chunk_count_bound(before);
            lemma_alloc_well_formed(before, items);
            lemma_alloc_span_values(before, items);
            assert(alloc_span(before, 1).nth(0) == slot);
            lemma_alloc_contents(before, items);
            assert(contents(before) + items =~= contents(before).push(value));
            lemma_single_alloc_keeps_shape(before, value);
            assert forall|s: Slot| holds(before, s) implies holds(self@, s) && value_at(self@, s)
                == value_at(before, s) by {
                lemma_alloc_keeps_slots(before, items, s);
            }
        }
        slot
    }

    /// The chunk that follows the open one has twice its capacity.
    proof fn lemma_next_level(&self)
        requires
            self.wf(),
        ensures
            pow2(self@.len()) == 2 * self@.last().cap,
            2 * self@.last().cap >= 1,
    {
        lemma_pow2_unfold(self@.len());
    }

    /// Whether an object lives at `slot`.
    pub fn contains(&self, slot: Slot) -> (found: bool)
        ensures
            found == holds(self@, slot),
    {
        self.list.contains(slot)
    }

    /// The object at `slot`.
    pub fn get(&self, slot: Slot) -> (value: &T)
        requires
            holds(self@, slot),
        ensures
            *value == value_at(self@, slot),
    {
        self.list.get(slot)
    }

    /// The object at `slot`, for update in place. Nothing but that object
    /// changes, and no object moves.
    pub fn get_mut(&mut self, slot: Slot) -> (value: &mut T)
        requires
            holds(old(self)@, slot),
        ensures
            *value == value_at(old(self)@, slot),
            final(self)@ == replaced(old(self)@, slot, *final(value)),
            old(self).wf() ==> final(self).wf(),
    {
        let ghost before = self@;
        let value = self.list.get_mut(slot);
        proof {
            lemma_replaced_keeps_rest(before, slot, *final(value));
        }
        value
    }

    /// The number of objects in the arena.
    pub fn len(&self) -> (count: usize)
        requires
            self.wf(),
        ensures
            count == contents(self@).len(),
    {
        self.list.len()
    }

    /// The chunk list of the arena, to read its layout.
    pub fn chunks(&self) -> (list: &ChunkList<T>)
        ensures
            list@ == self@,
    {
        &self.list
    }

    /// Ends the arena: hands over every object exactly once, in the order of
    /// allocation, and releases every chunk.
    pub fn teardown(self) -> (values: Vec<T>)
        ensures
            values@ == contents(self@),
    {
        self.list.teardown()
    }
}

} // verus!
