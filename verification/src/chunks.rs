//! The chunk list: an ordered history of retired chunks and one open chunk
//! that takes new elements at its tail.

use vstd::prelude::*;
use crate::model::{
    contents, filled, holds, holds_span, opened, replaced, room, value_at, values_in, well_formed,
    ChunkView, lemma_alloc_well_formed, lemma_chunk_count_bound, lemma_contents_len,
    lemma_contents_step, lemma_total_capacity_bound,
};
use crate::laws::lemma_replaced_keeps_rest;
use crate::slot::{Slot, Span};

verus! {

struct Chunk<T> {
    items: Vec<T>,
    cap: usize,
}

/// An append-only list of chunks. Elements are only ever added at the tail of
/// the open chunk, and a chunk that has been retired is never touched again
/// except to read or update an element in place.
pub struct ChunkList<T> {
    rest: Vec<Chunk<T>>,
    cur: Vec<T>,
    cap: usize,
}

impl<T> View for ChunkList<T> {
    type V = Seq<ChunkView<T>>;

    /// The retired chunks in the order in which they were opened, then the
    /// open chunk.
    closed spec fn view(&self) -> Seq<ChunkView<T>> {
        Seq::new(
            self.rest@.len() + 1,
            |i: int|
                if i < self.rest@.len() {
                    ChunkView { cap: self.rest@[i].cap as nat, items: self.rest@[i].items@ }
                } else {
                    ChunkView { cap: self.cap as nat, items: self.cur@ }
                },
        )
    }
}

impl<T> ChunkList<T> {
    /// The layout rules hold of this list.
    pub open spec fn wf(&self) -> bool {
        well_formed(self@)
    }

    /// A list with one empty open chunk of capacity `first_cap` and no
    /// history.
    pub fn new(first_cap: usize) -> (list: Self)
        requires
            1 <= first_cap <= isize::MAX,
        ensures
            list.wf(),
            list@ == seq![ChunkView::<T> { cap: first_cap as nat, items: Seq::empty() }],
            contents(list@) == Seq::<T>::empty(),
    {
        let list = ChunkList { rest: Vec::new(), cur: Vec::with_capacity(first_cap), cap: first_cap };
        assert(list@ =~= seq![ChunkView::<T> { cap: first_cap as nat, items: Seq::empty() }]);
        assert(contents(list@) =~= Seq::<T>::empty()) by {
            assert(contents(list@.drop_last()) =~= Seq::<T>::empty());
        }
        list
    }

    /// The number of chunks, the open one included.
    pub fn chunk_count(&self) -> (n: usize)
        requires
            self.wf(),
        ensures
            n == self@.len(),
            n >= 1,
    {
        proof {
            lemma_chunk_count_bound(self@);
        }
        self.rest.len() + 1
    }

    /// The capacity of chunk `i`.
    pub fn chunk_capacity(&self, i: usize) -> (cap: usize)
        requires
            i < self@.len(),
        ensures
            cap == self@[i as int].cap,
    {
        if i < self.rest.len() {
            self.rest[i].cap
        } else {
            self.cap
        }
    }

    /// The number of elements that chunk `i` holds.
    pub fn chunk_len(&self, i: usize) -> (len: usize)
        requires
            i < self@.len(),
        ensures
            len == self@[i as int].items.len(),
    {
        if i < self.rest.len() {
            self.rest[i].items.len()
        } else {
            self.cur.len()
        }
    }

    /// The capacity of the open chunk.
    pub fn open_capacity(&self) -> (cap: usize)
        ensures
            cap == self@.last().cap,
    {
        self.cap
    }

    /// The number of free slots at the tail of the open chunk.
    pub fn room(&self) -> (free: usize)
        requires
            self.wf(),
        ensures
            free == room(self@),
    {
        assert(self@[self.rest@.len() as int].items.len() <= self@[self.rest@.len() as int].cap);
        self.cap - self.cur.len()
    }

    /// Retires the open chunk into the history and opens an empty chunk of
    /// capacity `cap` behind it.
    pub fn open_chunk(&mut self, cap: usize)
        requires
            old(self).wf(),
            2 * old(self)@.last().cap <= cap <= isize::MAX,
        ensures
            final(self)@ == opened(old(self)@, cap as nat),
            final(self).wf(),
    {
        let mut retired: Vec<T> = Vec::with_capacity(cap);
        core::mem::swap(&mut retired, &mut self.cur);
        self.rest.push(Chunk { items: retired, cap: self.cap });
        self.cap = cap;
        proof {
            let before = old(self)@;
            let after = self@;
            assert(after =~= opened(before, cap as nat));
            assert forall|i: int| 0 <= i < after.len() implies {
                &&& 1 <= (#[trigger] after[i]).cap <= isize::MAX
                &&& after[i].items.len() <= after[i].cap
            } by {
                if i < before.len() {
                    assert(after[i] == before[i]);
                } else {
                    assert(1 <= before[before.len() - 1].cap);
                }
            }
            assert forall|i: int, j: int|
                0 <= i && j == i + 1 && j < after.len() implies 2 * (#[trigger] after[i]).cap <= (
            #[trigger] after[j]).cap by {
                assert(after[i] == before[i]);
                if j < before.len() {
                    assert(after[j] == before[j]);
                }
            }
        }
    }

    /// Writes `value` into the next free slot of the open chunk.
    pub fn push(&mut self, value: T) -> (slot: Slot)
        requires
            old(self).wf(),
            room(old(self)@) >= 1,
        ensures
            final(self)@ == filled(old(self)@, seq![value]),
            final(self).wf(),
            slot.chunk == old(self)@.len() - 1,
            slot.offset == old(self)@.last().items.len(),
    {
        proof {
            lemma_chunk_count_bound(self@);
        }
        let slot = Slot { chunk: self.rest.len(), offset: self.cur.len() };
        self.cur.push(value);
        proof {
            let want = filled(old(self)@, seq![value]);
            assert(self@[self.rest@.len() as int].items =~= want[self.rest@.len() as int].items);
            assert(self@ =~= want);
            lemma_alloc_well_formed(old(self)@, seq![value]);
        }
        slot
    }

    /// Moves every element of `values` to the tail of the open chunk, in
    /// order.
    pub fn extend(&mut self, values: Vec<T>) -> (span: Span)
        requires
            old(self).wf(),
            values@.len() <= room(old(self)@),
        ensures
            final(self)@ == filled(old(self)@, values@),
            final(self).wf(),
            span.chunk == old(self)@.len() - 1,
            span.offset == old(self)@.last().items.len(),
            span.len == values@.len(),
    {
        proof {
            lemma_chunk_count_bound(self@);
        }
        let ghost source = values@;
        let mut values = values;
        let span = Span { chunk: self.rest.len(), offset: self.cur.len(), len: values.len() };
        self.cur.append(&mut values);
        proof {
            let want = filled(old(self)@, source);
            assert(self@[self.rest@.len() as int].items =~= want[self.rest@.len() as int].items);
            assert(self@ =~= want);
            lemma_alloc_well_formed(old(self)@, source);
        }
        span
    }

    /// Whether an element lives at `slot`.
    pub fn contains(&self, slot: Slot) -> (found: bool)
        ensures
            found == holds(self@, slot),
    {
        if slot.chunk < self.rest.len() {
            slot.offset < self.rest[slot.chunk].items.len()
        } else if slot.chunk == self.rest.len() {
            slot.offset < self.cur.len()
        } else {
            false
        }
    }

    /// Whether `span` lies wholly inside the elements of one chunk.
    pub fn contains_span(&self, span: Span) -> (found: bool)
        ensures
            found == holds_span(self@, span),
    {
        if span.chunk > self.rest.len() {
            return false;
        }
        let filled: usize = if span.chunk < self.rest.len() {
            self.rest[span.chunk].items.len()
        } else {
            self.cur.len()
        };
        span.offset <= filled && span.len <= filled - span.offset
    }

    /// The element at `slot`.
    pub fn get(&self, slot: Slot) -> (value: &T)
        requires
            holds(self@, slot),
        ensures
            *value == value_at(self@, slot),
    {
        if slot.chunk < self.rest.len() {
            &self.rest[slot.chunk].items[slot.offset]
        } else {
            &self.cur[slot.offset]
        }
    }

    /// The element at `slot`, for update in place. Nothing but that element
    /// changes, and no element moves.
    pub fn get_mut(&mut self, slot: Slot) -> (value: &mut T)
        requires
            holds(old(self)@, slot),
        ensures
            *value == value_at(old(self)@, slot),
            final(self)@ == replaced(old(self)@, slot, *final(value)),
            old(self).wf() ==> final(self).wf(),
    {
        let ghost before = self@;
        let value = if slot.chunk < self.rest.len() {
            &mut self.rest[slot.chunk].items[slot.offset]
        } else {
            &mut self.cur[slot.offset]
        };
        proof {
            lemma_replaced_keeps_rest(before, slot, *final(value));
            assert(after_borrow(self)@ =~= replaced(before, slot, *final(value)));
        }
        value
    }

    /// The elements of `span` as one contiguous slice.
    pub fn slice(&self, span: Span) -> (values: &[T])
        requires
            holds_span(self@, span),
        ensures
            values@ == values_in(self@, span),
    {
        let chunk: &[T] = if span.chunk < self.rest.len() {
            self.rest[span.chunk].items.as_slice()
        } else {
            self.cur.as_slice()
        };
        let filled: usize = chunk.len();
        assert(span.offset + span.len <= filled);
        vstd::slice::slice_subrange(chunk, span.offset, span.offset + span.len)
    }

    /// The number of elements in the list.
    pub fn len(&self) -> (count: usize)
        requires
            self.wf(),
        ensures
            count == contents(self@).len(),
    {
        let ghost all = self@;
        proof {
            lemma_total_capacity_bound(all);
            lemma_contents_len(all, 0);
            assert(contents(all.take(0)).len() == 0);
        }
        let mut count: usize = 0;
        let mut i: usize = 0;
        while i < self.rest.len()
            invariant
                all == self@,
                well_formed(all),
                i <= self.rest@.len(),
                count == contents(all.take(i as int)).len(),
                contents(all).len() < usize::MAX,
            decreases self.rest@.len() - i,
        {
            proof {
                lemma_contents_step(all, i as int);
                lemma_contents_len(all, i + 1);
            }
            count = count + self.rest[i].items.len();
            i = i + 1;
        }
        proof {
            lemma_contents_step(all, i as int);
            assert(all.take(i + 1) =~= all);
        }
        count + self.cur.len()
    }

    /// Ends the list: hands over every element exactly once, in the order of
    /// allocation, and releases the chunks.
    pub fn teardown(self) -> (values: Vec<T>)
        ensures
            values@ == contents(self@),
    {
        let ghost all = self@;
        let mut list = self;
        let mut values: Vec<T> = Vec::new();
        let mut i: usize = 0;
        assert(contents(all.take(0)) =~= Seq::<T>::empty());
        while i < list.rest.len()
            invariant
                i <= list.rest@.len(),
                list.rest@.len() + 1 == all.len(),
                list.cur@ == all.last().items,
                forall|j: int| i <= j < list.rest@.len() ==> (#[trigger] list.rest@[j]).items@ == all[j].items,
                values@ == contents(all.take(i as int)),
            decreases list.rest@.len() - i,
        {
            proof {
                lemma_contents_step(all, i as int);
            }
            values.append(&mut list.rest[i].items);
            i = i + 1;
        }
        proof {
            lemma_contents_step(all, i as int);
            assert(all.take(i + 1) =~= all);
        }
        values.append(&mut list.cur);
        values
    }
}

} // verus!
