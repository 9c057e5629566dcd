//! The arena as a mathematical value: a sequence of chunks, the last of which
//! is the one still open, and the operations on it.

use vstd::prelude::*;
use crate::growth::grown_capacity;
use crate::slot::{Slot, Span};

verus! {

/// One chunk as a value: how many elements it has room for, and the elements
/// placed in it so far, oldest first.
pub struct ChunkView<T> {
    pub cap: nat,
    pub items: Seq<T>,
}

/// The layout rules of a chunk list: there is always an open chunk, no chunk
/// holds more than its capacity, every capacity is at least one and fits the
/// machine, and each chunk has at least twice the capacity of the one before.
pub open spec fn well_formed<T>(chunks: Seq<ChunkView<T>>) -> bool {
    &&& chunks.len() >= 1
    &&& forall|i: int|
        0 <= i < chunks.len() ==> {
            &&& 1 <= (#[trigger] chunks[i]).cap <= isize::MAX
            &&& chunks[i].items.len() <= chunks[i].cap
        }
    &&& forall|i: int, j: int|
        0 <= i && j == i + 1 && j < chunks.len() ==> 2 * (#[trigger] chunks[i]).cap <= (
        #[trigger] chunks[j]).cap
}

/// Every retired chunk, that is every chunk but the open one, is filled to
/// its capacity.
pub open spec fn history_full<T>(chunks: Seq<ChunkView<T>>) -> bool {
    forall|i: int|
        0 <= i < chunks.len() - 1 ==> (#[trigger] chunks[i]).items.len() == chunks[i].cap
}

/// The number of free slots at the tail of the open chunk.
pub open spec fn room<T>(chunks: Seq<ChunkView<T>>) -> nat {
    (chunks.last().cap - chunks.last().items.len()) as nat
}

/// The list after the open chunk is retired and an empty chunk of capacity
/// `cap` is opened behind it.
pub open spec fn opened<T>(chunks: Seq<ChunkView<T>>, cap: nat) -> Seq<ChunkView<T>> {
    chunks.push(ChunkView { cap, items: Seq::empty() })
}

/// The list after `items` are written to the tail of the open chunk.
pub open spec fn filled<T>(chunks: Seq<ChunkView<T>>, items: Seq<T>) -> Seq<ChunkView<T>> {
    chunks.update(
        chunks.len() - 1,
        ChunkView { cap: chunks.last().cap, items: chunks.last().items + items },
    )
}

/// The list made ready for `count` neighbouring elements: unchanged if the
/// open chunk has room for them, else with a new open chunk of the grown
/// capacity.
pub open spec fn reserved<T>(chunks: Seq<ChunkView<T>>, count: nat) -> Seq<ChunkView<T>> {
    if count <= room(chunks) {
        chunks
    } else {
        opened(chunks, grown_capacity(chunks.last().cap, count))
    }
}

/// The positions that an allocation of `count` elements receives.
pub open spec fn alloc_span<T>(chunks: Seq<ChunkView<T>>, count: nat) -> Span {
    let ready = reserved(chunks, count);
    Span {
        chunk: (ready.len() - 1) as usize,
        offset: ready.last().items.len() as usize,
        len: count as usize,
    }
}

/// The list after an allocation of `items`.
pub open spec fn after_alloc<T>(chunks: Seq<ChunkView<T>>, items: Seq<T>) -> Seq<ChunkView<T>> {
    filled(reserved(chunks, items.len()), items)
}

/// Whether an allocation of `count` elements stays within `limit` elements
/// per chunk: it does if the open chunk has room, or if the grown capacity is
/// no more than the limit.
pub open spec fn admits<T>(chunks: Seq<ChunkView<T>>, count: nat, limit: nat) -> bool {
    count <= room(chunks) || grown_capacity(chunks.last().cap, count) <= limit
}

/// Whether an element lives at `slot`.
pub open spec fn holds<T>(chunks: Seq<ChunkView<T>>, slot: Slot) -> bool {
    &&& slot.chunk < chunks.len()
    &&& slot.offset < chunks[slot.chunk as int].items.len()
}

/// The element that lives at `slot`.
pub open spec fn value_at<T>(chunks: Seq<ChunkView<T>>, slot: Slot) -> T
    recommends
        holds(chunks, slot),
{
    chunks[slot.chunk as int].items[slot.offset as int]
}

/// The list after the element at `slot` is overwritten with `value`.
pub open spec fn replaced<T>(chunks: Seq<ChunkView<T>>, slot: Slot, value: T) -> Seq<ChunkView<T>>
    recommends
        holds(chunks, slot),
{
    chunks.update(
        slot.chunk as int,
        ChunkView {
            cap: chunks[slot.chunk as int].cap,
            items: chunks[slot.chunk as int].items.update(slot.offset as int, value),
        },
    )
}

/// Whether `span` lies wholly inside the elements of one chunk.
pub open spec fn holds_span<T>(chunks: Seq<ChunkView<T>>, span: Span) -> bool {
    &&& span.chunk < chunks.len()
    &&& span.offset + span.len <= chunks[span.chunk as int].items.len()
}

/// The elements that live in `span`, in order.
pub open spec fn values_in<T>(chunks: Seq<ChunkView<T>>, span: Span) -> Seq<T>
    recommends
        holds_span(chunks, span),
{
    chunks[span.chunk as int].items.subrange(span.offset as int, span.offset + span.len)
}

/// Every element of the arena, in the order of allocation.
pub open spec fn contents<T>(chunks: Seq<ChunkView<T>>) -> Seq<T>
    decreases chunks.len(),
{
    if chunks.len() == 0 {
        Seq::empty()
    } else {
        contents(chunks.drop_last()) + chunks.last().items
    }
}

/// The capacities of all chunks added up.
pub open spec fn total_capacity<T>(chunks: Seq<ChunkView<T>>) -> nat
    decreases chunks.len(),
{
    if chunks.len() == 0 {
        0
    } else {
        total_capacity(chunks.drop_last()) + chunks.last().cap
    }
}

/// An allocation that stays within the machine's limit keeps the layout
/// rules.
pub proof fn lemma_alloc_well_formed<T>(chunks: Seq<ChunkView<T>>, items: Seq<T>)
    requires
        well_formed(chunks),
        admits(chunks, items.len(), isize::MAX as nat),
    ensures
        well_formed(after_alloc(chunks, items)),
        after_alloc(chunks, items).len() == reserved(chunks, items.len()).len(),
{
    let ready = reserved(chunks, items.len());
    assert(well_formed(ready)) by {
        if items.len() > room(chunks) {
            let n = chunks.len() as int;
            assert(ready[n].cap == grown_capacity(chunks.last().cap, items.len()));
            assert forall|i: int| 0 <= i < ready.len() implies {
                &&& 1 <= (#[trigger] ready[i]).cap <= isize::MAX
                &&& ready[i].items.len() <= ready[i].cap
            } by {
                if i < n {
                    assert(ready[i] == chunks[i]);
                }
            }
            assert forall|i: int, j: int|
                0 <= i && j == i + 1 && j < ready.len() implies 2 * (#[trigger] ready[i]).cap <= (
            #[trigger] ready[j]).cap by {
                assert(ready[i] == chunks[i]);
                if j < n {
                    assert(ready[j] == chunks[j]);
                }
            }
        }
    }
    let after = filled(ready, items);
    let last = ready.len() - 1;
    assert forall|i: int| 0 <= i < after.len() implies {
        &&& 1 <= (#[trigger] after[i]).cap <= isize::MAX
        &&& after[i].items.len() <= after[i].cap
    } by {
        if i < last {
            assert(after[i] == ready[i]);
        }
    }
    assert forall|i: int, j: int|
        0 <= i && j == i + 1 && j < after.len() implies 2 * (#[trigger] after[i]).cap <= (
    #[trigger] after[j]).cap by {
        assert(after[i].cap == ready[i].cap);
        assert(after[j].cap == ready[j].cap);
    }
}

/// The capacity of a chunk is more than its index.
pub proof fn lemma_capacity_above_index<T>(chunks: Seq<ChunkView<T>>, i: int)
    requires
        well_formed(chunks),
        0 <= i < chunks.len(),
    ensures
        chunks[i].cap >= i + 1,
    decreases i,
{
    if i > 0 {
        lemma_capacity_above_index(chunks, i - 1);
        assert(2 * chunks[i - 1].cap <= chunks[i].cap);
    }
}

/// A list has no more chunks than its open chunk has slots, so the number of
/// chunks and every chunk index fit the machine.
pub proof fn lemma_chunk_count_bound<T>(chunks: Seq<ChunkView<T>>)
    requires
        well_formed(chunks),
    ensures
        chunks.len() <= chunks.last().cap,
        chunks.len() <= isize::MAX,
{
    lemma_capacity_above_index(chunks, chunks.len() - 1);
}

/// The capacities of a well-formed list add up to less than twice the
/// capacity of the open chunk: growth is geometric.
pub proof fn lemma_total_capacity_bound<T>(chunks: Seq<ChunkView<T>>)
    requires
        well_formed(chunks),
    ensures
        total_capacity(chunks) < 2 * chunks.last().cap,
    decreases chunks.len(),
{
    let head = chunks.drop_last();
    if head.len() == 0 {
        assert(total_capacity(head) == 0);
    } else {
        assert(well_formed(head)) by {
            assert forall|i: int| 0 <= i < head.len() implies {
                &&& 1 <= (#[trigger] head[i]).cap <= isize::MAX
                &&& head[i].items.len() <= head[i].cap
            } by {
                assert(head[i] == chunks[i]);
            }
            assert forall|i: int, j: int|
                0 <= i && j == i + 1 && j < head.len() implies 2 * (#[trigger] head[i]).cap <= (
            #[trigger] head[j]).cap by {
                assert(head[i] == chunks[i]);
                assert(head[j] == chunks[j]);
            }
        }
        lemma_total_capacity_bound(head);
        assert(head.last() == chunks[chunks.len() - 2]);
        assert(2 * chunks[chunks.len() - 2].cap <= chunks[chunks.len() - 1].cap);
    }
}

/// The first `n` chunks hold no more elements than the whole list, and the
/// whole list holds no more than its capacities add up to.
pub proof fn lemma_contents_len<T>(chunks: Seq<ChunkView<T>>, n: int)
    requires
        0 <= n <= chunks.len(),
        forall|i: int| 0 <= i < chunks.len() ==> (#[trigger] chunks[i]).items.len() <= chunks[i].cap,
    ensures
        contents(chunks.take(n)).len() <= contents(chunks).len(),
        contents(chunks).len() <= total_capacity(chunks),
    decreases chunks.len(),
{
    if chunks.len() == 0 {
        assert(chunks.take(n) =~= chunks);
    } else {
        let head = chunks.drop_last();
        assert forall|i: int| 0 <= i < head.len() implies (#[trigger] head[i]).items.len()
            <= head[i].cap by {
            assert(head[i] == chunks[i]);
        }
        if n == chunks.len() {
            assert(chunks.take(n) =~= chunks);
            lemma_contents_len(head, 0);
        } else {
            lemma_contents_len(head, n);
            assert(head.take(n) =~= chunks.take(n));
        }
    }
}

/// The elements of the first `n + 1` chunks are those of the first `n`
/// followed by those of chunk `n`.
pub proof fn lemma_contents_step<T>(chunks: Seq<ChunkView<T>>, n: int)
    requires
        0 <= n < chunks.len(),
    ensures
        contents(chunks.take(n + 1)) == contents(chunks.take(n)) + chunks[n].items,
{
    assert(chunks.take(n + 1).drop_last() =~= chunks.take(n));
}

} // verus!
