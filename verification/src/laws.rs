//! What allocation guarantees, stated over the model and proved once for
//! every arena built on it.

use vstd::prelude::*;
use vstd::arithmetic::power2::{pow2, lemma_pow2_unfold};
use crate::growth::grown_capacity;
use crate::model::{
    admits, after_alloc, alloc_span, contents, filled, history_full, holds, holds_span, replaced,
    reserved, room, value_at, values_in, well_formed, ChunkView, lemma_alloc_well_formed,
    lemma_chunk_count_bound,
};
use crate::slot::Slot;

verus! {

/// The list after a series of allocations, one for each batch in turn.
pub open spec fn after_allocs<T>(chunks: Seq<ChunkView<T>>, batches: Seq<Seq<T>>) -> Seq<
    ChunkView<T>,
>
    decreases batches.len(),
{
    if batches.len() == 0 {
        chunks
    } else {
        after_alloc(after_allocs(chunks, batches.drop_last()), batches.last())
    }
}

/// Every allocation of the series stays within `limit` elements per chunk.
pub open spec fn all_admitted<T>(chunks: Seq<ChunkView<T>>, batches: Seq<Seq<T>>, limit: nat) -> bool {
    forall|i: int|
        0 <= i < batches.len() ==> admits(
            after_allocs(chunks, #[trigger] batches.take(i)),
            batches[i].len(),
            limit,
        )
}

/// All batches of a series laid end to end.
pub open spec fn joined<T>(batches: Seq<Seq<T>>) -> Seq<T>
    decreases batches.len(),
{
    if batches.len() == 0 {
        Seq::empty()
    } else {
        joined(batches.drop_last()) + batches.last()
    }
}

/// Every chunk has exactly twice the capacity of the one before, starting
/// from one element: chunk `i` has room for two to the power `i`.
pub open spec fn doubling_exact<T>(chunks: Seq<ChunkView<T>>) -> bool {
    forall|i: int| 0 <= i < chunks.len() ==> (#[trigger] chunks[i]).cap == pow2(i as nat)
}

/// Stability: an allocation leaves every element where it was. A position
/// that held an element before still holds the same element after.
pub proof fn lemma_alloc_keeps_slots<T>(chunks: Seq<ChunkView<T>>, items: Seq<T>, slot: Slot)
    requires
        holds(chunks, slot),
    ensures
        holds(after_alloc(chunks, items), slot),
        value_at(after_alloc(chunks, items), slot) == value_at(chunks, slot),
{
    let ready = reserved(chunks, items.len());
    assert(ready[slot.chunk as int] == chunks[slot.chunk as int]);
}

/// Stability over time: no later allocation of a series moves or changes an
/// element that an earlier state of the series held.
pub proof fn lemma_allocs_keep_slots<T>(
    chunks: Seq<ChunkView<T>>,
    batches: Seq<Seq<T>>,
    done: int,
    slot: Slot,
)
    requires
        0 <= done <= batches.len(),
        holds(after_allocs(chunks, batches.take(done)), slot),
    ensures
        holds(after_allocs(chunks, batches), slot),
        value_at(after_allocs(chunks, batches), slot) == value_at(
            after_allocs(chunks, batches.take(done)),
            slot,
        ),
    decreases batches.len(),
{
    if done == batches.len() {
        assert(batches.take(done) =~= batches);
    } else {
        let head = batches.drop_last();
        assert(head.take(done) =~= batches.take(done));
        lemma_allocs_keep_slots(chunks, head, done, slot);
        lemma_alloc_keeps_slots(after_allocs(chunks, head), batches.last(), slot);
    }
}

/// Distinctness: the positions that an allocation hands out held nothing
/// before it and hold an element after it.
pub proof fn lemma_alloc_span_fresh<T>(chunks: Seq<ChunkView<T>>, items: Seq<T>, slot: Slot)
    requires
        well_formed(chunks),
        admits(chunks, items.len(), isize::MAX as nat),
        alloc_span(chunks, items.len()).covers(slot),
    ensures
        !holds(chunks, slot),
        holds(after_alloc(chunks, items), slot),
{
    lemma_chunk_count_bound(chunks);
    lemma_alloc_well_formed(chunks, items);
    let ready = reserved(chunks, items.len());
    let after = after_alloc(chunks, items);
    assert(after[ready.len() - 1].items.len() == ready.last().items.len() + items.len());
    assert(after[ready.len() - 1].items.len() <= after[ready.len() - 1].cap);
}

/// Contiguity: the elements of an allocation lie side by side in one chunk,
/// in the order in which they were given.
pub proof fn lemma_alloc_span_values<T>(chunks: Seq<ChunkView<T>>, items: Seq<T>)
    requires
        well_formed(chunks),
        admits(chunks, items.len(), isize::MAX as nat),
    ensures
        holds_span(after_alloc(chunks, items), alloc_span(chunks, items.len())),
        values_in(after_alloc(chunks, items), alloc_span(chunks, items.len())) == items,
        forall|i: int|
            0 <= i < items.len() ==> value_at(
                after_alloc(chunks, items),
                #[trigger] alloc_span(chunks, items.len()).nth(i),
            ) == items[i],
{
    lemma_chunk_count_bound(chunks);
    lemma_alloc_well_formed(chunks, items);
    let ready = reserved(chunks, items.len());
    let after = after_alloc(chunks, items);
    let span = alloc_span(chunks, items.len());
    assert(after[ready.len() - 1].items.len() == ready.last().items.len() + items.len());
    assert(after[ready.len() - 1].items.len() <= after[ready.len() - 1].cap);
    assert(values_in(after, span) =~= items);
}

/// Within the series, every allocation keeps the layout rules.
pub proof fn lemma_allocs_well_formed<T>(
    chunks: Seq<ChunkView<T>>,
    batches: Seq<Seq<T>>,
    limit: nat,
)
    requires
        well_formed(chunks),
        limit <= isize::MAX,
        all_admitted(chunks, batches, limit),
    ensures
        well_formed(after_allocs(chunks, batches)),
    decreases batches.len(),
{
    if batches.len() > 0 {
        let head = batches.drop_last();
        lemma_all_admitted_prefix(chunks, batches, limit, batches.len() - 1);
        assert(batches.take(batches.len() - 1) =~= head);
        lemma_allocs_well_formed(chunks, head, limit);
        lemma_alloc_well_formed(after_allocs(chunks, head), batches.last());
    }
}

/// A series that is admitted is admitted up to each of its steps.
pub proof fn lemma_all_admitted_prefix<T>(
    chunks: Seq<ChunkView<T>>,
    batches: Seq<Seq<T>>,
    limit: nat,
    done: int,
)
    requires
        all_admitted(chunks, batches, limit),
        0 <= done <= batches.len(),
    ensures
        all_admitted(chunks, batches.take(done), limit),
        done < batches.len() ==> admits(
            after_allocs(chunks, batches.take(done)),
            batches[done].len(),
            limit,
        ),
{
    let head = batches.take(done);
    assert forall|i: int| 0 <= i < head.len() implies admits(
        after_allocs(chunks, #[trigger] head.take(i)),
        head[i].len(),
        limit,
    ) by {
        assert(head.take(i) =~= batches.take(i));
    }
}

/// Distinctness over time: two allocations of one series never hand out the
/// same position.
pub proof fn lemma_allocs_spans_disjoint<T>(
    chunks: Seq<ChunkView<T>>,
    batches: Seq<Seq<T>>,
    limit: nat,
    first: int,
    second: int,
    slot: Slot,
)
    requires
        well_formed(chunks),
        limit <= isize::MAX,
        all_admitted(chunks, batches, limit),
        0 <= first < second < batches.len(),
    ensures
        !(alloc_span(after_allocs(chunks, batches.take(first)), batches[first].len()).covers(slot)
            && alloc_span(after_allocs(chunks, batches.take(second)), batches[second].len()).covers(
            slot,
        )),
{
    let before_first = after_allocs(chunks, batches.take(first));
    let before_second = after_allocs(chunks, batches.take(second));
    if alloc_span(before_first, batches[first].len()).covers(slot) {
        lemma_all_admitted_prefix(chunks, batches, limit, first);
        lemma_allocs_well_formed(chunks, batches.take(first), limit);
        lemma_alloc_span_fresh(before_first, batches[first], slot);
        let upto = batches.take(second);
        assert(upto.take(first + 1).drop_last() =~= batches.take(first));
        assert(upto.take(first + 1).last() == batches[first]);
        assert(holds(after_allocs(chunks, upto.take(first + 1)), slot));
        lemma_allocs_keep_slots(chunks, upto, first + 1, slot);
        lemma_all_admitted_prefix(chunks, batches, limit, second);
        lemma_allocs_well_formed(chunks, upto, limit);
        if alloc_span(before_second, batches[second].len()).covers(slot) {
            lemma_alloc_span_fresh(before_second, batches[second], slot);
        }
    }
}

/// An allocation adds its elements behind all earlier ones and touches no
/// other: each element is in the arena exactly once.
pub proof fn lemma_alloc_contents<T>(chunks: Seq<ChunkView<T>>, items: Seq<T>)
    requires
        chunks.len() >= 1,
    ensures
        contents(after_alloc(chunks, items)) == contents(chunks) + items,
        after_alloc(chunks, items).len() >= 1,
{
    let ready = reserved(chunks, items.len());
    assert(contents(ready) =~= contents(chunks)) by {
        if items.len() > room(chunks) {
            assert(ready.drop_last() =~= chunks);
        }
    }
    let after = filled(ready, items);
    assert(after.drop_last() =~= ready.drop_last());
    assert(contents(after) =~= contents(ready) + items);
}

/// After a series of allocations the arena holds what it held before,
/// followed by every element of every batch, each exactly once and in the
/// order of allocation.
pub proof fn lemma_allocs_contents<T>(chunks: Seq<ChunkView<T>>, batches: Seq<Seq<T>>)
    requires
        chunks.len() >= 1,
    ensures
        contents(after_allocs(chunks, batches)) == contents(chunks) + joined(batches),
        after_allocs(chunks, batches).len() >= 1,
    decreases batches.len(),
{
    if batches.len() == 0 {
        assert(contents(chunks) + joined(batches) =~= contents(chunks));
    } else {
        let head = batches.drop_last();
        lemma_allocs_contents(chunks, head);
        lemma_alloc_contents(after_allocs(chunks, head), batches.last());
        assert((contents(chunks) + joined(head)) + batches.last() =~= contents(chunks) + joined(
            batches,
        ));
    }
}

/// Growth is monotone: a later chunk never has less capacity than an earlier
/// one.
pub proof fn lemma_capacities_monotone<T>(chunks: Seq<ChunkView<T>>, i: int, j: int)
    requires
        well_formed(chunks),
        0 <= i <= j < chunks.len(),
    ensures
        chunks[i].cap <= chunks[j].cap,
    decreases j - i,
{
    if i < j {
        lemma_capacities_monotone(chunks, i, j - 1);
        assert(2 * chunks[j - 1].cap <= chunks[j].cap);
    }
}

/// Under exact doubling each chunk has twice the capacity of the one before.
pub proof fn lemma_doubling_exact_step<T>(chunks: Seq<ChunkView<T>>, i: int)
    requires
        doubling_exact(chunks),
        0 <= i,
        i + 1 < chunks.len(),
    ensures
        chunks[i + 1].cap == 2 * chunks[i].cap,
{
    lemma_pow2_unfold((i + 1) as nat);
}

/// Allocating one element at a time keeps every retired chunk full and keeps
/// the doubling exact.
pub proof fn lemma_single_alloc_keeps_shape<T>(chunks: Seq<ChunkView<T>>, item: T)
    requires
        well_formed(chunks),
    ensures
        history_full(chunks) ==> history_full(after_alloc(chunks, seq![item])),
        doubling_exact(chunks) ==> doubling_exact(after_alloc(chunks, seq![item])),
{
    let items = seq![item];
    let ready = reserved(chunks, 1);
    let after = after_alloc(chunks, items);
    let n = chunks.len() as int;
    assert(1 <= chunks[n - 1].cap);
    if history_full(chunks) {
        assert forall|i: int| 0 <= i < after.len() - 1 implies (#[trigger] after[i]).items.len()
            == after[i].cap by {
            assert(after[i] == ready[i]);
            if i < n - 1 {
                assert(ready[i] == chunks[i]);
            }
        }
    }
    if doubling_exact(chunks) {
        assert forall|i: int| 0 <= i < after.len() implies (#[trigger] after[i]).cap == pow2(
            i as nat,
        ) by {
            assert(after[i].cap == ready[i].cap);
            if i < n {
                assert(ready[i] == chunks[i]);
            } else {
                assert(ready[i].cap == grown_capacity(chunks[n - 1].cap, 1));
                lemma_pow2_unfold(n as nat);
            }
        }
    }
}

/// Overwriting an element in place changes that element and nothing else:
/// the layout, the positions in use and every other element stay as they
/// are.
pub proof fn lemma_replaced_keeps_rest<T>(chunks: Seq<ChunkView<T>>, slot: Slot, value: T)
    requires
        holds(chunks, slot),
    ensures
        well_formed(chunks) ==> well_formed(replaced(chunks, slot, value)),
        history_full(chunks) ==> history_full(replaced(chunks, slot, value)),
        doubling_exact(chunks) ==> doubling_exact(replaced(chunks, slot, value)),
        value_at(replaced(chunks, slot, value), slot) == value,
        forall|s: Slot| holds(replaced(chunks, slot, value), s) <==> holds(chunks, s),
        forall|s: Slot|
            holds(chunks, s) && s != slot ==> value_at(replaced(chunks, slot, value), s)
                == value_at(chunks, s),
{
    let after = replaced(chunks, slot, value);
    assert forall|i: int| 0 <= i < chunks.len() implies (#[trigger] after[i]).cap == chunks[i].cap
        && after[i].items.len() == chunks[i].items.len() by {}
    if well_formed(chunks) {
        assert forall|i: int, j: int|
            0 <= i && j == i + 1 && j < after.len() implies 2 * (#[trigger] after[i]).cap <= (
        #[trigger] after[j]).cap by {
            assert(after[i].cap == chunks[i].cap);
            assert(after[j].cap == chunks[j].cap);
        }
    }
    assert forall|s: Slot| holds(after, s) <==> holds(chunks, s) by {
        if s.chunk < chunks.len() {
            assert(after[s.chunk as int].items.len() == chunks[s.chunk as int].items.len());
        }
    }
}

} // verus!
