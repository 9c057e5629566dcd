use std::cell::Cell;
use std::collections::HashSet;
use std::rc::Rc;

use arena::{Arena, Slot, Span};

struct Counted {
    id: usize,
    drops: Rc<Cell<usize>>,
}

impl Drop for Counted {
    fn drop(&mut self) {
        self.drops.set(self.drops.get() + 1);
    }
}

struct Sentinel {
    dropped: Rc<Cell<bool>>,
    twice: Rc<Cell<bool>>,
}

impl Drop for Sentinel {
    fn drop(&mut self) {
        if self.dropped.get() {
            self.twice.set(true);
        }
        self.dropped.set(true);
    }
}

fn place(arena: &mut Arena<i32>, value: i32) -> Slot {
    assert!(arena.can_alloc(1));
    arena.allocate(value)
}

fn place_run(arena: &mut Arena<i32>, values: Vec<i32>) -> Span {
    assert!(arena.can_alloc(values.len()));
    arena.alloc_slice(values)
}

#[test]
fn new_arena_has_one_empty_chunk_of_one_slot() {
    let arena: Arena<i32> = Arena::new();
    assert_eq!(arena.len(), 0);
    assert_eq!(arena.chunks().chunk_count(), 1);
    assert_eq!(arena.chunks().chunk_capacity(0), 1);
    assert_eq!(arena.chunks().chunk_len(0), 0);
    assert_eq!(arena.chunks().room(), 1);
    assert!(arena.can_alloc(1));
}

#[test]
fn default_arena_equals_new_arena() {
    let arena: Arena<u8> = Arena::default();
    assert_eq!(arena.len(), 0);
    assert_eq!(arena.chunks().chunk_count(), 1);
    assert_eq!(arena.chunks().chunk_capacity(0), 1);
}

#[test]
fn allocate_returns_position_of_value() {
    let mut arena = Arena::new();
    let a = place(&mut arena, 10);
    assert_eq!(a, Slot { chunk: 0, offset: 0 });
    assert_eq!(*arena.get(a), 10);
    let b = place(&mut arena, 20);
    assert_eq!(b, Slot { chunk: 1, offset: 0 });
    let c = place(&mut arena, 30);
    assert_eq!(c, Slot { chunk: 1, offset: 1 });
    let d = place(&mut arena, 40);
    assert_eq!(d, Slot { chunk: 2, offset: 0 });
    assert_eq!(*arena.get(b), 20);
    assert_eq!(*arena.get(c), 30);
    assert_eq!(*arena.get(d), 40);
    assert_eq!(arena.len(), 4);
}

#[test]
fn ten_thousand_allocations_keep_values_and_distinct_positions() {
    let mut arena: Arena<i32> = Arena::new();
    let mut slots = Vec::new();
    for i in 0..10_000 {
        slots.push(place(&mut arena, i));
    }
    let mut seen = HashSet::new();
    for (i, slot) in slots.iter().enumerate() {
        assert_eq!(*arena.get(*slot), i as i32);
        seen.insert(*slot);
    }
    assert_eq!(seen.len(), 10_000);
    assert_eq!(arena.len(), 10_000);
}

#[test]
fn earlier_positions_are_stable_under_later_allocations() {
    let mut arena: Arena<i32> = Arena::new();
    let mut slots: Vec<Slot> = Vec::new();
    for i in 0..200 {
        let slot = place(&mut arena, i * 7);
        for (j, earlier) in slots.iter().enumerate() {
            assert!(arena.contains(*earlier));
            assert_eq!(*arena.get(*earlier), j as i32 * 7);
        }
        assert!(!slots.contains(&slot));
        slots.push(slot);
    }
}

#[test]
fn slice_into_fresh_arena_opens_chunk_of_three() {
    let mut arena: Arena<i32> = Arena::new();
    let span = place_run(&mut arena, vec![1, 2, 3]);
    assert_eq!(arena.slice(span), &[1, 2, 3]);
    assert_eq!(span, Span { chunk: 1, offset: 0, len: 3 });
    let chunks = arena.chunks();
    assert_eq!(chunks.chunk_count(), 2);
    assert_eq!(chunks.chunk_capacity(0), 1);
    assert_eq!(chunks.chunk_len(0), 0);
    assert!(chunks.chunk_capacity(1) >= 3);
    assert_eq!(chunks.chunk_capacity(1), 3);
    assert_eq!(chunks.chunk_len(1), 3);
}

#[test]
fn slice_elements_are_neighbours_in_source_order() {
    let mut arena: Arena<i32> = Arena::new();
    place(&mut arena, 100);
    place(&mut arena, 200);
    let source = vec![5, 6, 7, 8, 9];
    let span = place_run(&mut arena, source.clone());
    assert_eq!(span.len, 5);
    assert!(arena.contains_span(span));
    for i in 0..span.len {
        let slot = span.slot(i).unwrap();
        assert_eq!(slot.chunk, span.chunk);
        assert_eq!(slot.offset, span.offset + i);
        assert_eq!(*arena.get(slot), source[i]);
    }
    assert_eq!(arena.slice(span), source.as_slice());
    assert_eq!(span.slot(5), None);
}

#[test]
fn slice_that_fits_goes_to_tail_of_open_chunk() {
    let mut arena: Arena<i32> = Arena::new();
    place_run(&mut arena, vec![1, 2, 3, 4, 5, 6, 7, 8]);
    place(&mut arena, 9);
    assert_eq!(arena.chunks().chunk_count(), 3);
    assert_eq!(arena.chunks().chunk_capacity(2), 16);
    let span = place_run(&mut arena, vec![10, 11, 12]);
    assert_eq!(span, Span { chunk: 2, offset: 1, len: 3 });
    assert_eq!(arena.chunks().chunk_count(), 3);
    assert_eq!(arena.slice(span), &[10, 11, 12]);
}

#[test]
fn slice_that_does_not_fit_grows_to_the_larger_of_double_and_count() {
    let mut arena: Arena<i32> = Arena::new();
    place(&mut arena, 1);
    place(&mut arena, 2);
    assert_eq!(arena.chunks().chunk_capacity(1), 2);
    let small = place_run(&mut arena, vec![3, 4]);
    assert_eq!(small, Span { chunk: 2, offset: 0, len: 2 });
    assert_eq!(arena.chunks().chunk_capacity(2), 4);
    let large = place_run(&mut arena, vec![0; 50]);
    assert_eq!(large, Span { chunk: 3, offset: 0, len: 50 });
    assert_eq!(arena.chunks().chunk_capacity(3), 50);
    assert_eq!(arena.chunks().chunk_len(2), 2);
}

#[test]
fn empty_slice_takes_no_slot() {
    let mut arena: Arena<i32> = Arena::new();
    let span = place_run(&mut arena, Vec::new());
    assert_eq!(span, Span { chunk: 0, offset: 0, len: 0 });
    assert_eq!(arena.len(), 0);
    assert_eq!(arena.slice(span).len(), 0);
    assert_eq!(arena.chunks().chunk_count(), 1);
    let slot = place(&mut arena, 4);
    assert_eq!(slot, Slot { chunk: 0, offset: 0 });
}

#[test]
fn capacities_double_under_single_allocations() {
    let mut arena: Arena<i32> = Arena::new();
    for i in 0..1000 {
        place(&mut arena, i);
    }
    let chunks = arena.chunks();
    let count = chunks.chunk_count();
    assert_eq!(count, 10);
    for i in 0..count {
        assert_eq!(chunks.chunk_capacity(i), 1 << i);
        if i + 1 < count {
            assert_eq!(chunks.chunk_len(i), chunks.chunk_capacity(i));
            assert_eq!(chunks.chunk_capacity(i + 1), 2 * chunks.chunk_capacity(i));
        }
    }
    assert_eq!(chunks.chunk_len(9), 1000 - 511);
    assert_eq!(chunks.room(), 512 - 489);
    assert_eq!(chunks.open_capacity(), 512);
}

#[test]
fn capacities_never_shrink_with_slices() {
    let mut arena: Arena<i32> = Arena::new();
    for round in 0..20 {
        place_run(&mut arena, vec![round; (round as usize * 13) % 37]);
        place(&mut arena, round);
    }
    let chunks = arena.chunks();
    for i in 1..chunks.chunk_count() {
        assert!(chunks.chunk_capacity(i) >= 2 * chunks.chunk_capacity(i - 1));
        assert!(chunks.chunk_len(i) <= chunks.chunk_capacity(i));
    }
}

#[test]
fn every_object_is_destroyed_exactly_once_on_drop() {
    let drops = Rc::new(Cell::new(0));
    {
        let mut arena: Arena<Counted> = Arena::new();
        for id in 0..37 {
            assert!(arena.can_alloc(1));
            arena.allocate(Counted { id, drops: drops.clone() });
        }
        let mut run = Vec::new();
        for id in 37..50 {
            run.push(Counted { id, drops: drops.clone() });
        }
        assert!(arena.can_alloc(run.len()));
        let span = arena.alloc_slice(run);
        assert_eq!(arena.slice(span)[0].id, 37);
        assert_eq!(drops.get(), 0);
        assert_eq!(arena.len(), 50);
    }
    assert_eq!(drops.get(), 50);
}

#[test]
fn teardown_hands_over_every_object_once_in_order() {
    let drops = Rc::new(Cell::new(0));
    let mut arena: Arena<Counted> = Arena::new();
    for id in 0..20 {
        assert!(arena.can_alloc(1));
        arena.allocate(Counted { id, drops: drops.clone() });
    }
    let values = arena.teardown();
    assert_eq!(drops.get(), 0);
    assert_eq!(values.len(), 20);
    for (i, value) in values.iter().enumerate() {
        assert_eq!(value.id, i);
    }
    drop(values);
    assert_eq!(drops.get(), 20);
}

#[test]
fn sentinel_is_not_destroyed_twice() {
    let dropped = Rc::new(Cell::new(false));
    let twice = Rc::new(Cell::new(false));
    {
        let mut arena: Arena<Sentinel> = Arena::new();
        assert!(arena.can_alloc(1));
        arena.allocate(Sentinel { dropped: dropped.clone(), twice: twice.clone() });
        assert!(!dropped.get());
    }
    assert!(dropped.get());
    assert!(!twice.get());
}

#[test]
fn get_mut_changes_one_object_only() {
    let mut arena: Arena<i32> = Arena::new();
    let a = place(&mut arena, 1);
    let b = place(&mut arena, 2);
    let c = place(&mut arena, 3);
    *arena.get_mut(b) = 20;
    assert_eq!(*arena.get(a), 1);
    assert_eq!(*arena.get(b), 20);
    assert_eq!(*arena.get(c), 3);
    assert_eq!(arena.len(), 3);
    assert_eq!(arena.teardown(), vec![1, 20, 3]);
}

#[test]
fn contains_tells_used_positions_from_unused() {
    let mut arena: Arena<i32> = Arena::new();
    assert!(!arena.contains(Slot { chunk: 0, offset: 0 }));
    place(&mut arena, 1);
    place(&mut arena, 2);
    assert!(arena.contains(Slot { chunk: 0, offset: 0 }));
    assert!(arena.contains(Slot { chunk: 1, offset: 0 }));
    assert!(!arena.contains(Slot { chunk: 1, offset: 1 }));
    assert!(!arena.contains(Slot { chunk: 2, offset: 0 }));
    assert!(!arena.contains(Slot { chunk: 0, offset: 1 }));
    assert!(arena.contains_span(Span { chunk: 1, offset: 0, len: 1 }));
    assert!(arena.contains_span(Span { chunk: 1, offset: 1, len: 0 }));
    assert!(!arena.contains_span(Span { chunk: 1, offset: 0, len: 2 }));
    assert!(!arena.contains_span(Span { chunk: 2, offset: 0, len: 0 }));
    assert!(!arena.contains_span(Span { chunk: 1, offset: usize::MAX, len: 2 }));
}

#[test]
fn zero_sized_objects_get_distinct_positions() {
    let mut arena: Arena<()> = Arena::new();
    let mut seen = HashSet::new();
    for _ in 0..100 {
        assert!(arena.can_alloc(1));
        seen.insert(arena.allocate(()));
    }
    assert_eq!(seen.len(), 100);
    assert_eq!(arena.len(), 100);
    assert_eq!(arena.chunks().chunk_count(), 7);
}

#[test]
fn oversized_slice_is_not_admitted() {
    let arena: Arena<u64> = Arena::new();
    assert!(arena.can_alloc(1));
    assert!(arena.can_alloc(isize::MAX as usize / 8));
    assert!(!arena.can_alloc(isize::MAX as usize / 8 + 1));
    assert!(!arena.can_alloc(usize::MAX));
}

#[test]
fn span_slot_rejects_positions_that_overflow() {
    let span = Span { chunk: 3, offset: usize::MAX - 1, len: 5 };
    assert_eq!(span.slot(0), Some(Slot { chunk: 3, offset: usize::MAX - 1 }));
    assert_eq!(span.slot(1), Some(Slot { chunk: 3, offset: usize::MAX }));
    assert_eq!(span.slot(2), None);
    assert_eq!(span.slot(5), None);
}
