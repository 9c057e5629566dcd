//! Capacity arithmetic: how large a chunk may be and how large the next one is.

use vstd::prelude::*;
use vstd::arithmetic::power2::{pow2, lemma2_to64, lemma_pow2_unfold, lemma_pow2_strictly_increases};

verus! {

/// The largest number of elements of `elem_size` bytes that one chunk may
/// hold: a chunk never spans more than `isize::MAX` bytes, and never counts
/// more than `isize::MAX` elements even when they take no room.
pub open spec fn capacity_limit(elem_size: nat) -> nat {
    if elem_size == 0 {
        isize::MAX as nat
    } else {
        (isize::MAX as nat) / elem_size
    }
}

/// The capacity of the chunk that follows one of capacity `prev` when `count`
/// neighbouring slots are wanted: twice the previous capacity, or `count` if
/// that is more.
pub open spec fn grown_capacity(prev: nat, count: nat) -> nat {
    if 2 * prev >= count {
        2 * prev
    } else {
        count
    }
}

/// Computes [`capacity_limit`] for elements of `elem_size` bytes.
pub fn chunk_capacity_limit(elem_size: usize) -> (limit: usize)
    ensures
        limit == capacity_limit(elem_size as nat),
        limit <= isize::MAX,
{
    let top: usize = isize::MAX as usize;
    if elem_size == 0 {
        top
    } else {
        let limit: usize = top / elem_size;
        assert(limit <= top) by (nonlinear_arith)
            requires
                limit == top / elem_size,
                elem_size >= 1,
        ;
        limit
    }
}

/// Computes [`grown_capacity`] with every step checked: `None` exactly when
/// the grown capacity is more than `limit`.
pub fn next_capacity(prev: usize, count: usize, limit: usize) -> (next: Option<usize>)
    ensures
        next.is_some() <==> grown_capacity(prev as nat, count as nat) <= limit,
        next.is_some() ==> next.unwrap() == grown_capacity(prev as nat, count as nat),
{
    match prev.checked_mul(2) {
        None => None,
        Some(doubled) => {
            let wanted: usize = if doubled >= count { doubled } else { count };
            if wanted <= limit {
                Some(wanted)
            } else {
                None
            }
        },
    }
}

/// Computes the capacity of the chunk at `level` under pure doubling from a
/// first chunk of one element, which is two to the power `level`: `None`
/// exactly when that is more than `limit`.
pub fn level_capacity(level: usize, limit: usize) -> (cap: Option<usize>)
    ensures
        cap.is_some() <==> pow2(level as nat) <= limit,
        cap.is_some() ==> cap.unwrap() == pow2(level as nat),
{
    proof {
        lemma2_to64();
    }
    if limit == 0 {
        proof {
            if level > 0 {
                lemma_pow2_strictly_increases(0, level as nat);
            }
        }
        return None;
    }
    let mut cap: usize = 1;
    let mut done: usize = 0;
    while done < level
        invariant
            done <= level,
            cap == pow2(done as nat),
            cap <= limit,
        decreases level - done,
    {
        proof {
            lemma_pow2_unfold((done + 1) as nat);
            if done + 1 < level {
                lemma_pow2_strictly_increases((done + 1) as nat, level as nat);
            }
        }
        if cap > limit / 2 {
            return None;
        }
        cap = cap * 2;
        done = done + 1;
    }
    Some(cap)
}

} // verus!
