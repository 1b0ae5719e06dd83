//! Index discipline of the fixed-capacity single-producer single-consumer
//! queue: the ring of `n` slots, the producer's head, and the consumer's
//! tail, with one slot always kept free to tell a full ring from an empty
//! one.
//!
//! The queue itself shares its storage between the producer and the consumer
//! through atomics, which this library does not verify; that shell performs
//! the loads, stores and slot writes, and takes every decision — how many
//! slots are in use, whether a push or pop may proceed, and which index to
//! publish next — from the functions here, which are verified for every head
//! and tail position.

use vstd::prelude::*;

verus! {

/// Errors reported by queue operations.
#[derive(Debug, Clone, Copy, PartialEq, Eq)]
pub enum QueueError {
    Full,
    Empty,
}

/// The slot reached `d` steps after slot `start` in a ring of `n` slots,
/// wrapping past the end at most once.
pub open spec fn spec_slot(start: int, d: int, n: int) -> int {
    if start + d < n {
        start + d
    } else {
        start + d - n
    }
}

/// How many slots are in use when the producer stands at `head` and the
/// consumer at `tail`.
pub open spec fn spec_occupancy(head: int, tail: int, n: int) -> int {
    if head >= tail {
        head - tail
    } else {
        head + n - tail
    }
}

/// The slot that follows slot `i` in a ring of `n` slots.
pub open spec fn spec_next(i: int, n: int) -> int {
    if i + 1 < n {
        i + 1
    } else {
        0
    }
}

/// The number of slots in use between a consumer's tail and a producer's
/// head.
pub fn occupancy(head: usize, tail: usize, n: usize) -> (r: usize)
    requires
        head < n,
        tail < n,
    ensures
        r == spec_occupancy(head as int, tail as int, n as int),
        r < n,
{
    if head >= tail {
        head - tail
    } else {
        (n - tail) + head
    }
}

/// The slot that follows slot `i`.
pub fn next_slot(i: usize, n: usize) -> (r: usize)
    requires
        i < n,
    ensures
        r == spec_next(i as int, n as int),
        r < n,
{
    if i + 1 < n {
        i + 1
    } else {
        0
    }
}

/// Decides a push: the head to publish after filling the current head slot,
/// or `None` when the ring is full — one slot always stays free, so a ring of
/// `n` slots holds at most `n - 1` items.
pub fn push_decision(head: usize, tail: usize, n: usize) -> (r: Option<usize>)
    requires
        head < n,
        tail < n,
        n > 0,
    ensures
        r is Some <==> spec_occupancy(head as int, tail as int, n as int) < n - 1,
        r matches Some(next_head) ==> next_head == spec_next(head as int, n as int) && next_head
            < n,
    {
    let next_head = next_slot(head, n);
    if next_head == tail {
        None
    } else {
        Some(next_head)
    }
}

/// Decides a pop: the tail to publish after reading the current tail slot, or
/// `None` when the ring is empty.
pub fn pop_decision(head: usize, tail: usize, n: usize) -> (r: Option<usize>)
    requires
        head < n,
        tail < n,
        n > 0,
    ensures
        r is Some <==> spec_occupancy(head as int, tail as int, n as int) > 0,
        r matches Some(next_tail) ==> next_tail == spec_next(tail as int, n as int) && next_tail
            < n,
{
    if tail == head {
        None
    } else {
        Some(next_slot(tail, n))
    }
}

} // verus!
