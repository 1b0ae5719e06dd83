//! Classic ring buffer: a bounded first-in first-out buffer over a fixed ring
//! of slots, with one slot always kept free to tell a full ring from an empty
//! one.

use crate::queue::occupancy;
use crate::queue::pop_decision;
use crate::queue::push_decision;
use crate::queue::spec_occupancy;
use crate::queue::spec_slot;
use vstd::prelude::*;

verus! {

/// Classic ring buffer implementation.
pub struct RingBuffer<T, const N: usize> {
    data: Vec<Option<T>>,
    head: usize,
    tail: usize,
}

/// Errors reported by [`RingBuffer`] operations.
#[derive(Debug, Clone, Copy, PartialEq, Eq)]
pub enum RingBufferError {
    Full,
    Empty,
}

impl<T, const N: usize> View for RingBuffer<T, N> {
    type V = Seq<T>;

    /// The buffered items, oldest first.
    closed spec fn view(&self) -> Seq<T> {
        Seq::new(
            spec_occupancy(self.head as int, self.tail as int, N as int) as nat,
            |d: int| self.data@[spec_slot(self.tail as int, d, N as int)].unwrap(),
        )
    }
}

impl<T, const N: usize> RingBuffer<T, N> {
    /// The ring holds `N` slots; head and tail stand inside it; every slot in
    /// use holds an item.
    pub closed spec fn wf(&self) -> bool {
        &&& self.data@.len() == N
        &&& N > 0
        &&& (self.head as int) < N
        &&& (self.tail as int) < N
        &&& forall|d: int|
            0 <= d < spec_occupancy(self.head as int, self.tail as int, N as int) ==> self.data@[
                #[trigger] spec_slot(self.tail as int, d, N as int)] is Some
    }

    /// Creates an empty buffer. The capacity must be a power of two.
    pub fn new() -> (b: Self)
        requires
            N > 0,
            ((N as u64) & ((N - 1) as u64)) == 0,
        ensures
            b.wf(),
            b@ == Seq::<T>::empty(),
    {
        let mut data: Vec<Option<T>> = Vec::new();
        let mut i: usize = 0;
        while i < N
            invariant
                i <= N,
                data@.len() == i,
            decreases N - i,
        {
            data.push(None);
            i += 1;
        }
        let b = RingBuffer { data, head: 0, tail: 0 };
        proof {
            assert(b@ =~= Seq::<T>::empty());
        }
        b
    }

    #[inline]
    pub fn capacity(&self) -> (r: usize)
        ensures
            r == N,
    {
        N
    }

    /// How many items the buffer holds.
    #[inline]
    pub fn len(&self) -> (r: usize)
        requires
            self.wf(),
        ensures
            r == self@.len(),
    {
        occupancy(self.head, self.tail, N)
    }

    #[inline]
    pub fn is_empty(&self) -> (r: bool)
        requires
            self.wf(),
        ensures
            r <==> self@.len() == 0,
    {
        self.len() == 0
    }

    /// Whether the buffer is at its usable capacity of `N - 1` items.
    #[inline]
    pub fn is_full(&self) -> (r: bool)
        requires
            self.wf(),
        ensures
            r <==> self@.len() == N - 1,
    {
        self.len() == N - 1
    }

    /// Pushes an item to the buffer, returning an error if full
    pub fn push(&mut self, item: T) -> (r: Result<(), RingBufferError>)
        requires
            old(self).wf(),
        ensures
            final(self).wf(),
            old(self)@.len() == N - 1 ==> r == Err::<(), RingBufferError>(RingBufferError::Full)
                && final(self)@ == old(self)@,
            old(self)@.len() < N - 1 ==> r == Ok::<(), RingBufferError>(()) && final(self)@ == old(self)@.push(item),
    {
        match push_decision(self.head, self.tail, N) {
            None => Err(RingBufferError::Full),
            Some(next_head) => {
                self.data.set(self.head, Some(item));
                self.head = next_head;
                proof {
                    let t = self.tail as int;
                    let n = N as int;
                    let occ0 = spec_occupancy(old(self).head as int, t, n);
                    assert(spec_slot(t, occ0, n) == old(self).head as int);
                    assert forall|d: int| 0 <= d < occ0 + 1 implies self.data@[#[trigger] spec_slot(
                        t,
                        d,
                        n,
                    )] is Some by {
                        if d < occ0 {
                            assert(spec_slot(t, d, n) != old(self).head as int);
                        }
                    }
                    assert(self@ =~= old(self)@.push(item));
                }
                Ok(())
            },
        }
    }

    /// Pops an item from the buffer, returning an error if empty
    pub fn pop(&mut self) -> (r: Result<T, RingBufferError>)
        requires
            old(self).wf(),
        ensures
            final(self).wf(),
            old(self)@.len() == 0 ==> r == Err::<T, RingBufferError>(RingBufferError::Empty)
                && final(self)@ == old(self)@,
            old(self)@.len() > 0 ==> (r matches Ok(item) && item == old(self)@.first() && final(self)@ == old(self)@.drop_first()),
    {
        match pop_decision(self.head, self.tail, N) {
            None => Err(RingBufferError::Empty),
            Some(next_tail) => {
                let mut slot: Option<T> = None;
                let tail = self.tail;
                core::mem::swap(&mut slot, &mut self.data[tail]);
                proof {
                    assert(spec_slot(self.tail as int, 0, N as int) == self.tail as int);
                }
                let item = match slot {
                    Some(item) => item,
                    None => {
                        return Err(RingBufferError::Empty);
                    },
                };
                self.tail = next_tail;
                proof {
                    let t0 = old(self).tail as int;
                    let n = N as int;
                    let occ0 = spec_occupancy(old(self).head as int, t0, n);
                    assert forall|d: int| 0 <= d < occ0 - 1 implies self.data@[#[trigger] spec_slot(
                        self.tail as int,
                        d,
                        n,
                    )] is Some && self.data@[spec_slot(self.tail as int, d, n)]
                        == old(self).data@[spec_slot(t0, d + 1, n)] by {
                        assert(spec_slot(self.tail as int, d, n) == spec_slot(t0, d + 1, n));
                        assert(spec_slot(t0, d + 1, n) != t0);
                    }
                    assert(self@ =~= old(self)@.drop_first());
                }
                Ok(item)
            },
        }
    }

    /// Attempts a push; the same bounded behaviour as `push`.
    #[inline]
    pub fn try_push(&mut self, item: T) -> (r: Result<(), RingBufferError>)
        requires
            old(self).wf(),
        ensures
            final(self).wf(),
            old(self)@.len() == N - 1 ==> r == Err::<(), RingBufferError>(RingBufferError::Full)
                && final(self)@ == old(self)@,
            old(self)@.len() < N - 1 ==> r == Ok::<(), RingBufferError>(()) && final(self)@ == old(self)@.push(item),
    {
        self.push(item)
    }

    /// Attempts a pop; the same bounded behaviour as `pop`.
    #[inline]
    pub fn try_pop(&mut self) -> (r: Result<T, RingBufferError>)
        requires
            old(self).wf(),
        ensures
            final(self).wf(),
            old(self)@.len() == 0 ==> r == Err::<T, RingBufferError>(RingBufferError::Empty)
                && final(self)@ == old(self)@,
            old(self)@.len() > 0 ==> (r matches Ok(item) && item == old(self)@.first() && final(self)@ == old(self)@.drop_first()),
    {
        self.pop()
    }
}

} // verus!
