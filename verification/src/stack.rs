//! Inline zero-allocation stack: a last-in first-out container with a
//! compile-time capacity bound.

use vstd::prelude::*;

verus! {

/// Inline zero-allocation stack implementation.
pub struct Stack<T, const N: usize> {
    data: Vec<T>,
}

/// Errors reported by [`Stack`] operations.
#[derive(Debug, Clone, Copy, PartialEq, Eq)]
pub enum StackError {
    Overflow,
    Underflow,
}

impl<T, const N: usize> View for Stack<T, N> {
    type V = Seq<T>;

    closed spec fn view(&self) -> Seq<T> {
        self.data@
    }
}

impl<T, const N: usize> Stack<T, N> {
    /// The stored elements never exceed the configured capacity.
    pub open spec fn wf(&self) -> bool {
        self@.len() <= N
    }

    pub fn new() -> (s: Self)
        ensures
            s@ == Seq::<T>::empty(),
            s.wf(),
    {
        Stack { data: Vec::new() }
    }

    #[inline]
    pub fn capacity(&self) -> (r: usize)
        ensures
            r == N,
    {
        N
    }

    #[inline]
    pub fn len(&self) -> (r: usize)
        ensures
            r == self@.len(),
    {
        self.data.len()
    }

    #[inline]
    pub fn is_empty(&self) -> (r: bool)
        ensures
            r <==> self@.len() == 0,
    {
        self.data.len() == 0
    }

    #[inline]
    pub fn is_full(&self) -> (r: bool)
        ensures
            r <==> self@.len() == N,
    {
        self.data.len() == N
    }

    #[inline]
    pub fn remaining_capacity(&self) -> (r: usize)
        requires
            self.wf(),
        ensures
            r == N - self@.len(),
    {
        N - self.data.len()
    }

    /// Pushes an item onto the stack, returning an error if full
    pub fn push(&mut self, item: T) -> (r: Result<(), StackError>)
        requires
            old(self).wf(),
        ensures
            final(self).wf(),
            old(self)@.len() < N ==> r == Ok::<(), StackError>(()) && final(self)@ == old(self)@.push(item),
            old(self)@.len() >= N ==> r == Err::<(), StackError>(StackError::Overflow) && final(self)@ == old(self)@,
    {
        if self.data.len() >= N {
            return Err(StackError::Overflow);
        }
        self.data.push(item);
        Ok(())
    }

    /// Pops an item from the stack, returning an error if empty
    pub fn pop(&mut self) -> (r: Result<T, StackError>)
        requires
            old(self).wf(),
        ensures
            final(self).wf(),
            old(self)@.len() == 0 ==> r == Err::<T, StackError>(StackError::Underflow) && final(self)@ == old(self)@,
            old(self)@.len() > 0 ==> (r matches Ok(item) && item == old(self)@.last() && final(self)@ == old(self)@.drop_last()),
    {
        match self.data.pop() {
            Some(item) => Ok(item),
            None => Err(StackError::Underflow),
        }
    }

    /// Returns a reference to the top item without removing it, returning `None` if empty
    pub fn peek(&self) -> (r: Option<&T>)
        ensures
            self@.len() == 0 ==> r is None,
            self@.len() > 0 ==> (r matches Some(v) && *v == self@.last()),
    {
        if self.data.len() == 0 {
            None
        } else {
            Some(&self.data[self.data.len() - 1])
        }
    }

    /// Returns a mutable reference to the top item without removing it, returning `None` if empty
    pub fn peek_mut(&mut self) -> (r: Option<&mut T>)
        requires
            old(self).wf(),
        ensures
            old(self)@.len() == 0 ==> r is None && final(self)@ == old(self)@,
            old(self)@.len() > 0 ==> (r matches Some(p) && *p == old(self)@.last() && final(self)@
                == old(self)@.update(old(self)@.len() - 1, *final(p))),
            final(self).wf(),
    {
        if self.data.len() == 0 {
            None
        } else {
            let i = self.data.len() - 1;
            Some(&mut self.data[i])
        }
    }

    /// Removes every element, leaving the stack empty.
    pub fn clear(&mut self)
        ensures
            final(self)@ == Seq::<T>::empty(),
            final(self).wf(),
    {
        self.data.clear();
    }

    /// Iterates over the stored elements from the top of the stack down.
    pub fn iter(&self) -> (it: StackIter<'_, T>)
        ensures
            it.elements() == self@,
            it.pos() == self@.len(),
            it.wf(),
    {
        StackIter { data: self.data.as_slice(), index: self.data.len() }
    }

    /// Attempts to push an item, returning the item back if the stack is full.
    pub fn try_push(&mut self, item: T) -> (r: Result<(), T>)
        requires
            old(self).wf(),
        ensures
            final(self).wf(),
            old(self)@.len() < N ==> r == Ok::<(), T>(()) && final(self)@ == old(self)@.push(item),
            old(self)@.len() >= N ==> r == Err::<(), T>(item) && final(self)@ == old(self)@,
    {
        if self.data.len() >= N {
            return Err(item);
        }
        self.data.push(item);
        Ok(())
    }
}

impl<T, const N: usize> Default for Stack<T, N> {
    fn default() -> (s: Self)
        ensures
            s@ == Seq::<T>::empty(),
            s.wf(),
    {
        Self::new()
    }
}

/// Iterator over a [`Stack`], yielding references from the top down.
pub struct StackIter<'a, T> {
    data: &'a [T],
    index: usize,
}

impl<'a, T> StackIter<'a, T> {
    /// The elements being walked, bottom of the stack first.
    pub closed spec fn elements(&self) -> Seq<T> {
        self.data@
    }

    /// How many elements are still to be yielded.
    pub closed spec fn pos(&self) -> int {
        self.index as int
    }

    pub open spec fn wf(&self) -> bool {
        self.pos() <= self.elements().len()
    }

    /// Yields the next element down the stack, or `None` when the walk is done.
    pub fn next(&mut self) -> (r: Option<&'a T>)
        requires
            old(self).wf(),
        ensures
            final(self).wf(),
            final(self).elements() == old(self).elements(),
            old(self).pos() == 0 ==> r is None && final(self).pos() == 0,
            old(self).pos() > 0 ==> (r matches Some(v) && final(self).pos() == old(self).pos() - 1
                && *v == old(self).elements()[old(self).pos() - 1]),
    {
        if self.index == 0 {
            None
        } else {
            self.index -= 1;
            Some(&self.data[self.index])
        }
    }

    /// How many elements remain, as the pair of lower and upper bounds.
    pub fn size_hint(&self) -> (r: (usize, Option<usize>))
        ensures
            r.0 == self.pos(),
            r.1 matches Some(n) && n == self.pos(),
    {
        (self.index, Some(self.index))
    }

    /// The exact number of elements that remain.
    pub fn len(&self) -> (r: usize)
        ensures
            r == self.pos(),
    {
        self.index
    }
}

} // verus!
