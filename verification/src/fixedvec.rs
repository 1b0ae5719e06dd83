//! A vector with a fixed capacity and inline storage: a `Vec`-like interface
//! that never grows past its compile-time bound.

use vstd::prelude::*;

verus! {

/// Similar interface to `Vec`, but with a fixed capacity and inline storage
pub struct FixedVec<T, const N: usize> {
    data: Vec<T>,
}

/// Errors reported by [`FixedVec`] operations.
#[derive(Debug, Clone, Copy, PartialEq, Eq)]
pub enum FixedVecError {
    Full,
    IndexOutOfBounds,
}

impl<T, const N: usize> View for FixedVec<T, N> {
    type V = Seq<T>;

    closed spec fn view(&self) -> Seq<T> {
        self.data@
    }
}

impl<T, const N: usize> FixedVec<T, N> {
    /// The stored elements never exceed the configured capacity.
    pub open spec fn wf(&self) -> bool {
        self@.len() <= N
    }

    pub fn new() -> (s: Self)
        ensures
            s@ == Seq::<T>::empty(),
            s.wf(),
    {
        FixedVec { data: Vec::new() }
    }

    #[inline]
    pub fn capacity(&self) -> (r: usize)
        ensures
            r == N,
    {
        N
    }

    #[inline]
    pub fn len(&self) -> (r: usize)
        ensures
            r == self@.len(),
    {
        self.data.len()
    }

    #[inline]
    pub fn is_empty(&self) -> (r: bool)
        ensures
            r <==> self@.len() == 0,
    {
        self.data.len() == 0
    }

    #[inline]
    pub fn is_full(&self) -> (r: bool)
        ensures
            r <==> self@.len() == N,
    {
        self.data.len() == N
    }

    #[inline]
    pub fn remaining_capacity(&self) -> (r: usize)
        requires
            self.wf(),
        ensures
            r == N - self@.len(),
    {
        N - self.data.len()
    }

    /// Pushes an element to the end of the vector, returning an error if full
    pub fn push(&mut self, value: T) -> (r: Result<(), FixedVecError>)
        requires
            old(self).wf(),
        ensures
            final(self).wf(),
            old(self)@.len() < N ==> r == Ok::<(), FixedVecError>(()) && final(self)@ == old(self)@.push(value),
            old(self)@.len() >= N ==> r == Err::<(), FixedVecError>(FixedVecError::Full) && final(self)@ == old(self)@,
    {
        if self.data.len() >= N {
            return Err(FixedVecError::Full);
        }
        self.data.push(value);
        Ok(())
    }

    /// Removes and returns the last element, returning `None` if empty
    pub fn pop(&mut self) -> (r: Option<T>)
        requires
            old(self).wf(),
        ensures
            final(self).wf(),
            old(self)@.len() == 0 ==> r is None && final(self)@ == old(self)@,
            old(self)@.len() > 0 ==> (r matches Some(value) && value == old(self)@.last() && final(self)@ == old(self)@.drop_last()),
    {
        self.data.pop()
    }

    /// Returns a reference to the element at the given index,
    /// returning `None` if out of bounds
    pub fn get(&self, index: usize) -> (r: Option<&T>)
        ensures
            index < self@.len() ==> (r matches Some(v) && *v == self@[index as int]),
            index >= self@.len() ==> r is None,
    {
        if index < self.data.len() {
            Some(&self.data[index])
        } else {
            None
        }
    }

    /// Returns a mutable reference to the element at the given index,
    /// returning `None` if out of bounds
    pub fn get_mut(&mut self, index: usize) -> (r: Option<&mut T>)
        requires
            old(self).wf(),
        ensures
            final(self).wf(),
            index >= old(self)@.len() ==> r is None && final(self)@ == old(self)@,
            index < old(self)@.len() ==> (r matches Some(p) && *p == old(self)@[index as int]
                && final(self)@ == old(self)@.update(index as int, *final(p))),
    {
        if index < self.data.len() {
            Some(&mut self.data[index])
        } else {
            None
        }
    }

    /// Returns a reference to the first element, returning `None` if empty
    pub fn first(&self) -> (r: Option<&T>)
        ensures
            self@.len() == 0 ==> r is None,
            self@.len() > 0 ==> (r matches Some(v) && *v == self@[0]),
    {
        self.get(0)
    }

    /// Returns a reference to the last element, returning `None` if empty
    pub fn last(&self) -> (r: Option<&T>)
        ensures
            self@.len() == 0 ==> r is None,
            self@.len() > 0 ==> (r matches Some(v) && *v == self@.last()),
    {
        if self.data.len() > 0 {
            self.get(self.data.len() - 1)
        } else {
            None
        }
    }

    /// Returns a mutable reference to the first element, returning `None` if empty
    pub fn first_mut(&mut self) -> (r: Option<&mut T>)
        requires
            old(self).wf(),
        ensures
            final(self).wf(),
            old(self)@.len() == 0 ==> r is None && final(self)@ == old(self)@,
            old(self)@.len() > 0 ==> (r matches Some(p) && *p == old(self)@[0] && final(self)@
                == old(self)@.update(0, *final(p))),
    {
        self.get_mut(0)
    }

    /// Returns a mutable reference to the last element, returning `None` if empty
    pub fn last_mut(&mut self) -> (r: Option<&mut T>)
        requires
            old(self).wf(),
        ensures
            final(self).wf(),
            old(self)@.len() == 0 ==> r is None && final(self)@ == old(self)@,
            old(self)@.len() > 0 ==> (r matches Some(p) && *p == old(self)@.last() && final(self)@
                == old(self)@.update(old(self)@.len() - 1, *final(p))),
    {
        if self.data.len() > 0 {
            let last_index = self.data.len() - 1;
            self.get_mut(last_index)
        } else {
            None
        }
    }

    /// Inserts an element at the given index, shifting all elements after the index to the right
    /// and returning an error if the vector is full or the index is invalid
    pub fn insert(&mut self, index: usize, value: T) -> (r: Result<(), FixedVecError>)
        requires
            old(self).wf(),
        ensures
            final(self).wf(),
            old(self)@.len() >= N ==> r == Err::<(), FixedVecError>(FixedVecError::Full) && final(self)@ == old(self)@,
            old(self)@.len() < N && index > old(self)@.len() ==> r == Err::<(), FixedVecError>(
                FixedVecError::IndexOutOfBounds,
            ) && final(self)@ == old(self)@,
            old(self)@.len() < N && index <= old(self)@.len() ==> r == Ok::<(), FixedVecError>(())
                && final(self)@ == old(self)@.insert(index as int, value),
    {
        if self.data.len() >= N {
            return Err(FixedVecError::Full);
        }
        if index > self.data.len() {
            return Err(FixedVecError::IndexOutOfBounds);
        }
        self.data.insert(index, value);
        Ok(())
    }

    /// Removes and returns the element at the given index,
    /// shifting all elements after the index to the left and
    /// returning `None` if the index is out of bounds
    pub fn remove(&mut self, index: usize) -> (r: Option<T>)
        requires
            old(self).wf(),
        ensures
            final(self).wf(),
            index >= old(self)@.len() ==> r is None && final(self)@ == old(self)@,
            index < old(self)@.len() ==> (r matches Some(value) && value == old(self)@[index as int]
                && final(self)@ == old(self)@.remove(index as int)),
    {
        if index >= self.data.len() {
            return None;
        }
        Some(self.data.remove(index))
    }

    /// Swaps two elements in the vector; both indices must be in bounds.
    pub fn swap(&mut self, a: usize, b: usize)
        requires
            old(self).wf(),
            a < old(self)@.len(),
            b < old(self)@.len(),
        ensures
            final(self).wf(),
            final(self)@ == old(self)@.update(a as int, old(self)@[b as int]).update(
                b as int,
                old(self)@[a as int],
            ),
    {
        if a != b {
            let lo: usize = if a < b { a } else { b };
            let hi: usize = if a < b { b } else { a };
            let vhi = self.data.remove(hi);
            let vlo = self.data.remove(lo);
            self.data.insert(lo, vhi);
            self.data.insert(hi, vlo);
            proof {
                assert(self.data@ =~= old(self)@.update(a as int, old(self)@[b as int]).update(
                    b as int,
                    old(self)@[a as int],
                ));
            }
        } else {
            proof {
                assert(self.data@ =~= old(self)@.update(a as int, old(self)@[b as int]).update(
                    b as int,
                    old(self)@[a as int],
                ));
            }
        }
    }

    /// Reverses the order of elements
    pub fn reverse(&mut self)
        requires
            old(self).wf(),
        ensures
            final(self).wf(),
            final(self)@ == old(self)@.reverse(),
    {
        let mut left: usize = 0;
        let mut right: usize = self.data.len();
        while left < right
            invariant
                self.wf(),
                right <= self@.len(),
                left + right == self@.len(),
                self@.len() == old(self)@.len(),
                forall|i: int|
                    0 <= i < left ==> self@[i] == old(self)@[old(self)@.len() - 1 - i],
                forall|i: int|
                    right <= i < self@.len() ==> self@[i] == old(self)@[old(self)@.len() - 1 - i],
                forall|i: int| left <= i < right ==> self@[i] == old(self)@[i],
            decreases right,
        {
            right -= 1;
            self.swap(left, right);
            left += 1;
        }
        proof {
            assert(self@ =~= old(self)@.reverse());
        }
    }

    /// Removes every element, leaving the vector empty.
    pub fn clear(&mut self)
        ensures
            final(self)@ == Seq::<T>::empty(),
            final(self).wf(),
    {
        self.data.clear();
    }

    /// Truncates the vector to the specified length
    ///
    /// If current length is greater than `len`, the vec is truncated
    /// to exactly `len` elements
    pub fn truncate(&mut self, len: usize)
        requires
            old(self).wf(),
        ensures
            final(self).wf(),
            len >= old(self)@.len() ==> final(self)@ == old(self)@,
            len < old(self)@.len() ==> final(self)@ == old(self)@.take(len as int),
    {
        self.data.truncate(len);
        proof {
            if len >= old(self)@.len() {
                assert(self.data@ =~= old(self)@);
            }
        }
    }

    /// Iterates over the stored elements from the front to the back.
    pub fn iter(&self) -> (it: FixedVecIter<'_, T>)
        ensures
            it.elements() == self@,
            it.pos() == 0,
            it.wf(),
    {
        FixedVecIter { data: self.data.as_slice(), index: 0 }
    }

    /// Exposes the stored elements as a shared slice.
    pub fn as_slice(&self) -> (r: &[T])
        ensures
            r@ == self@,
    {
        self.data.as_slice()
    }

    /// Exposes the stored elements as a mutable slice.
    pub fn as_mut_slice(&mut self) -> (r: &mut [T])
        ensures
            r@ == old(self)@,
            final(self)@ == final(r)@,
    {
        self.data.as_mut_slice()
    }

    /// Attempts to push an element, returning the element if full
    pub fn try_push(&mut self, value: T) -> (r: Result<(), T>)
        requires
            old(self).wf(),
        ensures
            final(self).wf(),
            old(self)@.len() < N ==> r == Ok::<(), T>(()) && final(self)@ == old(self)@.push(value),
            old(self)@.len() >= N ==> r == Err::<(), T>(value) && final(self)@ == old(self)@,
    {
        if self.data.len() >= N {
            return Err(value);
        }
        self.data.push(value);
        Ok(())
    }

    /// Extends the vector with the given elements in order, returning
    /// the number of elements that didn't fit.
    pub fn extend_from_iter(&mut self, items: Vec<T>) -> (r: usize)
        requires
            old(self).wf(),
        ensures
            final(self).wf(),
            old(self)@.len() + items@.len() <= N ==> r == 0 && final(self)@ == old(self)@
                + items@,
            old(self)@.len() + items@.len() > N ==> r == old(self)@.len() + items@.len() - N
                && final(self)@ == old(self)@ + items@.take(N - old(self)@.len()),
    {
        let ghost orig = self@;
        let ghost pending = items@;
        let mut failed_count: usize = 0;
        let mut items = items;
        let total: usize = items.len();
        let mut taken: usize = 0;
        while items.len() > 0
            invariant
                self.wf(),
                taken <= total,
                total == pending.len(),
                taken + items@.len() == pending.len(),
                items@ == pending.skip(taken as int),
                orig.len() <= N,
                orig.len() + taken <= N ==> failed_count == 0 && self@ == orig + pending.take(
                    taken as int,
                ),
                orig.len() + taken > N ==> self@.len() == N && failed_count == orig.len() + taken
                    - N && self@ == orig + pending.take(N - orig.len()),
            decreases items@.len(),
        {
            let item = items.remove(0);
            proof {
                assert(item == pending[taken as int]);
                assert(items@ =~= pending.skip(taken as int + 1));
            }
            let pushed = self.push(item);
            if pushed.is_err() {
                failed_count += 1;
            }
            taken += 1;
            proof {
                if orig.len() + taken <= N {
                    assert(self@ =~= orig + pending.take(taken as int));
                } else {
                    assert(self@ =~= orig + pending.take(N - orig.len()));
                }
            }
        }
        proof {
            assert(pending.take(pending.len() as int) =~= pending);
        }
        failed_count
    }
}

impl<T, const N: usize> Default for FixedVec<T, N> {
    fn default() -> (s: Self)
        ensures
            s@ == Seq::<T>::empty(),
            s.wf(),
    {
        Self::new()
    }
}

/// Iterator over a [`FixedVec`], yielding references from front to back.
pub struct FixedVecIter<'a, T> {
    data: &'a [T],
    index: usize,
}

impl<'a, T> FixedVecIter<'a, T> {
    /// The elements being walked, front of the vector first.
    pub closed spec fn elements(&self) -> Seq<T> {
        self.data@
    }

    /// How many elements were already yielded.
    pub closed spec fn pos(&self) -> int {
        self.index as int
    }

    pub open spec fn wf(&self) -> bool {
        self.pos() <= self.elements().len()
    }

    /// Yields the next element, or `None` when the walk is done.
    pub fn next(&mut self) -> (r: Option<&'a T>)
        requires
            old(self).wf(),
        ensures
            final(self).wf(),
            final(self).elements() == old(self).elements(),
            old(self).pos() == old(self).elements().len() ==> r is None && final(self).pos() == old(self).pos(),
            old(self).pos() < old(self).elements().len() ==> (r matches Some(v) && final(self).pos()
                == old(self).pos() + 1 && *v == old(self).elements()[old(self).pos()]),
    {
        if self.index < self.data.len() {
            let item = &self.data[self.index];
            self.index += 1;
            Some(item)
        } else {
            None
        }
    }

    /// How many elements remain, as the pair of lower and upper bounds.
    pub fn size_hint(&self) -> (r: (usize, Option<usize>))
        requires
            self.wf(),
        ensures
            r.0 == self.elements().len() - self.pos(),
            r.1 matches Some(n) && n == self.elements().len() - self.pos(),
    {
        let remaining = self.data.len() - self.index;
        (remaining, Some(remaining))
    }

    /// The exact number of elements that remain.
    pub fn len(&self) -> (r: usize)
        requires
            self.wf(),
        ensures
            r == self.elements().len() - self.pos(),
    {
        self.data.len() - self.index
    }
}

} // verus!
