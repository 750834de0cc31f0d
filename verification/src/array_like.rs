//! Fixed and shifted array wrappers: a constant array that stores its value
//! once, and an array whose indices are offset by a movable start.

use vstd::prelude::*;

verus! {

/// An array holding one value repeated `size` times, stored once.
pub struct RepeatArray<T> {
    /// The repeated value.
    pub value: T,
    /// The pretended number of elements.
    pub size: usize,
}

impl<T: Copy> RepeatArray<T> {
    /// An array of `size` copies of `value`.
    pub fn new(value: T, size: usize) -> (r: RepeatArray<T>)
        ensures
            r.value == value,
            r.size == size,
    {
        RepeatArray { value, size }
    }

    /// Every index reads the one stored value.
    pub fn get(&self, _index: usize) -> (r: T)
        ensures
            r == self.value,
    {
        self.value
    }

    /// Iterate the value `size` times.
    pub fn iter(&self) -> (it: RepeatArrayIterator<T>)
        ensures
            it.value == self.value,
            it.size == self.size,
    {
        RepeatArrayIterator { value: self.value, size: self.size }
    }

    /// The pretended length.
    pub fn len(&self) -> (n: usize)
        ensures
            n == self.size,
    {
        self.size
    }
}

/// Iterator over a [`RepeatArray`]: yields the value `size` times.
pub struct RepeatArrayIterator<T> {
    /// The repeated value.
    pub value: T,
    /// Remaining number of repetitions.
    pub size: usize,
}

impl<T: Copy> RepeatArrayIterator<T> {
    /// Yield the value while repetitions remain.
    pub fn next(&mut self) -> (r: Option<T>)
        ensures
            final(self).value == old(self).value,
            old(self).size > 0 ==> r == Some(old(self).value) && final(self).size == old(self).size
                - 1,
            old(self).size == 0 ==> r == None::<T> && final(self).size == 0,
    {
        if self.size > 0 {
            self.size = self.size - 1;
            Some(self.value)
        } else {
            None
        }
    }
}

/// An array viewed through shifted indices: index `key` reads the backing
/// vector at `key - start`.
pub struct ShiftArray<T> {
    /// The index that maps to the first element.
    pub start: usize,
    /// The backing elements.
    pub lst: Vec<T>,
}

impl<T> ShiftArray<T> {
    /// Wrap a vector, with the shift initially zero.
    pub fn new(lst: Vec<T>) -> (r: ShiftArray<T>)
        ensures
            r.start == 0,
            r.lst == lst,
    {
        ShiftArray { start: 0, lst }
    }

    /// Move the index shift.
    pub fn set_start(&mut self, start: usize)
        ensures
            final(self).start == start,
            final(self).lst == old(self).lst,
    {
        self.start = start;
    }

    /// The element under shifted index `key`.
    pub fn get(&self, key: usize) -> (r: &T)
        requires
            self.start <= key,
            key - self.start < self.lst@.len(),
        ensures
            *r == self.lst@[key - self.start],
    {
        &self.lst[key - self.start]
    }

    /// Replace the element under shifted index `key`.
    pub fn set(&mut self, key: usize, value: T)
        requires
            old(self).start <= key,
            key - old(self).start < old(self).lst@.len(),
        ensures
            final(self).start == old(self).start,
            final(self).lst@ == old(self).lst@.update(key - old(self).start, value),
    {
        let i = key - self.start;
        self.lst.set(i, value);
    }

    /// Number of backing elements.
    pub fn len(&self) -> (n: usize)
        ensures
            n == self.lst@.len(),
    {
        self.lst.len()
    }
}

impl<T: Copy> ShiftArray<T> {
    /// All pairs of shifted index and element, in order.
    pub fn items(&self) -> (r: Vec<(usize, T)>)
        requires
            self.start + self.lst@.len() <= usize::MAX,
        ensures
            r@.len() == self.lst@.len(),
            forall|i: int|
                0 <= i < r@.len() ==> #[trigger] r@[i] == ((i + self.start) as usize, self.lst@[i]),
    {
        let mut r: Vec<(usize, T)> = Vec::new();
        let mut i: usize = 0;
        while i < self.lst.len()
            invariant
                i <= self.lst@.len(),
                self.start + self.lst@.len() <= usize::MAX,
                r@.len() == i,
                forall|j: int|
                    0 <= j < i ==> #[trigger] r@[j] == ((j + self.start) as usize, self.lst@[j]),
            decreases self.lst@.len() - i,
        {
            r.push((i + self.start, self.lst[i]));
            i = i + 1;
        }
        r
    }

    /// Iterate the backing elements from position `start` on: with a shift
    /// of `s`, the first `s` elements are skipped.
    pub fn iter(&self) -> (it: ShiftArrayIterator<T>)
        ensures
            it.lst@ == self.lst@,
            it.current == self.start,
    {
        let mut copied: Vec<T> = Vec::new();
        let mut i: usize = 0;
        while i < self.lst.len()
            invariant
                i <= self.lst@.len(),
                copied@ == self.lst@.take(i as int),
            decreases self.lst@.len() - i,
        {
            copied.push(self.lst[i]);
            proof {
                assert(copied@ =~= self.lst@.take(i + 1));
            }
            i = i + 1;
        }
        proof {
            assert(copied@ =~= self.lst@);
        }
        ShiftArrayIterator { lst: copied, current: self.start }
    }
}

/// Iterator over a [`ShiftArray`]: walks the backing vector from the
/// position equal to the array's start.
pub struct ShiftArrayIterator<T> {
    /// A copy of the backing elements.
    pub lst: Vec<T>,
    /// Position of the next element to yield.
    pub current: usize,
}

impl<T: Copy> ShiftArrayIterator<T> {
    /// Yield the element at the current position, if any remains.
    pub fn next(&mut self) -> (r: Option<T>)
        ensures
            final(self).lst == old(self).lst,
            old(self).current < old(self).lst@.len() ==> r == Some(
                old(self).lst@[old(self).current as int],
            ) && final(self).current == old(self).current + 1,
            old(self).current >= old(self).lst@.len() ==> r == None::<T> && final(self).current
                == old(self).current,
    {
        if self.current < self.lst.len() {
            let value = self.lst[self.current];
            self.current = self.current + 1;
            Some(value)
        } else {
            None
        }
    }
}

} // verus!
