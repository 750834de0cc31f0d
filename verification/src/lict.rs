//! A list-backed dictionary: a map whose keys are the indices `0..len`.

use vstd::prelude::*;

verus! {

/// A dictionary over the fixed key range `0..lst.len()`, stored as a plain
/// vector of values.
pub struct Lict<T> {
    /// The values, indexed by key.
    pub lst: Vec<T>,
}

impl<T> Lict<T> {
    /// Wrap a vector of values.
    pub fn new(lst: Vec<T>) -> (s: Lict<T>)
        ensures
            s.lst == lst,
    {
        Lict { lst }
    }

    /// The value under `key`, or `None` for a key outside the range.
    pub fn get(&self, key: usize) -> (r: Option<&T>)
        ensures
            key < self.lst@.len() ==> r == Some(&self.lst@[key as int]),
            key >= self.lst@.len() ==> r == None::<&T>,
    {
        if key < self.lst.len() {
            Some(&self.lst[key])
        } else {
            None
        }
    }

    /// Replace the value under `key`; a key outside the range is ignored.
    pub fn set(&mut self, key: usize, new_value: T)
        ensures
            key < old(self).lst@.len() ==> final(self).lst@ == old(self).lst@.update(
                key as int,
                new_value,
            ),
            key >= old(self).lst@.len() ==> *final(self) == *old(self),
    {
        if key < self.lst.len() {
            self.lst.set(key, new_value);
        }
    }

    /// Number of keys.
    pub fn len(&self) -> (n: usize)
        ensures
            n == self.lst@.len(),
    {
        self.lst.len()
    }

    /// Whether the dictionary holds no value.
    pub fn is_empty(&self) -> (r: bool)
        ensures
            r == (self.lst@.len() == 0),
    {
        self.lst.len() == 0
    }

    /// Whether `key` lies in the key range.
    pub fn contains(&self, key: usize) -> (r: bool)
        ensures
            r == (key < self.lst@.len()),
    {
        key < self.lst.len()
    }
}

impl<T: Copy> Lict<T> {
    /// All values, in key order.
    pub fn values(&self) -> (r: Vec<T>)
        ensures
            r@ == self.lst@,
    {
        let mut r: Vec<T> = Vec::new();
        let mut i: usize = 0;
        while i < self.lst.len()
            invariant
                i <= self.lst@.len(),
                r@ == self.lst@.take(i as int),
            decreases self.lst@.len() - i,
        {
            r.push(self.lst[i]);
            proof {
                assert(r@ =~= self.lst@.take(i + 1));
            }
            i = i + 1;
        }
        proof {
            assert(r@ =~= self.lst@);
        }
        r
    }

    /// All key-value pairs, in key order.
    pub fn items(&self) -> (r: Vec<(usize, T)>)
        ensures
            r@.len() == self.lst@.len(),
            forall|i: int| 0 <= i < r@.len() ==> #[trigger] r@[i] == (i as usize, self.lst@[i]),
    {
        let mut r: Vec<(usize, T)> = Vec::new();
        let mut i: usize = 0;
        while i < self.lst.len()
            invariant
                i <= self.lst@.len(),
                r@.len() == i,
                forall|j: int| 0 <= j < i ==> #[trigger] r@[j] == (j as usize, self.lst@[j]),
            decreases self.lst@.len() - i,
        {
            r.push((i, self.lst[i]));
            i = i + 1;
        }
        r
    }
}

} // verus!
