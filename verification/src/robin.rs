//! Round-robin enumerator: a fixed cycle over the parts `0..num_parts`,
//! iterated from any part back around to itself, excluding that part.

use vstd::prelude::*;

verus! {

/// A cyclic successor table over `0..cycle.len()`: entry `i` holds
/// `(i + 1) % len`.
pub struct Robin {
    /// Successor of each part.
    pub cycle: Vec<u8>,
}

impl Robin {
    /// The table is the full cycle over its parts.
    pub open spec fn wf(self) -> bool {
        &&& 1 <= self.cycle@.len() <= 255
        &&& forall|i: int|
            0 <= i < self.cycle@.len() ==> #[trigger] self.cycle@[i] == (i + 1) % (
            self.cycle@.len() as int)
    }

    /// Build the cycle over `num_parts` parts.
    pub fn new(num_parts: u8) -> (r: Robin)
        requires
            num_parts >= 1,
        ensures
            r.wf(),
            r.cycle@.len() == num_parts,
    {
        let mut cycle: Vec<u8> = Vec::new();
        let mut k: u8 = 0;
        while k < num_parts
            invariant
                k <= num_parts,
                cycle@.len() == k,
                forall|i: int| 0 <= i < k ==> #[trigger] cycle@[i] == i + 1,
            decreases num_parts - k,
        {
            k = k + 1;
            cycle.push(k);
        }
        cycle.set((num_parts - 1) as usize, 0);
        proof {
            let n = cycle@.len() as int;
            assert forall|i: int| 0 <= i < n implies #[trigger] cycle@[i] == (i + 1) % n by {
                if i < n - 1 {
                    assert((i + 1) % n == i + 1) by (nonlinear_arith)
                        requires
                            0 <= i && i + 1 < n,
                    ;
                } else {
                    assert(n % n == 0) by (nonlinear_arith)
                        requires
                            n > 0,
                    ;
                }
            }
        }
        Robin { cycle }
    }

    /// Iterate all parts except `from_part`, starting at its successor.
    pub fn exclude(&self, from_part: u8) -> (it: RobinIterator)
        requires
            self.wf(),
            (from_part as int) < self.cycle@.len(),
        ensures
            it.cycle@ == self.cycle@,
            it.cur == from_part,
            it.stop == from_part,
    {
        let mut copied: Vec<u8> = Vec::new();
        let mut i: usize = 0;
        while i < self.cycle.len()
            invariant
                i <= self.cycle@.len(),
                copied@ == self.cycle@.take(i as int),
            decreases self.cycle@.len() - i,
        {
            copied.push(self.cycle[i]);
            proof {
                assert(copied@ =~= self.cycle@.take(i + 1));
            }
            i = i + 1;
        }
        proof {
            assert(copied@ =~= self.cycle@);
        }
        RobinIterator { cycle: copied, cur: from_part, stop: from_part }
    }
}

/// Iterator over the parts of a [`Robin`] cycle, stopping when it comes
/// back around to the part it was started from.
pub struct RobinIterator {
    /// A copy of the successor table.
    pub cycle: Vec<u8>,
    /// The part most recently yielded (or the start part).
    pub cur: u8,
    /// The part at which the walk stops.
    pub stop: u8,
}

impl RobinIterator {
    /// The iterator walks a full cycle within bounds.
    pub open spec fn wf(self) -> bool {
        &&& 1 <= self.cycle@.len() <= 255
        &&& forall|i: int|
            0 <= i < self.cycle@.len() ==> #[trigger] self.cycle@[i] == (i + 1) % (
            self.cycle@.len() as int)
        &&& (self.cur as int) < self.cycle@.len()
        &&& (self.stop as int) < self.cycle@.len()
    }

    /// Step to the successor part; `None` once the stop part is reached.
    pub fn next(&mut self) -> (r: Option<u8>)
        requires
            old(self).wf(),
        ensures
            final(self).wf(),
            final(self).cycle == old(self).cycle,
            final(self).stop == old(self).stop,
            (old(self).cur + 1) % (old(self).cycle@.len() as int) == old(self).stop ==> r
                == None::<u8> && final(self).cur == old(self).cur,
            (old(self).cur + 1) % (old(self).cycle@.len() as int) != old(self).stop ==> r == Some(
                final(self).cur,
            ) && final(self).cur == (old(self).cur + 1) % (old(self).cycle@.len() as int),
    {
        let next = self.cycle[self.cur as usize];
        if next == self.stop {
            None
        } else {
            self.cur = next;
            Some(self.cur)
        }
    }
}

} // verus!
