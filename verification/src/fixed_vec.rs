//! A fixed-capacity stack of per-level counters.
//!
//! Unused slots always hold zero, so pushing simply exposes the next slot as
//! a fresh zero counter and popping re-zeroes the slot it frees.

use vstd::prelude::*;

verus! {

/// A stack of at most `N` counters, stored in place.
pub struct FixedVec<const N: usize> {
    data: [u32; N],
    size: usize,
}

impl<const N: usize> FixedVec<N> {
    /// The counters currently in use, shallowest level first.
    pub closed spec fn entries(&self) -> Seq<u32> {
        self.data@.take(self.size as int)
    }

    /// Every slot beyond the used prefix holds zero.
    pub closed spec fn wf(&self) -> bool {
        &&& self.size <= N
        &&& forall|i: int| self.size <= i < N ==> self.data@[i] == 0u32
    }

    /// Exposes the next slot as a fresh zero counter.
    pub fn push(&mut self)
        requires
            old(self).wf(),
            old(self).entries().len() < N,
        ensures
            final(self).wf(),
            final(self).entries() == old(self).entries().push(0u32),
    {
        self.size = self.size + 1;
        proof {
            assert(self.entries() =~= old(self).entries().push(0u32));
        }
    }

    /// Bumps the counter at `level` by one.
    pub fn increment_at(&mut self, level: usize)
        requires
            old(self).wf(),
            level < old(self).entries().len(),
            old(self).entries()[level as int] < u32::MAX,
        ensures
            final(self).wf(),
            final(self).entries() == old(self).entries().update(
                level as int,
                (old(self).entries()[level as int] + 1) as u32,
            ),
    {
        let bumped: u32 = self.data[level] + 1;
        self.data[level] = bumped;
        proof {
            assert(self.entries() =~= old(self).entries().update(
                level as int,
                (old(self).entries()[level as int] + 1) as u32,
            ));
        }
    }

    /// How many levels are in use.
    pub fn len(&self) -> (r: usize)
        requires
            self.wf(),
        ensures
            r == self.entries().len(),
    {
        self.size
    }

    /// Whether no level is in use.
    pub fn is_empty(&self) -> (r: bool)
        requires
            self.wf(),
        ensures
            r == (self.entries().len() == 0),
    {
        self.len() == 0
    }

    /// Drops the deepest counter, re-zeroing its slot.
    pub fn pop(&mut self)
        requires
            old(self).wf(),
            old(self).entries().len() > 0,
        ensures
            final(self).wf(),
            final(self).entries() == old(self).entries().drop_last(),
    {
        self.size = self.size - 1;
        self.data[self.size] = 0;
        proof {
            assert(self.entries() =~= old(self).entries().drop_last());
        }
    }

    /// Drops every counter.
    pub fn clear(&mut self)
        requires
            old(self).wf(),
        ensures
            final(self).wf(),
            final(self).entries() == Seq::<u32>::empty(),
    {
        while !self.is_empty()
            invariant
                self.wf(),
            decreases self.entries().len(),
        {
            self.pop()
        }
        proof {
            assert(self.entries() =~= Seq::<u32>::empty());
        }
    }

    /// The counter at `index`.
    pub fn get(&self, index: usize) -> (r: u32)
        requires
            self.wf(),
            index < self.entries().len(),
        ensures
            r == self.entries()[index as int],
    {
        self.data[index]
    }

    /// Whether the first `index` counters of both stacks agree.
    pub fn coincides_till(&self, other: &Self, index: usize) -> (r: bool)
        requires
            self.wf(),
            other.wf(),
            index <= self.entries().len(),
            index <= other.entries().len(),
        ensures
            r == (self.entries().take(index as int) == other.entries().take(index as int)),
    {
        let mut i: usize = 0;
        while i < index
            invariant
                self.wf(),
                other.wf(),
                i <= index,
                index <= self.entries().len(),
                index <= other.entries().len(),
                forall|j: int| 0 <= j < i ==> self.entries()[j] == other.entries()[j],
            decreases index - i,
        {
            if self.data[i] != other.data[i] {
                proof {
                    assert(self.entries().take(index as int)[i as int]
                        != other.entries().take(index as int)[i as int]);
                }
                return false;
            }
            i = i + 1;
        }
        proof {
            assert(self.entries().take(index as int) =~= other.entries().take(index as int));
        }
        true
    }
}

impl<const N: usize> Default for FixedVec<N> {
    /// An empty stack: no level in use, every slot zero.
    fn default() -> (r: Self)
        ensures
            r.wf(),
            r.entries() == Seq::<u32>::empty(),
    {
        let r = FixedVec { data: [0u32; N], size: 0 };
        proof {
            assert(r.entries() =~= Seq::<u32>::empty());
        }
        r
    }
}

} // verus!
