//! A fixed-capacity FIFO that never grows: once full, each push evicts the
//! oldest entry.  Event streams are written into it once per tick.
use vstd::prelude::*;
use std::collections::VecDeque;

verus! {

/// The last `cap` entries of `s` (all of `s` when it is shorter).
pub open spec fn newest<T>(s: Seq<T>, cap: nat) -> Seq<T> {
    if s.len() <= cap {
        s
    } else {
        s.subrange(s.len() - cap, s.len() as int)
    }
}

pub struct BoundedQueue<T> {
    vals: VecDeque<T>,
    cap: usize,
}

impl<T> BoundedQueue<T> {
    /// Entries from oldest to newest.
    pub closed spec fn view(&self) -> Seq<T> {
        self.vals@
    }

    pub closed spec fn spec_capacity(&self) -> nat {
        self.cap as nat
    }

    pub open spec fn wf(&self) -> bool {
        self@.len() <= self.spec_capacity()
    }

    /// An empty queue that holds at most `size` entries.
    pub fn new(size: usize) -> (r: Self)
        ensures
            r.wf(),
            r@ == Seq::<T>::empty(),
            r.spec_capacity() == size,
    {
        BoundedQueue { vals: VecDeque::with_capacity(size), cap: size }
    }

    pub fn len(&self) -> (r: usize)
        ensures
            r == self@.len(),
    {
        self.vals.len()
    }

    pub fn is_empty(&self) -> (r: bool)
        ensures
            r == (self@.len() == 0),
    {
        self.vals.len() == 0
    }

    pub fn is_full(&self) -> (r: bool)
        ensures
            r == (self@.len() == self.spec_capacity()),
    {
        self.vals.len() == self.cap
    }

    pub fn capacity(&self) -> (r: usize)
        ensures
            r == self.spec_capacity(),
    {
        self.cap
    }

    /// Appends `val` as the newest entry.  When the queue is full the
    /// oldest entry is evicted and returned; a queue of capacity zero hands
    /// `val` straight back.
    pub fn push(&mut self, val: T) -> (r: Option<T>)
        requires
            old(self).wf(),
        ensures
            final(self).wf(),
            final(self).spec_capacity() == old(self).spec_capacity(),
            old(self).spec_capacity() == 0 ==> r == Some(val) && final(self)@ == old(self)@,
            0 < old(self)@.len() == old(self).spec_capacity() ==> r == Some(old(self)@[0])
                && final(self)@ == old(self)@.subrange(1, old(self)@.len() as int).push(val),
            old(self)@.len() < old(self).spec_capacity() ==> r is None && final(self)@ == old(self)@.push(val),
    {
        if self.cap == 0 {
            return Some(val);
        }
        if self.vals.len() == self.cap {
            let oldest = self.vals.pop_front();
            self.vals.push_back(val);
            oldest
        } else {
            self.vals.push_back(val);
            None
        }
    }

    /// Pushes every value of `vals` in order; what stays is the newest
    /// `capacity` entries of the old contents followed by `vals`.
    pub fn push_all(&mut self, vals: &Vec<T>)
        where
            T: Copy,
        requires
            old(self).wf(),
        ensures
            final(self).wf(),
            final(self).spec_capacity() == old(self).spec_capacity(),
            final(self)@ == newest(old(self)@ + vals@, old(self).spec_capacity()),
    {
        let mut i: usize = 0;
        while i < vals.len()
            invariant
                self.wf(),
                self.spec_capacity() == old(self).spec_capacity(),
                i <= vals@.len(),
                self@ == newest(old(self)@ + vals@.take(i as int), old(self).spec_capacity()),
            decreases vals@.len() - i,
        {
            let ghost before = self@;
            let v = vals[i];
            self.push(v);
            proof {
                let all = old(self)@ + vals@.take(i as int);
                let all2 = old(self)@ + vals@.take(i + 1);
                assert(all2 == all.push(v));
                assert(self@ =~= newest(all2, self.spec_capacity()));
            }
            i = i + 1;
        }
        proof {
            assert(vals@.take(vals@.len() as int) == vals@);
        }
    }

    /// Removes and returns the oldest entry.
    pub fn pop(&mut self) -> (r: Option<T>)
        requires
            old(self).wf(),
        ensures
            final(self).wf(),
            final(self).spec_capacity() == old(self).spec_capacity(),
            old(self)@.len() == 0 ==> r is None && final(self)@ == old(self)@,
            old(self)@.len() > 0 ==> r == Some(old(self)@[0]) && final(self)@ == old(self)@.subrange(
                1,
                old(self)@.len() as int,
            ),
    {
        self.vals.pop_front()
    }

    /// The oldest entry, left in place.
    pub fn peek(&self) -> (r: Option<&T>)
        ensures
            self@.len() == 0 ==> r is None,
            self@.len() > 0 ==> r == Some(&self@[0]),
    {
        if self.vals.len() == 0 {
            None
        } else {
            Some(&self.vals[0])
        }
    }
}

} // verus!
