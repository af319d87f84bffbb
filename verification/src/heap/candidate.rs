//! A min-heap that hands out the smallest entry first.

use crate::heap::binary;
use crate::heap::order;
use crate::single::Single;
use vstd::multiset::Multiset;
use vstd::prelude::*;

verus! {

/// Entries waiting to be taken, the smallest first.
#[derive(Debug)]
pub struct CandidateHeap {
    entries: Vec<(Single, i32)>,
}

impl View for CandidateHeap {
    type V = Multiset<(Single, i32)>;

    closed spec fn view(&self) -> Multiset<(Single, i32)> {
        self.entries@.to_multiset()
    }
}

impl CandidateHeap {
    /// The entries are a heap.
    pub closed spec fn wf(&self) -> bool {
        binary::is_heap(self.entries@, true)
    }

    /// Create an empty heap with room for `capacity` entries before it grows.
    pub fn with_capacity(capacity: usize) -> (r: CandidateHeap)
        ensures
            r.wf(),
            r@ == Multiset::<(Single, i32)>::empty(),
    {
        let r = CandidateHeap { entries: Vec::with_capacity(capacity) };
        proof {
            r.entries@.to_multiset_ensures();
            assert(r.entries@.to_multiset() =~= Multiset::empty());
        }
        r
    }

    /// Put an entry in.
    pub fn push(&mut self, distance: Single, index: i32)
        requires
            old(self).wf(),
        ensures
            final(self).wf(),
            final(self)@ == old(self)@.insert((distance, index)),
    {
        binary::insert(&mut self.entries, (distance, index), true);
    }

    /// Take the smallest entry out.
    pub fn pop(&mut self) -> (r: Option<(Single, i32)>)
        requires
            old(self).wf(),
        ensures
            final(self).wf(),
            old(self)@.len() == 0 ==> r is None && final(self)@ == old(self)@,
            old(self)@.len() > 0 ==> r == Some(order::first(old(self)@)) && final(self)@ == old(
                self,
            )@.remove(order::first(old(self)@)) && old(self)@.contains(order::first(old(self)@)),
    {
        proof {
            self.entries@.to_multiset_ensures();
        }
        if self.entries.len() == 0 {
            return None;
        }
        proof {
            binary::top_is_extreme(self.entries@, true);
        }
        Some(binary::take_top(&mut self.entries, true))
    }

    /// The number of entries.
    pub fn len(&self) -> (n: usize)
        ensures
            n == self@.len(),
    {
        proof {
            self.entries@.to_multiset_ensures();
        }
        self.entries.len()
    }

    /// Drop all entries.
    pub fn clear(&mut self)
        ensures
            final(self).wf(),
            final(self)@ == Multiset::<(Single, i32)>::empty(),
    {
        self.entries.clear();
        proof {
            self.entries@.to_multiset_ensures();
            assert(self.entries@.to_multiset() =~= Multiset::empty());
        }
    }
}

impl Clone for CandidateHeap {
    fn clone(&self) -> (r: CandidateHeap)
        ensures
            r@ == self@,
            r.wf() == self.wf(),
    {
        let mut entries: Vec<(Single, i32)> = Vec::new();
        let mut i: usize = 0;
        while i < self.entries.len()
            invariant
                i <= self.entries@.len(),
                entries@ == self.entries@.take(i as int),
            decreases self.entries@.len() - i,
        {
            entries.push(self.entries[i]);
            i = i + 1;
            assert(entries@ =~= self.entries@.take(i as int));
        }
        assert(entries@ =~= self.entries@);
        CandidateHeap { entries }
    }
}

} // verus!
