//! Epoch-stamped visited set for efficient tracking during graph search.

use vstd::prelude::*;

verus! {

/// A dense epoch-stamped set for tracking visited nodes during search.
///
/// Clearing normally increments the current epoch instead of writing the full allocation. The
/// backing storage is reset only when the `u16` epoch wraps.
#[derive(Debug)]
pub struct VisitedSet {
    /// The epoch in which each index was last marked.
    pub epochs: Vec<u16>,
    /// The current epoch.
    pub epoch: u16,
    /// How many indices can be tracked.
    pub n_elements: usize,
}

impl View for VisitedSet {
    type V = Set<int>;

    /// The indices that are marked in the current epoch.
    open spec fn view(&self) -> Set<int> {
        Set::new(|i: int| 0 <= i < self.epochs@.len() && self.epochs@[i] == self.epoch)
    }
}

impl VisitedSet {
    /// Every stamp was made in the current epoch or an earlier one, and none is later.
    pub open spec fn wf(&self) -> bool {
        &&& self.epochs@.len() == self.n_elements
        &&& self.epoch >= 1
        &&& forall|i: int| 0 <= i < self.epochs@.len() ==> #[trigger] self.epochs@[i] <= self.epoch
    }

    /// Create a new visited set that can track `n` elements.
    pub fn new(n: usize) -> (r: VisitedSet)
        ensures
            r.wf(),
            r.n_elements == n,
            r@ == Set::<int>::empty(),
    {
        let epochs: Vec<u16> = vec![0u16; n];
        let r = VisitedSet { epochs, epoch: 1, n_elements: n };
        assert(r@ =~= Set::<int>::empty());
        r
    }

    /// Check if an index has been visited.
    pub fn is_visited(&self, idx: i32) -> (r: bool)
        requires
            self.wf(),
            0 <= idx < self.n_elements,
        ensures
            r == self@.contains(idx as int),
    {
        self.epochs[idx as usize] == self.epoch
    }

    /// Mark an index as visited.
    pub fn mark(&mut self, idx: i32)
        requires
            old(self).wf(),
            0 <= idx < old(self).n_elements,
        ensures
            final(self).wf(),
            final(self).n_elements == old(self).n_elements,
            final(self)@ == old(self)@.insert(idx as int),
    {
        self.epochs[idx as usize] = self.epoch;
        assert(self@ =~= old(self)@.insert(idx as int));
    }

    /// Check if visited and mark in one operation.
    /// Returns `true` if the index was already visited, `false` otherwise.
    pub fn check_and_mark(&mut self, idx: i32) -> (r: bool)
        requires
            old(self).wf(),
            0 <= idx < old(self).n_elements,
        ensures
            final(self).wf(),
            final(self).n_elements == old(self).n_elements,
            final(self)@ == old(self)@.insert(idx as int),
            r == old(self)@.contains(idx as int),
    {
        let was_visited = self.epochs[idx as usize] == self.epoch;
        self.epochs[idx as usize] = self.epoch;
        assert(self@ =~= old(self)@.insert(idx as int));
        was_visited
    }

    /// Start a new empty generation in constant time except on epoch overflow.
    pub fn clear(&mut self)
        requires
            old(self).wf(),
        ensures
            final(self).wf(),
            final(self).n_elements == old(self).n_elements,
            final(self)@ == Set::<int>::empty(),
            old(self).epoch < u16::MAX ==> final(self).epochs@ == old(self).epochs@
                && final(self).epoch == old(self).epoch + 1,
            old(self).epoch == u16::MAX ==> final(self).epoch == 1 && forall|i: int|
                0 <= i < final(self).epochs@.len() ==> #[trigger] final(self).epochs@[i] == 0,
    {
        self.epoch = self.epoch.wrapping_add(1);
        if self.epoch == 0 {
            let mut i: usize = 0;
            while i < self.epochs.len()
                invariant
                    i <= self.epochs@.len(),
                    self.epochs@.len() == old(self).epochs@.len(),
                    self.n_elements == old(self).n_elements,
                    forall|j: int| 0 <= j < i ==> #[trigger] self.epochs@[j] == 0,
                decreases self.epochs@.len() - i,
            {
                self.epochs[i] = 0;
                i = i + 1;
            }
            self.epoch = 1;
        }
        assert(self@ =~= Set::<int>::empty());
    }

    /// Get the number of elements this set can track.
    pub fn capacity(&self) -> (r: usize)
        ensures
            r == self.n_elements,
    {
        self.n_elements
    }
}

impl Clone for VisitedSet {
    fn clone(&self) -> (r: VisitedSet)
        ensures
            r.epochs@ == self.epochs@,
            r.epoch == self.epoch,
            r.n_elements == self.n_elements,
            self.wf() ==> r.wf() && r@ == self@,
    {
        let epochs = self.epochs.clone();
        assert(epochs@ =~= self.epochs@);
        let r = VisitedSet { epochs, epoch: self.epoch, n_elements: self.n_elements };
        assert(r@ =~= self@);
        r
    }
}

} // verus!
