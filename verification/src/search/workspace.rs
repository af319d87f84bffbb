//! Reusable state for greedy graph search.

use crate::heap::{BoundedHeap, CandidateHeap};
use crate::search::model;
use crate::single::Single;
use crate::visited::VisitedSet;
use vstd::multiset::Multiset;
use vstd::prelude::*;
use vstd::slice::slice_to_vec;

verus! {

/// The largest number of seeds that room is reserved for.
const MAX_RESERVED: usize = 0x10_0000;

/// Reusable state for greedy graph search.
///
/// Reusing this across repeated queries avoids allocating and initializing visited sets and heaps
/// on every call. What a search returns does not depend on what the workspace was used for.
#[derive(Debug)]
pub struct SearchWorkspace {
    pub(crate) visited: VisitedSet,
    pub(crate) result_heap: BoundedHeap,
    pub(crate) seed_set: CandidateHeap,
    pub(crate) tree_frontier: Vec<(Single, usize)>,
    pub(crate) tree_leaves: Vec<(usize, usize)>,
    pub(crate) k: usize,
}

impl SearchWorkspace {
    /// The visited set and the heaps are well-formed.
    pub closed spec fn wf(&self) -> bool {
        &&& self.visited.wf()
        &&& self.result_heap.wf()
        &&& self.seed_set.wf()
        &&& self.result_heap.bound() == self.k
    }

    /// The number of points that it is sized for.
    pub closed spec fn points(&self) -> usize {
        self.visited.n_elements
    }

    /// The number of results that it is sized for.
    pub closed spec fn results(&self) -> usize {
        self.k
    }

    /// The points that the latest search has visited.
    pub closed spec fn seen(&self) -> Set<int> {
        self.visited@
    }

    /// The results that the latest search has found.
    pub closed spec fn found(&self) -> Multiset<(Single, i32)> {
        self.result_heap@
    }

    /// The seeds that the latest search has left.
    pub closed spec fn seeds(&self) -> Multiset<(Single, i32)> {
        self.seed_set@
    }

    /// The nodes and the leaves that the latest routing through a tree has noted.
    pub closed spec fn routing(&self) -> (Seq<(Single, usize)>, Seq<(usize, usize)>) {
        (self.tree_frontier@, self.tree_leaves@)
    }

    /// The workspace is sized for `n` points and `k` results, and shows what a search among them
    /// has come to.
    pub open spec fn shows(&self, n: usize, k: usize, p: model::Progress) -> bool {
        &&& self.wf()
        &&& self.points() == n
        &&& self.results() == k
        &&& self.seen() == p.visited
        &&& self.found() == p.found
        &&& self.seeds() == p.seeds
    }

    /// The workspace is for `n` points and `k` results, and holds a search's progress.
    pub(crate) open spec fn holds(&self, n: usize, k: usize, p: model::Progress) -> bool {
        &&& self.visited.wf()
        &&& self.result_heap.wf()
        &&& self.seed_set.wf()
        &&& self.result_heap.bound() == k
        &&& self.visited.n_elements == n
        &&& self.k == k
        &&& self.visited@ == p.visited
        &&& self.result_heap@ == p.found
        &&& self.seed_set@ == p.seeds
    }

    /// A workspace that holds a search's progress shows it.
    pub(crate) proof fn holding_shows(&self, n: usize, k: usize, p: model::Progress)
        requires
            self.holds(n, k, p),
        ensures
            self.shows(n, k, p),
    {
    }

    /// Create a workspace sized for `n_points` and `k`, in which no search has begun.
    pub fn new(n_points: usize, k: usize) -> (r: SearchWorkspace)
        ensures
            r.shows(n_points, k, model::begun()),
            r.routing() == (Seq::<(Single, usize)>::empty(), Seq::<(usize, usize)>::empty()),
    {
        // Room for four seeds per result; more is made as it is needed.
        let room: usize = if k < 8 {
            32
        } else if k < MAX_RESERVED / 4 {
            k * 4
        } else {
            MAX_RESERVED
        };
        SearchWorkspace {
            visited: VisitedSet::new(n_points),
            result_heap: BoundedHeap::new(k),
            seed_set: CandidateHeap::with_capacity(room),
            tree_frontier: Vec::with_capacity(32),
            tree_leaves: Vec::with_capacity(8),
            k,
        }
    }

    /// Make the workspace ready for a new search.
    pub(crate) fn reset(&mut self, n_points: usize, k: usize)
        requires
            old(self).wf(),
        ensures
            final(self).holds(n_points, k, model::begun()),
    {
        if self.visited.capacity() == n_points {
            self.visited.clear();
        } else {
            self.visited = VisitedSet::new(n_points);
        }
        if self.k == k {
            self.result_heap.clear();
        } else {
            self.result_heap = BoundedHeap::new(k);
            self.k = k;
        }
        self.seed_set.clear();
    }
}

impl Clone for SearchWorkspace {
    fn clone(&self) -> (r: SearchWorkspace)
        ensures
            r.points() == self.points(),
            r.results() == self.results(),
            r.found() == self.found(),
            r.seeds() == self.seeds(),
            r.routing() == self.routing(),
            self.wf() ==> r.wf() && r.seen() == self.seen(),
    {
        SearchWorkspace {
            visited: self.visited.clone(),
            result_heap: self.result_heap.clone(),
            seed_set: self.seed_set.clone(),
            tree_frontier: slice_to_vec(self.tree_frontier.as_slice()),
            tree_leaves: slice_to_vec(self.tree_leaves.as_slice()),
            k: self.k,
        }
    }
}

} // verus!
