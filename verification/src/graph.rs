//! The search graph in compressed sparse row form.

use crate::layout;
use crate::layout::{inversion_is_mutual, row_of};
use crate::single::Single;
use vstd::prelude::*;
use vstd::slice::slice_subrange;

verus! {

/// A directed graph: the neighbors of vertex `v` are `indices[indptr[v]..indptr[v + 1]]`.
#[derive(Debug)]
pub struct SearchGraph {
    /// Where each vertex's neighbors start, and where the last one's end.
    pub indptr: Vec<i32>,
    /// The neighbors of all vertices; a negative entry is a placeholder.
    pub indices: Vec<i32>,
    /// Number of vertices.
    pub n_vertices: usize,
}

/// The entries that are no placeholder.
pub open spec fn proper(entries: Seq<i32>) -> Seq<i32> {
    entries.filter(|v: i32| v >= 0)
}

/// A neighbor's name after each vertex `v` has moved to `position[v]`; a placeholder stays.
pub open spec fn renamed(v: i32, position: Seq<usize>) -> i32 {
    if v < 0 {
        v
    } else {
        position[v as int] as i32
    }
}

/// The number of entries in the rows of the vertices that `order` lists.
spec fn taken(g: SearchGraph, order: Seq<usize>) -> int
    decreases order.len(),
{
    if order.len() == 0 {
        0
    } else {
        taken(g, order.drop_last()) + (g.indptr@[order.last() + 1] - g.indptr@[order.last() as int])
    }
}

proof fn taken_without(g: SearchGraph, order: Seq<usize>, i: int)
    requires
        0 <= i < order.len(),
    ensures
        taken(g, order) == taken(g, order.remove(i)) + (g.indptr@[order[i] + 1]
            - g.indptr@[order[i] as int]),
    decreases order.len(),
{
    if i < order.len() - 1 {
        taken_without(g, order.drop_last(), i);
        assert(order.remove(i).drop_last() =~= order.drop_last().remove(i));
    } else {
        assert(order.remove(i) =~= order.drop_last());
    }
}

proof fn taken_grows(g: SearchGraph, order: Seq<usize>, i: int)
    requires
        g.wf(),
        0 <= i <= order.len(),
        forall|j: int| 0 <= j < order.len() ==> #[trigger] order[j] < g.n_vertices,
    ensures
        taken(g, order.take(i)) <= taken(g, order),
    decreases order.len() - i,
{
    if i < order.len() {
        taken_grows(g, order, i + 1);
        assert(order.take(i + 1).drop_last() =~= order.take(i));
        assert(g.indptr@[order[i] as int] <= g.indptr@[order[i] + 1]);
    } else {
        assert(order.take(i) =~= order);
    }
}

/// A permutation of the first vertices takes all of their entries.
proof fn taken_is_all(g: SearchGraph, order: Seq<usize>, n: int)
    requires
        g.wf(),
        0 <= n <= g.n_vertices,
        layout::is_permutation(order, n),
    ensures
        taken(g, order) == g.indptr@[n],
    decreases n,
{
    if n > 0 {
        layout::permutation_is_onto(order, n, n - 1);
        let i = choose|i: int| 0 <= i < n && #[trigger] order[i] == n - 1;
        let rest = order.remove(i);
        assert forall|j: int| 0 <= j < n - 1 implies #[trigger] rest[j] < n - 1 by {
            let at = if j < i { j } else { j + 1 };
            assert(rest[j] == order[at]);
            assert(order[at] != order[i]);
        }
        assert forall|j: int, l: int| 0 <= j < l < n - 1 implies #[trigger] rest[j]
            != #[trigger] rest[l] by {
            let a = if j < i { j } else { j + 1 };
            let b = if l < i { l } else { l + 1 };
            assert(rest[j] == order[a]);
            assert(rest[l] == order[b]);
        }
        taken_is_all(g, rest, n - 1);
        taken_without(g, order, i);
    }
}

impl SearchGraph {
    /// The row pointers delimit the entries, and no entry exceeds the vertices.
    pub open spec fn wf(&self) -> bool {
        &&& self.n_vertices <= i32::MAX
        &&& self.indptr@.len() == self.n_vertices + 1
        &&& self.indptr@[0] == 0
        &&& self.indptr@[self.n_vertices as int] == self.indices@.len()
        &&& forall|i: int, j: int|
            0 <= i <= j <= self.n_vertices ==> #[trigger] self.indptr@[i]
                <= #[trigger] self.indptr@[j]
        &&& forall|i: int| 0 <= i < self.indices@.len() ==> #[trigger] self.indices@[i]
            < self.n_vertices
    }

    /// The neighbors of a vertex.
    pub open spec fn row(&self, v: int) -> Seq<i32> {
        self.indices@.subrange(self.indptr@[v] as int, self.indptr@[v + 1] as int)
    }

    /// `self` is `base` with vertex `order[i]` moved to position `i`.
    pub open spec fn reorders(&self, base: SearchGraph, order: Seq<usize>) -> bool {
        &&& self.n_vertices == base.n_vertices
        &&& forall|position: Seq<usize>| #[trigger]
            layout::inverts(position, order) ==> forall|i: int|
                0 <= i < self.n_vertices ==> #[trigger] self.row(i) == base.row(
                    order[i] as int,
                ).map_values(|v: i32| renamed(v, position))
    }

    /// The neighbors of a vertex.
    pub fn neighbors(&self, v: usize) -> (r: &[i32])
        requires
            self.wf(),
            v < self.n_vertices,
        ensures
            r@ == self.row(v as int),
            forall|i: int| 0 <= i < r@.len() ==> #[trigger] r@[i] < self.n_vertices,
    {
        let start: usize = self.indptr[v] as usize;
        let end: usize = self.indptr[v + 1] as usize;
        slice_subrange(self.indices.as_slice(), start, end)
    }

    /// Build a graph from `k` neighbor entries per vertex; placeholders are left out.
    pub fn from_dense(neighbors: &[i32], n_vertices: usize, k: usize) -> (r: SearchGraph)
        requires
            n_vertices <= i32::MAX,
            neighbors@.len() == n_vertices * k,
            neighbors@.len() <= i32::MAX,
            forall|e: int| 0 <= e < neighbors@.len() ==> #[trigger] neighbors@[e] < n_vertices,
        ensures
            r.wf(),
            r.n_vertices == n_vertices,
            forall|v: int|
                0 <= v < n_vertices ==> #[trigger] r.row(v) == proper(
                    layout::row(neighbors@, k as int, v),
                ),
    {
        let mut indptr: Vec<i32> = vec![0];
        let mut indices: Vec<i32> = Vec::new();
        let mut v: usize = 0;
        while v < n_vertices
            invariant
                v <= n_vertices,
                n_vertices <= i32::MAX,
                neighbors@.len() == n_vertices * k,
                neighbors@.len() <= i32::MAX,
                forall|e: int| 0 <= e < neighbors@.len() ==> #[trigger] neighbors@[e] < n_vertices,
                indptr@.len() == v + 1,
                indptr@[0] == 0,
                indptr@[v as int] == indices@.len(),
                indices@.len() <= v * k,
                forall|i: int, j: int|
                    0 <= i <= j <= v ==> #[trigger] indptr@[i] <= #[trigger] indptr@[j],
                forall|i: int| 0 <= i < indices@.len() ==> #[trigger] indices@[i] < n_vertices,
                forall|u: int|
                    0 <= u < v ==> #[trigger] indices@.subrange(
                        indptr@[u] as int,
                        indptr@[u + 1] as int,
                    ) == proper(layout::row(neighbors@, k as int, u)),
            decreases n_vertices - v,
        {
            let ghost before = indices@;
            proof {
                layout::row_fits(v as int, n_vertices as int, k as int);
            }
            let entries = row_of(neighbors, n_vertices, k, v);
            let mut j: usize = 0;
            while j < k
                invariant
                    j <= k,
                    entries@.len() == k,
                    forall|e: int| 0 <= e < k ==> #[trigger] entries@[e] < n_vertices,
                    forall|i: int| 0 <= i < indices@.len() ==> #[trigger] indices@[i] < n_vertices,
                    indices@ == before + proper(entries@.take(j as int)),
                    proper(entries@.take(j as int)).len() <= j,
                decreases k - j,
            {
                let entry: i32 = entries[j];
                proof {
                    let keep = |v: i32| v >= 0;
                    reveal(Seq::filter);
                    assert(entries@.take(j + 1).drop_last() =~= entries@.take(j as int));
                }
                if entry >= 0 {
                    indices.push(entry);
                    assert(indices@ =~= before + proper(entries@.take(j + 1)));
                }
                j = j + 1;
            }
            proof {
                assert(entries@.take(k as int) =~= entries@);
            }
            let ghost pointers = indptr@;
            indptr.push(indices.len() as i32);
            v = v + 1;
            assert forall|u: int| 0 <= u < v implies #[trigger] indices@.subrange(
                indptr@[u] as int,
                indptr@[u + 1] as int,
            ) == proper(layout::row(neighbors@, k as int, u)) by {
                if u < v - 1 {
                    assert(pointers[u] <= pointers[u + 1]);
                    assert(pointers[u + 1] <= pointers[v - 1]);
                    assert(pointers[0] <= pointers[u]);
                    assert(indices@.subrange(indptr@[u] as int, indptr@[u + 1] as int)
                        =~= before.subrange(pointers[u] as int, pointers[u + 1] as int));
                } else {
                    assert(indices@.subrange(indptr@[u] as int, indptr@[u + 1] as int) =~= proper(
                        entries@,
                    ));
                }
            }
        }
        SearchGraph { indptr, indices, n_vertices }
    }

    /// Move vertex `order[i]` to position `i`, and rename the neighbors accordingly.
    pub fn reorder(&mut self, order: &[usize])
        requires
            old(self).wf(),
            layout::is_permutation(order@, old(self).n_vertices as int),
        ensures
            final(self).wf(),
            final(self).reorders(*old(self), order@),
    {
        let n: usize = self.n_vertices;
        let position: Vec<usize> = match layout::invert(order, n) {
            Ok(position) => position,
            Err(_) => Vec::new(),
        };
        let mut indptr: Vec<i32> = vec![0];
        let mut indices: Vec<i32> = Vec::new();
        let mut i: usize = 0;
        proof {
            taken_is_all(*self, order@, n as int);
            assert(order@.take(0) =~= Seq::empty());
        }
        while i < n
            invariant
                i <= n,
                *self == *old(self),
                self.wf(),
                n == self.n_vertices,
                layout::is_permutation(order@, n as int),
                layout::inverts(position@, order@),
                taken(*self, order@) == self.indices@.len(),
                indptr@.len() == i + 1,
                indptr@[0] == 0,
                indptr@[i as int] == indices@.len(),
                indices@.len() == taken(*self, order@.take(i as int)),
                forall|u: int, w: int|
                    0 <= u <= w <= i ==> #[trigger] indptr@[u] <= #[trigger] indptr@[w],
                forall|e: int| 0 <= e < indices@.len() ==> #[trigger] indices@[e] < n,
                forall|u: int|
                    0 <= u < i ==> #[trigger] indices@.subrange(
                        indptr@[u] as int,
                        indptr@[u + 1] as int,
                    ) == self.row(order@[u] as int).map_values(|v: i32| renamed(v, position@)),
            decreases n - i,
        {
            let ghost before = indices@;
            assert(order@[i as int] < n);
            let entries = self.neighbors(order[i]);
            proof {
                taken_grows(*self, order@, i + 1);
                assert(order@.take(i + 1).drop_last() =~= order@.take(i as int));
            }
            let mut j: usize = 0;
            while j < entries.len()
                invariant
                    j <= entries@.len(),
                    n <= i32::MAX,
                    layout::inverts(position@, order@),
                    n == order@.len(),
                    forall|e: int| 0 <= e < entries@.len() ==> #[trigger] entries@[e] < n,
                    forall|e: int| 0 <= e < indices@.len() ==> #[trigger] indices@[e] < n,
                    indices@ == before + entries@.take(j as int).map_values(
                        |v: i32| renamed(v, position@),
                    ),
                decreases entries@.len() - j,
            {
                let entry: i32 = entries[j];
                if entry >= 0 {
                    assert(position@[entry as int] < n);
                    indices.push(position[entry as usize] as i32);
                } else {
                    indices.push(entry);
                }
                j = j + 1;
                assert(indices@ =~= before + entries@.take(j as int).map_values(
                    |v: i32| renamed(v, position@),
                ));
            }
            proof {
                assert(entries@.take(entries@.len() as int) =~= entries@);
            }
            let ghost pointers = indptr@;
            indptr.push(indices.len() as i32);
            i = i + 1;
            assert forall|u: int| 0 <= u < i implies #[trigger] indices@.subrange(
                indptr@[u] as int,
                indptr@[u + 1] as int,
            ) == self.row(order@[u] as int).map_values(|v: i32| renamed(v, position@)) by {
                if u < i - 1 {
                    assert(pointers[u] <= pointers[u + 1]);
                    assert(pointers[u + 1] <= pointers[i - 1]);
                    assert(pointers[0] <= pointers[u]);
                    assert(indices@.subrange(indptr@[u] as int, indptr@[u + 1] as int)
                        =~= before.subrange(pointers[u] as int, pointers[u + 1] as int));
                } else {
                    assert(indices@.subrange(indptr@[u] as int, indptr@[u + 1] as int)
                        =~= entries@.map_values(|v: i32| renamed(v, position@)));
                }
            }
        }
        self.indptr = indptr;
        self.indices = indices;
        proof {
            assert forall|other: Seq<usize>| #[trigger]
                layout::inverts(other, order@) implies forall|i: int|
                0 <= i < self.n_vertices ==> #[trigger] self.row(i) == old(self).row(
                    order@[i] as int,
                ).map_values(|v: i32| renamed(v, other)) by {
                layout::inverse_is_unique(other, position@, order@);
            }
        }
    }
}

impl Clone for SearchGraph {
    fn clone(&self) -> (r: SearchGraph)
        ensures
            r.indptr@ == self.indptr@,
            r.indices@ == self.indices@,
            r.n_vertices == self.n_vertices,
    {
        let indptr = self.indptr.clone();
        let indices = self.indices.clone();
        assert(indptr@ =~= self.indptr@);
        assert(indices@ =~= self.indices@);
        SearchGraph { indptr, indices, n_vertices: self.n_vertices }
    }
}

proof fn rows_determine_prefix(a: SearchGraph, b: SearchGraph, n: int)
    requires
        a.wf(),
        b.wf(),
        a.n_vertices == b.n_vertices,
        0 <= n <= a.n_vertices,
        forall|i: int| 0 <= i < a.n_vertices ==> #[trigger] a.row(i) == b.row(i),
    ensures
        forall|i: int| 0 <= i <= n ==> #[trigger] a.indptr@[i] == b.indptr@[i],
        forall|e: int| 0 <= e < a.indptr@[n] ==> #[trigger] a.indices@[e] == b.indices@[e],
    decreases n,
{
    if n > 0 {
        let v = n - 1;
        rows_determine_prefix(a, b, v);
        assert(a.row(v) == b.row(v));
        assert(a.indptr@[v] <= a.indptr@[n] <= a.indptr@[a.n_vertices as int]);
        assert(b.indptr@[v] <= b.indptr@[n] <= b.indptr@[a.n_vertices as int]);
        assert(a.row(v).len() == a.indptr@[n] - a.indptr@[v]);
        assert(b.row(v).len() == b.indptr@[n] - b.indptr@[v]);
        let start = a.indptr@[v] as int;
        assert forall|e: int| 0 <= e < a.indptr@[n] implies #[trigger] a.indices@[e]
            == b.indices@[e] by {
            if e >= start {
                assert(a.row(v)[e - start] == b.row(v)[e - start]);
            }
        }
    }
}

/// Two graphs with the same rows are the same arrays.
pub proof fn rows_determine_graph(a: SearchGraph, b: SearchGraph)
    requires
        a.wf(),
        b.wf(),
        a.n_vertices == b.n_vertices,
        forall|i: int| 0 <= i < a.n_vertices ==> #[trigger] a.row(i) == b.row(i),
    ensures
        a.indptr@ == b.indptr@,
        a.indices@ == b.indices@,
{
    rows_determine_prefix(a, b, a.n_vertices as int);
    assert(a.indptr@ =~= b.indptr@);
    assert(a.indptr@[a.n_vertices as int] == b.indptr@[a.n_vertices as int]);
    assert(a.indices@ =~= b.indices@);
}

/// Moving the vertices by an order and back gives the same graph.
pub proof fn reordering_round_trips(
    base: SearchGraph,
    moved: SearchGraph,
    back: SearchGraph,
    inverse: Seq<usize>,
    order: Seq<usize>,
)
    requires
        base.wf(),
        moved.wf(),
        back.wf(),
        order.len() == base.n_vertices,
        layout::inverts(inverse, order),
        moved.reorders(base, inverse),
        back.reorders(moved, order),
    ensures
        back.indptr@ == base.indptr@,
        back.indices@ == base.indices@,
{
    inversion_is_mutual(inverse, order);
    assert forall|i: int| 0 <= i < base.n_vertices implies #[trigger] back.row(i) == base.row(i) by {
        assert(inverse[order[i] as int] == i);
        let there = moved.row(order[i] as int);
        assert(there == base.row(i).map_values(|v: i32| renamed(v, order)));
        assert(back.row(i) == there.map_values(|v: i32| renamed(v, inverse)));
        assert(base.indptr@[0] <= base.indptr@[i] <= base.indptr@[i + 1]
            <= base.indptr@[base.n_vertices as int]);
        assert forall|j: int| 0 <= j < base.row(i).len() implies back.row(i)[j]
            == #[trigger] base.row(i)[j] by {
            let v = base.row(i)[j];
            assert(base.indices@[base.indptr@[i] + j] == v);
            if v >= 0 {
                assert(order[v as int] < order.len());
                assert(inverse[order[v as int] as int] == v);
            }
        }
        assert(back.row(i) =~= base.row(i));
    }
    rows_determine_graph(back, base);
}

/// The neighbors of every point and their distances.
#[derive(Debug)]
pub struct NeighborGraph {
    /// Neighbor entries, `n_neighbors` per point.
    pub indices: Vec<i32>,
    /// Their distances.
    pub distances: Vec<Single>,
    /// Number of neighbors per point.
    pub n_neighbors: usize,
}

} // verus!
