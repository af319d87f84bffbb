//! The index and its queries.

use crate::calls;
use crate::distance::Distance;
use crate::graph;
use crate::graph::{NeighborGraph, SearchGraph};
use crate::heap::order;
use crate::heap::BoundedHeap;
use crate::index::widths;
use crate::index::widths::{resolve_quantized_candidate_width, should_rerank_quantized};
use crate::layout;
use crate::layout::row_of;
use crate::parallel::par_map;
use crate::rng;
use crate::rng::FastRng;
use crate::search::arithmetic::Arithmetic;
use crate::search::coverage;
use crate::search::economy;
use crate::search::greedy;
use crate::search::greedy::{
    greedy_search_indices_with_workspace_initialized,
    greedy_search_quantized_custom_with_workspace_initialized,
    greedy_search_quantized_i8_with_workspace_initialized,
    greedy_search_with_workspace_initialized,
};
use crate::search::model;
use crate::search::SearchWorkspace;
use crate::single::Single;
use crate::tree::{FlatTree, QuantizedFlatTree};
use vstd::multiset::Multiset;
use vstd::prelude::*;

verus! {

/// The main index for approximate nearest neighbor search.
///
/// It holds all that is needed for querying: the data points and the search graph, both in a
/// physical order that follows the leaves of the first search tree; the trees, for
/// initialization; and the distance.
pub struct NNDescentIndex<D, K> {
    /// Data points in physical order, `dim` numbers each.
    pub data: Vec<Single>,
    /// Number of data points.
    pub n_points: usize,
    /// Dimension of data points.
    pub dim: usize,
    /// Distance function.
    pub distance: D,
    /// Distance correction function (e.g. the root for squared distances).
    pub distance_correction: Option<K>,
    /// Number of neighbors in the graph.
    pub n_neighbors: usize,
    /// The k-NN graph: indices, `n_neighbors` per point, in input order.
    pub neighbor_indices: Vec<i32>,
    /// The k-NN graph: distances.
    pub neighbor_distances: Vec<Single>,
    /// Search graph, in physical order.
    pub search_graph: SearchGraph,
    /// Trees retained for query initialization, over physical positions.
    pub search_trees: Vec<FlatTree>,
    /// Maximum leaves visited per retained tree during query initialization.
    pub search_tree_leaf_budget: usize,
    /// The point at each physical position.
    pub vertex_order: Vec<usize>,
    /// Minimum distance in the graph, for scaling epsilon.
    pub min_distance: Single,
    /// Seed for search.
    pub rng_seed: u64,
}

/// The original names of physical positions; a placeholder stays.
pub open spec fn original(order: Seq<usize>, ids: Seq<i32>) -> Seq<i32> {
    ids.map_values(|i: i32| graph::renamed(i, order))
}

/// Distances as they are shown: corrected where there is a correction.
pub open spec fn corrected<K: Fn(Single) -> Single>(
    correction: Option<K>,
    distances: Seq<Single>,
) -> Seq<Single> {
    match correction {
        Some(f) => distances.map_values(|d: Single| calls::image1(f, d)),
        None => distances,
    }
}

/// The first `k` of `s`, made up to `k` with `filler`.
pub open spec fn fitted<T>(s: Seq<T>, k: nat, filler: T) -> Seq<T> {
    Seq::new(
        k,
        |i: int|
            if i < s.len() {
                s[i]
            } else {
                filler
            },
    )
}

/// The first `width` entries that are no placeholder, with their distances.
pub open spec fn finalists(
    distance: spec_fn(int) -> Single,
    candidates: Seq<i32>,
    width: nat,
) -> Seq<(Single, i32)> {
    let ids = graph::proper(candidates);
    ids.take(
        if width < ids.len() {
            width as int
        } else {
            ids.len() as int
        },
    ).map_values(|i: i32| (distance(i as int), i))
}

/// The nearest `k` of the first `width` candidates, by exact distance and then by index.
pub open spec fn reranked(
    distance: spec_fn(int) -> Single,
    candidates: Seq<i32>,
    k: nat,
    width: nat,
) -> Seq<(Single, i32)> {
    let all = order::in_order(finalists(distance, candidates, width).to_multiset());
    all.take(
        if k < all.len() {
            k as int
        } else {
            all.len() as int
        },
    )
}

/// A point at distance `d` comes no later than one at distance `e`: it is nearer, or as near and has
/// no larger number.
pub open spec fn no_later(d: Single, i: i32, e: Single, j: i32) -> bool {
    d.total() < e.total() || (d.total() == e.total() && i <= j)
}

/// `indices` are the nearest `k` of the first `width` of `ids`, and `distances` their distances:
/// as many as there can be, in order, each of them one of these, and each of these that is not
/// among them no nearer than any that is.
pub open spec fn nearest_of_first(
    distance: spec_fn(int) -> Single,
    ids: Seq<i32>,
    k: int,
    width: int,
    indices: Seq<i32>,
    distances: Seq<Single>,
) -> bool {
    &&& indices.len() == distances.len()
    &&& indices.len() <= k
    &&& indices.len() == k || indices.len() == width || indices.len() == ids.len()
    &&& indices.len() <= width
    &&& indices.len() <= ids.len()
    &&& forall|i: int|
        0 <= i < indices.len() ==> distances[i] == distance(#[trigger] indices[i] as int)
    &&& forall|i: int|
        0 <= i < indices.len() ==> exists|c: int|
            0 <= c < width && c < ids.len() && ids[c] == #[trigger] indices[i]
    &&& forall|i: int, j: int|
        0 <= i < j < indices.len() ==> no_later(
            distances[i],
            #[trigger] indices[i],
            distances[j],
            #[trigger] indices[j],
        )
    &&& forall|c: int, i: int|
        0 <= c < width && c < ids.len() && 0 <= i < indices.len() && !indices.contains(
            #[trigger] ids[c],
        ) ==> no_later(
            distances[i],
            #[trigger] indices[i],
            distance(ids[c] as int),
            ids[c],
        )
    &&& forall|c: int|
        0 <= c < width && c < ids.len() && indices.len() < k ==> indices.contains(
            #[trigger] ids[c],
        )
    &&& ids.no_duplicates() ==> indices.no_duplicates()
}

/// Entries in order are the same entries.
proof fn ordering_keeps_entries(t: Seq<(Single, i32)>)
    ensures
        ({
            let s = order::in_order(t.to_multiset());
            &&& s.len() == t.len()
            &&& order::ascending(s)
            &&& forall|e: (Single, i32)| #[trigger] s.contains(e) <==> t.contains(e)
            &&& t.no_duplicates() ==> s.no_duplicates()
        }),
{
    let s = order::in_order(t.to_multiset());
    order::in_order_exists(t.to_multiset());
    t.to_multiset_ensures();
    s.to_multiset_ensures();
    assert forall|e: (Single, i32)| #[trigger] s.contains(e) <==> t.contains(e) by {
        assert(s.to_multiset().count(e) == t.to_multiset().count(e));
    }
    if t.no_duplicates() {
        t.lemma_multiset_has_no_duplicates();
        s.lemma_multiset_has_no_duplicates_conv();
    }
}

/// The first entries in order, where every entry is a number with its distance.
proof fn taking_keeps_the_nearest(
    distance: spec_fn(int) -> Single,
    ids: Seq<i32>,
    k: int,
    width: int,
    t: Seq<(Single, i32)>,
    s: Seq<(Single, i32)>,
)
    requires
        0 <= k,
        0 <= width,
        t.len() == lesser(width, ids.len() as int),
        forall|c: int| 0 <= c < t.len() ==> #[trigger] t[c] == (distance(ids[c] as int), ids[c]),
        s.len() == t.len(),
        order::ascending(s),
        forall|e: (Single, i32)| #[trigger] s.contains(e) <==> t.contains(e),
        t.no_duplicates() ==> s.no_duplicates(),
    ensures
        nearest_of_first(
            distance,
            ids,
            k,
            width,
            s.take(lesser(k, s.len() as int)).map_values(|e: (Single, i32)| e.1),
            s.take(lesser(k, s.len() as int)).map_values(|e: (Single, i32)| e.0),
        ),
{
    let m = lesser(k, s.len() as int);
    let indices = s.take(m).map_values(|e: (Single, i32)| e.1);
    let distances = s.take(m).map_values(|e: (Single, i32)| e.0);
    assert forall|i: int| 0 <= i < s.len() implies s[i].0 == distance(
        #[trigger] s[i].1 as int,
    ) && exists|c: int| 0 <= c < width && c < ids.len() && ids[c] == s[i].1 by {
        assert(s.contains(s[i]));
        assert(t.contains(s[i]));
        let c = choose|c: int| 0 <= c < t.len() && t[c] == s[i];
        assert(ids[c] == s[i].1);
    }
    assert forall|i: int| 0 <= i < indices.len() implies indices[i] == s[i].1 && distances[i]
        == s[i].0 by {}
    assert forall|i: int| 0 <= i < indices.len() implies exists|c: int|
        0 <= c < width && c < ids.len() && ids[c] == #[trigger] indices[i] by {
        assert(s[i].1 == indices[i]);
    }
    assert forall|i: int, j: int| 0 <= i < j < indices.len() implies no_later(
        distances[i],
        #[trigger] indices[i],
        distances[j],
        #[trigger] indices[j],
    ) by {
        assert(order::key(s[i]) <= order::key(s[j]));
    }
    assert forall|c: int|
        0 <= c < width && c < ids.len() && !indices.contains(#[trigger] ids[c]) implies exists|
        j: int,
    | m <= j < s.len() && #[trigger] s[j] == t[c] by {
        assert(t.contains(t[c]));
        assert(s.contains(t[c]));
        let j = choose|j: int| 0 <= j < s.len() && s[j] == t[c];
        if j < m {
            assert(indices[j] == ids[c]);
        }
    }
    assert forall|c: int, i: int|
        0 <= c < width && c < ids.len() && 0 <= i < indices.len() && !indices.contains(
            #[trigger] ids[c],
        ) implies no_later(
        distances[i],
        #[trigger] indices[i],
        distance(ids[c] as int),
        ids[c],
    ) by {
        let j = choose|j: int| m <= j < s.len() && #[trigger] s[j] == t[c];
        assert(order::key(s[i]) <= order::key(s[j]));
    }
    if ids.no_duplicates() {
        assert forall|i: int, j: int| 0 <= i < t.len() && 0 <= j < t.len() && i != j implies t[i]
            != t[j] by {
            assert(ids[i] != ids[j]);
        }
        assert forall|i: int, j: int|
            0 <= i < indices.len() && 0 <= j < indices.len() && i != j implies indices[i]
            != indices[j] by {
            assert(s[i] != s[j]);
            assert(s[i].0 == distance(s[i].1 as int));
            assert(s[j].0 == distance(s[j].1 as int));
        }
    }
}

/// Ranking again keeps the nearest of the first `width` candidates that are no placeholder.
pub proof fn reranking_keeps_the_nearest(
    distance: spec_fn(int) -> Single,
    candidates: Seq<i32>,
    k: nat,
    width: nat,
)
    ensures
        nearest_of_first(
            distance,
            candidates.filter(|v: i32| v >= 0),
            k as int,
            width as int,
            reranked(distance, candidates, k, width).map_values(|e: (Single, i32)| e.1),
            reranked(distance, candidates, k, width).map_values(|e: (Single, i32)| e.0),
        ),
{
    let t = finalists(distance, candidates, width);
    let s = order::in_order(t.to_multiset());
    ordering_keeps_entries(t);
    taking_keeps_the_nearest(
        distance,
        candidates.filter(|v: i32| v >= 0),
        k as int,
        width as int,
        t,
        s,
    );
    assert(reranked(distance, candidates, k, width) =~= s.take(lesser(k as int, s.len() as int)));
}

/// Name physical positions by their points.
fn rename(ids: &mut Vec<i32>, vertex_order: &Vec<usize>)
    requires
        forall|i: int| 0 <= i < old(ids)@.len() ==> #[trigger] old(ids)@[i] < vertex_order@.len(),
    ensures
        final(ids)@ == original(vertex_order@, old(ids)@),
{
    let n: usize = ids.len();
    let mut i: usize = 0;
    while i < n
        invariant
            i <= n,
            n == ids@.len(),
            n == old(ids)@.len(),
            forall|i: int|
                0 <= i < old(ids)@.len() ==> #[trigger] old(ids)@[i] < vertex_order@.len(),
            forall|j: int| i <= j < n ==> #[trigger] ids@[j] == old(ids)@[j],
            forall|j: int|
                0 <= j < i ==> #[trigger] ids@[j] == graph::renamed(old(ids)@[j], vertex_order@),
        decreases n - i,
    {
        assert(ids@[i as int] == old(ids)@[i as int]);
        let id: i32 = ids[i];
        if id >= 0 {
            ids[i] = vertex_order[id as usize] as i32;
        }
        i = i + 1;
    }
    assert(ids@ =~= original(vertex_order@, old(ids)@));
}

/// Cut or make up a result to `k` entries.
fn fit<T: Copy>(s: &mut Vec<T>, k: usize, filler: T)
    ensures
        final(s)@ == fitted(old(s)@, k as nat, filler),
{
    s.truncate(k);
    while s.len() < k
        invariant
            s@.len() <= k,
            old(s)@.len() <= s@.len() || s@.len() == k,
            forall|i: int|
                0 <= i < s@.len() ==> #[trigger] s@[i] == if i < old(s)@.len() {
                    old(s)@[i]
                } else {
                    filler
                },
        decreases k - s@.len(),
    {
        s.push(filler);
    }
    assert(s@ =~= fitted(old(s)@, k as nat, filler));
}

impl<D: Distance, K: Fn(Single) -> Single> NNDescentIndex<D, K> {
    /// Graph, trees and vertex order are sound and over the same points, and the correction is a
    /// function.
    pub open spec fn wf(&self) -> bool {
        &&& self.search_graph.wf()
        &&& self.search_graph.n_vertices == self.n_points
        &&& layout::is_permutation(self.vertex_order@, self.n_points as int)
        &&& greedy::trees_serve(self.search_trees@, self.dim as int, self.n_points as int)
        &&& forall|t: int, i: int|
            0 <= t < self.search_trees@.len() && 0 <= i < self.search_trees@[t].indices@.len()
                ==> 0 <= #[trigger] self.search_trees@[t].indices@[i]
        &&& self.distance_correction matches Some(f) ==> calls::maps1(f)
    }

    /// The index holds its data points.
    pub open spec fn has_data(&self) -> bool {
        self.n_points * self.dim <= self.data@.len()
    }

    /// The exact distances of the data points, by physical position.
    pub open spec fn distances(&self, query: Seq<Single>) -> spec_fn(int) -> Single {
        greedy::row_distances(self.distance, query, self.data@, self.dim as int)
    }

    /// What the search for a query comes to.
    pub open spec fn sought<
        M: Fn(&[Single], &[Single], Single) -> Single,
        Q,
        B: Fn(Single, Single, Single) -> Single,
        S,
        C,
    >(
        &self,
        query: Seq<Single>,
        query_id: int,
        k: nat,
        epsilon: Single,
        arithmetic: Arithmetic<M, Q, B, S, C>,
    ) -> model::Progress {
        greedy::vector_search(
            query,
            self.data@,
            self.dim as int,
            self.search_graph,
            self.search_trees@,
            self.search_tree_leaf_budget as nat,
            self.distance,
            k,
            epsilon,
            self.min_distance,
            FastRng { state: rng::wrapped(self.rng_seed + query_id) },
            arithmetic,
        ).0
    }

    /// The points that answer a query: original names, made up to `k` with `-1`.
    pub open spec fn answer_indices<
        M: Fn(&[Single], &[Single], Single) -> Single,
        Q,
        B: Fn(Single, Single, Single) -> Single,
        S,
        C,
    >(
        &self,
        query: Seq<Single>,
        query_id: int,
        k: nat,
        epsilon: Single,
        arithmetic: Arithmetic<M, Q, B, S, C>,
    ) -> Seq<i32> {
        fitted(
            original(
                self.vertex_order@,
                model::indices_of(self.sought(query, query_id, k, epsilon, arithmetic)),
            ),
            k,
            -1i32,
        )
    }

    /// The distances that answer a query: corrected, made up to `k` with infinity.
    pub open spec fn answer_distances<
        M: Fn(&[Single], &[Single], Single) -> Single,
        Q,
        B: Fn(Single, Single, Single) -> Single,
        S,
        C,
    >(
        &self,
        query: Seq<Single>,
        query_id: int,
        k: nat,
        epsilon: Single,
        arithmetic: Arithmetic<M, Q, B, S, C>,
    ) -> Seq<Single> {
        fitted(
            corrected(
                self.distance_correction,
                model::distances_of(self.sought(query, query_id, k, epsilon, arithmetic)),
            ),
            k,
            Single::spec_infinity(),
        )
    }

    /// The number of single-precision numbers in the first `t` trees.
    pub open spec fn tree_numbers(trees: Seq<FlatTree>) -> nat
        decreases trees.len(),
    {
        if trees.len() == 0 {
            0
        } else {
            Self::tree_numbers(trees.drop_last()) + trees.last().hyperplanes@.len()
                + trees.last().offsets@.len()
        }
    }

    /// The numbers of every tree are counted, each tree once: its hyperplanes and its offsets.
    pub proof fn tree_numbers_take_every_tree(trees: Seq<FlatTree>)
        ensures
            Self::tree_numbers(trees) == trees.fold_left(
                0nat,
                |sum: nat, tree: FlatTree|
                    sum + tree.hyperplanes@.len() + tree.offsets@.len(),
            ),
        decreases trees.len(),
    {
        if trees.len() > 0 {
            Self::tree_numbers_take_every_tree(trees.drop_last());
        }
    }

    proof fn tree_numbers_grow(trees: Seq<FlatTree>, t: int)
        requires
            0 <= t <= trees.len(),
        ensures
            Self::tree_numbers(trees.take(t)) <= Self::tree_numbers(trees),
        decreases trees.len() - t,
    {
        if t < trees.len() {
            Self::tree_numbers_grow(trees, t + 1);
            assert(trees.take(t + 1).drop_last() =~= trees.take(t));
        } else {
            assert(trees.take(t) =~= trees);
        }
    }

    /// Bytes in retained single-precision arrays: data, neighbor distances, and tree hyperplanes
    /// and offsets.
    pub fn retained_fp32_bytes(&self) -> (r: usize)
        requires
            (self.data@.len() + self.neighbor_distances@.len() + Self::tree_numbers(
                self.search_trees@,
            )) * 4 <= usize::MAX,
        ensures
            r == (self.data@.len() + self.neighbor_distances@.len() + Self::tree_numbers(
                self.search_trees@,
            )) * 4,
    {
        let mut numbers: usize = 0;
        let mut t: usize = 0;
        proof {
            assert(self.search_trees@.take(0) =~= Seq::empty());
        }
        while t < self.search_trees.len()
            invariant
                t <= self.search_trees@.len(),
                numbers == Self::tree_numbers(self.search_trees@.take(t as int)),
                Self::tree_numbers(self.search_trees@) <= usize::MAX,
            decreases self.search_trees@.len() - t,
        {
            proof {
                let trees = self.search_trees@;
                assert(trees.take(t + 1).drop_last() =~= trees.take(t as int));
                Self::tree_numbers_grow(trees, t + 1);
            }
            numbers = numbers + self.search_trees[t].hyperplanes.len()
                + self.search_trees[t].offsets.len();
            t = t + 1;
        }
        assert(self.search_trees@.take(t as int) =~= self.search_trees@);
        (self.data.len() + self.neighbor_distances.len() + numbers) * 4
    }

    /// Rank the first `rerank_width` candidates by their exact distances, and keep `k`.
    pub fn rerank_quantized_candidates(
        &self,
        query: &[Single],
        approximate_indices: &Vec<i32>,
        k: usize,
        rerank_width: usize,
    ) -> (r: (Vec<i32>, Vec<Single>))
        requires
            self.has_data(),
            query@.len() == self.dim,
            forall|i: int|
                0 <= i < approximate_indices@.len() ==> #[trigger] approximate_indices@[i]
                    < self.n_points,
        ensures
            ({
                let best = reranked(
                    self.distances(query@),
                    approximate_indices@,
                    k as nat,
                    rerank_width as nat,
                );
                &&& r.0@ == best.map_values(|e: (Single, i32)| e.1)
                &&& r.1@ == best.map_values(|e: (Single, i32)| e.0)
            }),
            forall|i: int| 0 <= i < r.0@.len() ==> 0 <= #[trigger] r.0@[i] < self.n_points,
            nearest_of_first(
                |i: int| self.distance.between(query@, layout::row(self.data@, self.dim as int, i)),
                approximate_indices@.filter(|v: i32| v >= 0),
                k as int,
                rerank_width as int,
                r.0@,
                r.1@,
            ),
    {
        proof {
            reranking_keeps_the_nearest(
                self.distances(query@),
                approximate_indices@,
                k as nat,
                rerank_width as nat,
            );
            assert(self.distances(query@) =~= (|i: int|
                self.distance.between(query@, layout::row(self.data@, self.dim as int, i))));
        }
        let ghost ids = graph::proper(approximate_indices@);
        let ghost distance = self.distances(query@);
        let ghost entry = |i: i32| (distance(i as int), i);
        let mut heap = BoundedHeap::new(approximate_indices.len());
        let mut taken: usize = 0;
        let mut i: usize = 0;
        proof {
            assert(approximate_indices@.take(0) =~= Seq::empty());
            reveal(Seq::filter);
            assert(ids.take(0).map_values(entry) =~= Seq::empty());
            ids.take(0).map_values(entry).to_multiset_ensures();
            assert(ids.take(0).map_values(entry).to_multiset() =~= Multiset::empty());
        }
        while i < approximate_indices.len() && taken < rerank_width
            invariant
                i <= approximate_indices@.len(),
                taken <= i,
                taken <= rerank_width,
                self.has_data(),
                query@.len() == self.dim,
                ids == graph::proper(approximate_indices@),
                distance == self.distances(query@),
                entry == (|i: i32| (distance(i as int), i)),
                forall|i: int|
                    0 <= i < approximate_indices@.len() ==> #[trigger] approximate_indices@[i]
                        < self.n_points,
                graph::proper(approximate_indices@.take(i as int)) == ids.take(taken as int),
                taken <= ids.len(),
                heap.wf(),
                heap.bound() == approximate_indices@.len(),
                heap@ == ids.take(taken as int).map_values(entry).to_multiset(),
                heap@.len() == taken,
                forall|j: int| 0 <= j < taken ==> 0 <= #[trigger] ids[j] < self.n_points,
            decreases approximate_indices@.len() - i,
        {
            let idx: i32 = approximate_indices[i];
            proof {
                assert(approximate_indices@[i as int] < self.n_points);
                let before = approximate_indices@.take(i as int);
                let after = approximate_indices@.take(i + 1);
                reveal(Seq::filter);
                assert(after.drop_last() =~= before);
                filter_prefix(approximate_indices@, i + 1);
                assert(graph::proper(after) == ids.take(graph::proper(after).len() as int));
                if idx >= 0 {
                    assert(graph::proper(after) == graph::proper(before).push(idx));
                    assert(ids[taken as int] == graph::proper(after)[taken as int]);
                    let s = ids.take(taken as int).map_values(entry);
                    assert(ids.take(taken + 1).map_values(entry) =~= s.push(entry(idx)));
                    s.to_multiset_ensures();
                }
            }
            if idx >= 0 {
                let d: Single = self.distance.distance(
                    query,
                    row_of(self.data.as_slice(), self.n_points, self.dim, idx as usize),
                );
                let _ = heap.push(d, idx);
                proof {
                    ids.take(taken + 1).map_values(entry).to_multiset_ensures();
                }
                taken = taken + 1;
            }
            i = i + 1;
        }
        proof {
            if i == approximate_indices@.len() {
                assert(approximate_indices@.take(i as int) =~= approximate_indices@);
                assert(ids.take(taken as int).len() == ids.len());
            }
            assert(finalists(distance, approximate_indices@, rerank_width as nat) == ids.take(
                taken as int,
            ).map_values(entry));
        }
        let ghost all = order::in_order(heap@);
        proof {
            order::in_order_exists(heap@);
            all.to_multiset_ensures();
            ids.take(taken as int).map_values(entry).to_multiset_ensures();
        }
        let (mut indices, mut distances) = heap.into_sorted();
        indices.truncate(k);
        distances.truncate(k);
        proof {
            let best = reranked(distance, approximate_indices@, k as nat, rerank_width as nat);
            assert(indices@ =~= best.map_values(|e: (Single, i32)| e.1));
            assert(distances@ =~= best.map_values(|e: (Single, i32)| e.0));
            assert forall|j: int| 0 <= j < indices@.len() implies 0 <= #[trigger] indices@[j]
                < self.n_points by {
                assert(all.contains(all[j]));
                let entries = ids.take(taken as int).map_values(entry);
                assert(entries.to_multiset().count(all[j]) > 0);
                assert(entries.contains(all[j]));
                let l = choose|l: int| 0 <= l < entries.len() && entries[l] == all[j];
                assert(0 <= ids[l] < self.n_points);
            }
        }
        (indices, distances)
    }
}

impl<D: Distance, K: Fn(Single) -> Single> NNDescentIndex<D, K> {
    /// The physical position of each point.
    pub fn original_to_internal(&self) -> (inverse: Vec<usize>)
        requires
            layout::is_permutation(self.vertex_order@, self.n_points as int),
        ensures
            layout::inverts(inverse@, self.vertex_order@),
    {
        match layout::invert(self.vertex_order.as_slice(), self.n_points) {
            Ok(inverse) => inverse,
            Err(_) => Vec::new(),
        }
    }

    /// Return the search graph in original input order.
    pub fn search_graph_original_order(&self) -> (r: SearchGraph)
        requires
            self.wf(),
        ensures
            r.wf(),
            r.n_vertices == self.n_points,
            forall|inverse: Seq<usize>| #[trigger]
                layout::inverts(inverse, self.vertex_order@) ==> r.reorders(
                    self.search_graph,
                    inverse,
                ),
    {
        let mut graph = self.search_graph.clone();
        let inverse = self.original_to_internal();
        proof {
            layout::inversion_is_mutual(inverse@, self.vertex_order@);
        }
        let ghost copy = graph;
        graph.reorder(inverse.as_slice());
        proof {
            assert forall|other: Seq<usize>| #[trigger]
                layout::inverts(other, self.vertex_order@) implies graph.reorders(
                self.search_graph,
                other,
            ) by {
                layout::inverse_is_unique(other, inverse@, self.vertex_order@);
                assert forall|position: Seq<usize>| #[trigger]
                    layout::inverts(position, other) implies forall|i: int|
                    0 <= i < graph.n_vertices ==> #[trigger] graph.row(i) == self.search_graph.row(
                        other[i] as int,
                    ).map_values(|v: i32| graph::renamed(v, position)) by {
                    assert(graph.reorders(copy, other));
                    assert forall|i: int| 0 <= i < graph.n_vertices implies #[trigger] graph.row(i)
                        == self.search_graph.row(other[i] as int).map_values(
                        |v: i32| graph::renamed(v, position),
                    ) by {
                        assert(copy.row(other[i] as int) == self.search_graph.row(
                            other[i] as int,
                        ));
                    }
                }
            }
        }
        graph
    }

    /// Bringing the exported graph back into physical order gives the search graph.
    pub proof fn exported_graph_round_trips(self, exported: SearchGraph, back: SearchGraph)
        requires
            self.wf(),
            exported.wf(),
            back.wf(),
            forall|inverse: Seq<usize>| #[trigger]
                layout::inverts(inverse, self.vertex_order@) ==> exported.reorders(
                    self.search_graph,
                    inverse,
                ),
            back.reorders(exported, self.vertex_order@),
        ensures
            back.indptr@ == self.search_graph.indptr@,
            back.indices@ == self.search_graph.indices@,
    {
        let inverse = layout::inverse_of(self.vertex_order@, self.n_points as int);
        layout::inverse_exists(self.vertex_order@, self.n_points as int);
        graph::reordering_round_trips(
            self.search_graph,
            exported,
            back,
            inverse,
            self.vertex_order@,
        );
    }

    /// Return the first retained search tree with its points under their original names.
    pub fn export_search_tree(&self) -> (r: Option<FlatTree>)
        requires
            self.wf(),
        ensures
            self.search_trees@.len() == 0 ==> r is None,
            self.search_trees@.len() > 0 ==> {
                let tree = self.search_trees@[0];
                r matches Some(exported) && {
                    &&& exported.indices@ == original(self.vertex_order@, tree.indices@)
                    &&& exported.hyperplanes@ == tree.hyperplanes@
                    &&& exported.offsets@ == tree.offsets@
                    &&& exported.children@ == tree.children@
                    &&& exported.dim == tree.dim
                    &&& exported.n_nodes == tree.n_nodes
                }
            },
    {
        if self.search_trees.len() == 0 {
            return None;
        }
        assert(self.search_trees@[0].wf());
        let mut exported = self.search_trees[0].clone();
        rename(&mut exported.indices, &self.vertex_order);
        Some(exported)
    }

    fn process_query_with_workspace<
        M: Fn(&[Single], &[Single], Single) -> Single,
        Q,
        B: Fn(Single, Single, Single) -> Single,
        S,
        C,
    >(
        &self,
        query: &[Single],
        query_id: usize,
        k: usize,
        epsilon: Single,
        workspace: &mut SearchWorkspace,
        arithmetic: &Arithmetic<M, Q, B, S, C>,
    ) -> (r: (Vec<i32>, Vec<Single>))
        requires
            old(workspace).wf(),
            self.wf(),
            self.has_data(),
            query@.len() == self.dim,
            k == 0 || self.n_points > 0,
            arithmetic.serves_vectors(),
        ensures
            final(workspace).wf(),
            final(workspace).points() == self.n_points,
            final(workspace).results() == k,
            r.0@ == self.answer_indices(query@, query_id as int, k as nat, epsilon, *arithmetic),
            r.1@ == self.answer_distances(query@, query_id as int, k as nat, epsilon, *arithmetic),
            r.0@.len() == k,
            r.1@.len() == k,
    {
        let mut rng = FastRng::new(self.rng_seed.wrapping_add(query_id as u64));
        let (mut indices, mut distances) = greedy_search_with_workspace_initialized(
            query,
            self.data.as_slice(),
            self.dim,
            &self.search_graph,
            self.search_trees.as_slice(),
            self.search_tree_leaf_budget,
            &self.distance,
            k,
            epsilon,
            self.min_distance,
            &mut rng,
            workspace,
            arithmetic,
        );
        rename(&mut indices, &self.vertex_order);
        let ghost raw = distances@;
        if let Some(correction) = &self.distance_correction {
            let n: usize = distances.len();
            let mut i: usize = 0;
            while i < n
                invariant
                    i <= n,
                    n == distances@.len(),
                    n == raw.len(),
                    calls::maps1(*correction),
                    forall|j: int| i <= j < n ==> #[trigger] distances@[j] == raw[j],
                    forall|j: int|
                        0 <= j < i ==> #[trigger] distances@[j] == calls::image1(
                            *correction,
                            raw[j],
                        ),
                decreases n - i,
            {
                assert(distances@[i as int] == raw[i as int]);
                let d: Single = correction(distances[i]);
                distances[i] = d;
                i = i + 1;
            }
        }
        assert(distances@ =~= corrected(self.distance_correction, raw));
        fit(&mut indices, k, -1);
        fit(&mut distances, k, Single::infinity());
        (indices, distances)
    }

    fn process_query_indices_with_workspace<
        M: Fn(&[Single], &[Single], Single) -> Single,
        Q,
        B: Fn(Single, Single, Single) -> Single,
        S,
        C,
    >(
        &self,
        query: &[Single],
        query_id: usize,
        k: usize,
        epsilon: Single,
        workspace: &mut SearchWorkspace,
        arithmetic: &Arithmetic<M, Q, B, S, C>,
    ) -> (r: Vec<i32>)
        requires
            old(workspace).wf(),
            self.wf(),
            self.has_data(),
            query@.len() == self.dim,
            k == 0 || self.n_points > 0,
            arithmetic.serves_vectors(),
        ensures
            final(workspace).wf(),
            final(workspace).points() == self.n_points,
            final(workspace).results() == k,
            r@ == self.answer_indices(query@, query_id as int, k as nat, epsilon, *arithmetic),
            r@.len() == k,
    {
        let mut rng = FastRng::new(self.rng_seed.wrapping_add(query_id as u64));
        let mut indices = greedy_search_indices_with_workspace_initialized(
            query,
            self.data.as_slice(),
            self.dim,
            &self.search_graph,
            self.search_trees.as_slice(),
            self.search_tree_leaf_budget,
            &self.distance,
            k,
            epsilon,
            self.min_distance,
            &mut rng,
            workspace,
            arithmetic,
        );
        rename(&mut indices, &self.vertex_order);
        fit(&mut indices, k, -1);
        indices
    }

    fn process_query<
        M: Fn(&[Single], &[Single], Single) -> Single,
        Q,
        B: Fn(Single, Single, Single) -> Single,
        S,
        C,
    >(
        &self,
        query: &[Single],
        query_id: usize,
        k: usize,
        epsilon: Single,
        arithmetic: &Arithmetic<M, Q, B, S, C>,
    ) -> (r: (Vec<i32>, Vec<Single>))
        requires
            self.wf(),
            self.has_data(),
            query@.len() == self.dim,
            k == 0 || self.n_points > 0,
            arithmetic.serves_vectors(),
        ensures
            r.0@ == self.answer_indices(query@, query_id as int, k as nat, epsilon, *arithmetic),
            r.1@ == self.answer_distances(query@, query_id as int, k as nat, epsilon, *arithmetic),
            r.0@.len() == k,
            r.1@.len() == k,
    {
        let mut workspace = SearchWorkspace::new(self.n_points, k);
        self.process_query_with_workspace(query, query_id, k, epsilon, &mut workspace, arithmetic)
    }

    /// Query for a single nearest-neighbor request using a reusable workspace.
    pub fn query_one_with_workspace<
        M: Fn(&[Single], &[Single], Single) -> Single,
        Q,
        B: Fn(Single, Single, Single) -> Single,
        S,
        C,
    >(
        &self,
        query: &[Single],
        k: usize,
        epsilon: Single,
        workspace: &mut SearchWorkspace,
        arithmetic: &Arithmetic<M, Q, B, S, C>,
    ) -> (r: (Vec<i32>, Vec<Single>))
        requires
            old(workspace).wf(),
            self.wf(),
            self.has_data(),
            query@.len() == self.dim,
            k == 0 || self.n_points > 0,
            arithmetic.serves_vectors(),
        ensures
            final(workspace).wf(),
            final(workspace).points() == self.n_points,
            final(workspace).results() == k,
            r.0@ == self.answer_indices(query@, 0, k as nat, epsilon, *arithmetic),
            r.1@ == self.answer_distances(query@, 0, k as nat, epsilon, *arithmetic),
            r.0@.len() == k,
            r.1@.len() == k,
    {
        self.process_query_with_workspace(query, 0, k, epsilon, workspace, arithmetic)
    }

    /// Query one vector and return only original input IDs, avoiding distance result allocation
    /// and correction.
    pub fn query_one_indices_with_workspace<
        M: Fn(&[Single], &[Single], Single) -> Single,
        Q,
        B: Fn(Single, Single, Single) -> Single,
        S,
        C,
    >(
        &self,
        query: &[Single],
        k: usize,
        epsilon: Single,
        workspace: &mut SearchWorkspace,
        arithmetic: &Arithmetic<M, Q, B, S, C>,
    ) -> (r: Vec<i32>)
        requires
            old(workspace).wf(),
            self.wf(),
            self.has_data(),
            query@.len() == self.dim,
            k == 0 || self.n_points > 0,
            arithmetic.serves_vectors(),
        ensures
            final(workspace).wf(),
            final(workspace).points() == self.n_points,
            final(workspace).results() == k,
            r@ == self.answer_indices(query@, 0, k as nat, epsilon, *arithmetic),
            r@.len() == k,
    {
        self.process_query_indices_with_workspace(query, 0, k, epsilon, workspace, arithmetic)
    }

    /// Query for a single nearest-neighbor request.
    pub fn query_one<
        M: Fn(&[Single], &[Single], Single) -> Single,
        Q,
        B: Fn(Single, Single, Single) -> Single,
        S,
        C,
    >(
        &self,
        query: &[Single],
        k: usize,
        epsilon: Single,
        arithmetic: &Arithmetic<M, Q, B, S, C>,
    ) -> (r: (Vec<i32>, Vec<Single>))
        requires
            self.wf(),
            self.has_data(),
            query@.len() == self.dim,
            k == 0 || self.n_points > 0,
            arithmetic.serves_vectors(),
        ensures
            r.0@ == self.answer_indices(query@, 0, k as nat, epsilon, *arithmetic),
            r.1@ == self.answer_distances(query@, 0, k as nat, epsilon, *arithmetic),
            r.0@.len() == k,
            r.1@.len() == k,
    {
        self.process_query(query, 0, k, epsilon, arithmetic)
    }

    /// The points and distances that answer a quantized query: those found, ranked again where
    /// that is asked for, under their original names, and made up to `k`.
    pub open spec fn quantized_answer(
        &self,
        tree_query: Seq<Single>,
        p: model::Progress,
        k: usize,
        candidate_width: usize,
        rerank_width: usize,
    ) -> (Seq<i32>, Seq<Single>) {
        let best = reranked(
            self.distances(tree_query),
            model::indices_of(p),
            k as nat,
            rerank_width as nat,
        );
        let (indices, distances) = if widths::reranks(k, candidate_width, rerank_width) {
            (
                best.map_values(|e: (Single, i32)| e.1),
                best.map_values(|e: (Single, i32)| e.0),
            )
        } else {
            (model::indices_of(p), model::distances_of(p))
        };
        (
            fitted(original(self.vertex_order@, indices), k as nat, -1i32),
            fitted(distances, k as nat, Single::spec_infinity()),
        )
    }

    fn finish_quantized(
        &self,
        tree_query: &[Single],
        found: (Vec<i32>, Vec<Single>),
        k: usize,
        candidate_width: usize,
        rerank_width: usize,
        Ghost(p): Ghost<model::Progress>,
    ) -> (r: (Vec<i32>, Vec<Single>))
        requires
            self.wf(),
            tree_query@.len() == self.dim,
            widths::reranks(k, candidate_width, rerank_width) ==> self.has_data(),
            found.0@ == model::indices_of(p),
            found.1@ == model::distances_of(p),
            forall|i: int| 0 <= i < found.0@.len() ==> 0 <= #[trigger] found.0@[i] < self.n_points,
        ensures
            (r.0@, r.1@) == self.quantized_answer(
                tree_query@,
                p,
                k,
                candidate_width,
                rerank_width,
            ),
            r.0@.len() == k,
            r.1@.len() == k,
    {
        let (mut indices, mut distances) = found;
        if should_rerank_quantized(k, candidate_width, rerank_width) {
            let (best, exact) = self.rerank_quantized_candidates(
                tree_query,
                &indices,
                k,
                rerank_width,
            );
            indices = best;
            distances = exact;
        }
        rename(&mut indices, &self.vertex_order);
        fit(&mut indices, k, -1);
        fit(&mut distances, k, Single::infinity());
        (indices, distances)
    }

    /// Query one vector against a signed-int8 search representation that is stored in this index's
    /// physical order.
    ///
    /// `candidate_width` is the approximate result-heap capacity; zero resolves to the larger of
    /// `k` and `rerank_width`. `rerank_width` controls only how many retained approximate finalists
    /// are evaluated and sorted with the index's exact distance.
    pub fn query_one_quantized_i8_with_workspace<
        M: Fn(&[Single], &[Single], Single) -> Single,
        Q: Fn(i32, Single, Single, Single) -> Single,
        B: Fn(Single, Single, Single) -> Single,
        S: Fn(i32, Single, Single) -> Single,
        C: Fn(Single) -> Single,
    >(
        &self,
        tree_query: &[Single],
        query: &[i8],
        query_inv_norm: Single,
        quantized_data: &[i8],
        inv_norms: &[Single],
        quantized_trees: Option<&[QuantizedFlatTree]>,
        tree_query_scale: Single,
        k: usize,
        candidate_width: usize,
        rerank_width: usize,
        epsilon: Single,
        workspace: &mut SearchWorkspace,
        arithmetic: &Arithmetic<M, Q, B, S, C>,
    ) -> (r: (Vec<i32>, Vec<Single>))
        requires
            old(workspace).wf(),
            self.wf(),
            tree_query@.len() == self.dim,
            query@.len() == self.dim,
            self.n_points * self.dim <= quantized_data@.len(),
            self.n_points <= inv_norms@.len(),
            quantized_trees matches Some(trees) ==> greedy::quantized_trees_serve(
                trees@,
                self.dim as int,
                self.n_points as int,
            ),
            widths::widths_fit(k, candidate_width, rerank_width),
            widths::resolved(k, candidate_width, rerank_width) == 0 || self.n_points > 0,
            widths::reranks(k, candidate_width, rerank_width) ==> self.has_data(),
            arithmetic.serves_codes(),
        ensures
            final(workspace).wf(),
            final(workspace).points() == self.n_points,
            final(workspace).results() == widths::resolved(k, candidate_width, rerank_width),
            (r.0@, r.1@) == self.quantized_answer(
                tree_query@,
                self.coded_search(
                    tree_query@,
                    query@,
                    query_inv_norm,
                    quantized_data@,
                    inv_norms@,
                    greedy::contents(quantized_trees),
                    tree_query_scale,
                    widths::resolved(k, candidate_width, rerank_width) as nat,
                    epsilon,
                    *arithmetic,
                ),
                k,
                candidate_width,
                rerank_width,
            ),
            r.0@.len() == k,
            r.1@.len() == k,
    {
        let mut rng = FastRng::new(self.rng_seed);
        let search_k: usize = resolve_quantized_candidate_width(k, candidate_width, rerank_width);
        let found = greedy_search_quantized_i8_with_workspace_initialized(
            tree_query,
            query,
            query_inv_norm,
            quantized_data,
            inv_norms,
            self.dim,
            &self.search_graph,
            self.search_trees.as_slice(),
            self.search_tree_leaf_budget,
            search_k,
            epsilon,
            self.min_distance,
            &mut rng,
            workspace,
            quantized_trees,
            tree_query_scale,
            arithmetic,
        );
        self.finish_quantized(
            tree_query,
            found,
            k,
            candidate_width,
            rerank_width,
            Ghost(
                self.coded_search(
                    tree_query@,
                    query@,
                    query_inv_norm,
                    quantized_data@,
                    inv_norms@,
                    greedy::contents(quantized_trees),
                    tree_query_scale,
                    search_k as nat,
                    epsilon,
                    *arithmetic,
                ),
            ),
        )
    }

    /// What the search for a coded query comes to.
    pub open spec fn coded_search<
        M: Fn(&[Single], &[Single], Single) -> Single,
        Q: Fn(i32, Single, Single, Single) -> Single,
        B: Fn(Single, Single, Single) -> Single,
        S: Fn(i32, Single, Single) -> Single,
        C: Fn(Single) -> Single,
    >(
        &self,
        tree_query: Seq<Single>,
        query: Seq<i8>,
        query_inv_norm: Single,
        quantized_data: Seq<i8>,
        inv_norms: Seq<Single>,
        quantized_trees: Option<Seq<QuantizedFlatTree>>,
        tree_query_scale: Single,
        search_k: nat,
        epsilon: Single,
        arithmetic: Arithmetic<M, Q, B, S, C>,
    ) -> model::Progress {
        greedy::code_search(
            tree_query,
            query,
            query_inv_norm,
            quantized_data,
            inv_norms,
            self.dim as int,
            self.search_graph,
            self.search_trees@,
            self.search_tree_leaf_budget as nat,
            search_k,
            epsilon,
            self.min_distance,
            FastRng { state: self.rng_seed },
            quantized_trees,
            tree_query_scale,
            arithmetic,
        ).0
    }

    /// Query a quantized representation whose candidate distance requires a
    /// representation-specific reconstruction kernel.
    pub fn query_one_quantized_custom_with_workspace<
        F: Fn(i32) -> Single,
        M: Fn(&[Single], &[Single], Single) -> Single,
        Q: Fn(i32, Single, Single, Single) -> Single,
        B: Fn(Single, Single, Single) -> Single,
        S,
        C,
    >(
        &self,
        tree_query: &[Single],
        k: usize,
        candidate_width: usize,
        rerank_width: usize,
        epsilon: Single,
        workspace: &mut SearchWorkspace,
        quantized_tree_query: &[i8],
        quantized_trees: Option<&[QuantizedFlatTree]>,
        tree_query_scale: Single,
        distance_to: F,
        arithmetic: &Arithmetic<M, Q, B, S, C>,
    ) -> (r: (Vec<i32>, Vec<Single>))
        requires
            old(workspace).wf(),
            self.wf(),
            tree_query@.len() == self.dim,
            quantized_trees matches Some(trees) ==> greedy::quantized_trees_serve(
                trees@,
                quantized_tree_query@.len() as int,
                self.n_points as int,
            ),
            widths::widths_fit(k, candidate_width, rerank_width),
            widths::resolved(k, candidate_width, rerank_width) == 0 || self.n_points > 0,
            widths::reranks(k, candidate_width, rerank_width) ==> self.has_data(),
            forall|i: i32| 0 <= i < self.n_points ==> #[trigger] call_requires(distance_to, (i,)),
            calls::determined1(distance_to),
            arithmetic.serves_trees(),
        ensures
            final(workspace).wf(),
            final(workspace).points() == self.n_points,
            final(workspace).results() == widths::resolved(k, candidate_width, rerank_width),
            (r.0@, r.1@) == self.quantized_answer(
                tree_query@,
                greedy::custom_search(
                    tree_query@,
                    self.search_graph,
                    self.search_trees@,
                    self.search_tree_leaf_budget as nat,
                    widths::resolved(k, candidate_width, rerank_width) as nat,
                    epsilon,
                    self.min_distance,
                    FastRng { state: self.rng_seed },
                    greedy::contents(quantized_trees),
                    quantized_tree_query@,
                    tree_query_scale,
                    distance_to,
                    *arithmetic,
                ).0,
                k,
                candidate_width,
                rerank_width,
            ),
            r.0@.len() == k,
            r.1@.len() == k,
    {
        let mut rng = FastRng::new(self.rng_seed);
        let search_k: usize = resolve_quantized_candidate_width(k, candidate_width, rerank_width);
        let ghost p = greedy::custom_search(
            tree_query@,
            self.search_graph,
            self.search_trees@,
            self.search_tree_leaf_budget as nat,
            search_k as nat,
            epsilon,
            self.min_distance,
            FastRng { state: self.rng_seed },
            greedy::contents(quantized_trees),
            quantized_tree_query@,
            tree_query_scale,
            distance_to,
            *arithmetic,
        ).0;
        let found = greedy_search_quantized_custom_with_workspace_initialized(
            tree_query,
            &self.search_graph,
            self.search_trees.as_slice(),
            self.search_tree_leaf_budget,
            search_k,
            epsilon,
            self.min_distance,
            &mut rng,
            workspace,
            quantized_trees,
            quantized_tree_query,
            tree_query_scale,
            distance_to,
            arithmetic,
        );
        self.finish_quantized(
            tree_query,
            found,
            k,
            candidate_width,
            rerank_width,
            Ghost(p),
        )
    }

    /// Get the neighbor graph (the k-NN graph before search preparation). It is not kept in this
    /// form.
    pub fn neighbor_graph(&self) -> (r: Option<NeighborGraph>)
        ensures
            r is None,
    {
        None
    }
}

impl<D: Distance, K: Fn(Single) -> Single> NNDescentIndex<D, K> {
    /// A query is answered with different points, under their original names, nearest first by the
    /// index's distance, and then with placeholders; and the distances that go with the points are
    /// theirs, corrected.
    pub proof fn answers_are_nearby_points<
        M: Fn(&[Single], &[Single], Single) -> Single,
        Q,
        B: Fn(Single, Single, Single) -> Single,
        S,
        C,
    >(
        self,
        query: Seq<Single>,
        query_id: int,
        k: nat,
        epsilon: Single,
        arithmetic: Arithmetic<M, Q, B, S, C>,
    )
        requires
            self.wf(),
            k == 0 || self.n_points > 0,
        ensures
            ({
                let found = model::indices_of(self.sought(query, query_id, k, epsilon, arithmetic));
                let indices = self.answer_indices(query, query_id, k, epsilon, arithmetic);
                let distances = self.answer_distances(query, query_id, k, epsilon, arithmetic);
                &&& found.len() <= k
                &&& forall|i: int|
                    0 <= i < found.len() ==> {
                        &&& 0 <= #[trigger] indices[i] < self.n_points
                        &&& 0 <= found[i] < self.n_points
                        &&& indices[i] == self.vertex_order@[found[i] as int]
                        &&& distances[i] == match self.distance_correction {
                            Some(f) => calls::image1(f, self.distances(query)(found[i] as int)),
                            None => self.distances(query)(found[i] as int),
                        }
                    }
                &&& forall|i: int, j: int|
                    0 <= i < j < found.len() ==> #[trigger] indices[i] != #[trigger] indices[j]
                &&& forall|i: int, j: int|
                    0 <= i < j < found.len() ==> self.distances(query)(
                        #[trigger] found[i] as int,
                    ).total() <= self.distances(query)(#[trigger] found[j] as int).total()
                &&& forall|i: int|
                    found.len() <= i < k ==> #[trigger] indices[i] == -1 && distances[i]
                        == Single::spec_infinity()
            }),
    {
        let n = self.n_points as int;
        let q = greedy::quest(
            self.distances(query),
            arithmetic.bound,
            epsilon,
            self.min_distance,
            k,
            true,
        );
        let routes = greedy::flat_routes(
            self.search_trees@,
            arithmetic.margin,
            query,
            self.search_tree_leaf_budget as nat,
        );
        greedy::flat_routes_lead_within(
            self.search_trees@,
            arithmetic.margin,
            query,
            self.search_tree_leaf_budget as nat,
            self.dim as int,
            n,
        );
        let rng = FastRng { state: rng::wrapped(self.rng_seed + query_id) };
        model::finishing_keeps(q, self.search_graph, routes, rng);
        let p = self.sought(query, query_id, k, epsilon, arithmetic);
        assert(p == model::finished(q, self.search_graph, routes, rng).0);
        model::consistent_gives_results(q, n, p);
        let found = model::indices_of(p);
        let near = model::distances_of(p);
        let indices = self.answer_indices(query, query_id, k, epsilon, arithmetic);
        assert forall|i: int| 0 <= i < found.len() implies 0 <= #[trigger] indices[i]
            < self.n_points && indices[i] == self.vertex_order@[found[i] as int] by {
            assert(0 <= found[i] < n);
            assert(self.vertex_order@[found[i] as int] < n);
        }
        assert forall|i: int, j: int| 0 <= i < j < found.len() implies #[trigger] indices[i]
            != #[trigger] indices[j] by {
            assert(found[i] != found[j]);
            assert(indices[i] == self.vertex_order@[found[i] as int]);
            assert(indices[j] == self.vertex_order@[found[j] as int]);
        }
        assert forall|i: int, j: int| 0 <= i < j < found.len() implies self.distances(query)(
            #[trigger] found[i] as int,
        ).total() <= self.distances(query)(#[trigger] found[j] as int).total() by {
            assert(near[i].total() <= near[j].total());
        }
    }
}

impl<D: Distance, K: Fn(Single) -> Single> NNDescentIndex<D, K> {
    /// A query's search goes through the index's own graph as far as it should, by the index's own
    /// distance between the query and the data; and it starts at all points of the leaves that the
    /// index's trees route the query to, and at random points, drawn with a seed of the query's
    /// own, as far as these are too few.
    pub proof fn queries_are_thorough<
        M: Fn(&[Single], &[Single], Single) -> Single,
        Q,
        B: Fn(Single, Single, Single) -> Single,
        S,
        C,
    >(
        self,
        query: Seq<Single>,
        query_id: int,
        k: nat,
        epsilon: Single,
        arithmetic: Arithmetic<M, Q, B, S, C>,
    )
        requires
            self.wf(),
            k == 0 || self.n_points > 0,
        ensures
            ({
                let p = self.sought(query, query_id, k, epsilon, arithmetic);
                let distance = |i: int|
                    self.distance.between(query, layout::row(self.data@, self.dim as int, i));
                let bound = |furthest: Single|
                    calls::image3(arithmetic.bound, furthest, epsilon, self.min_distance);
                let q = model::Quest { distance, bound, k, fills: true };
                let routes = greedy::flat_routes(
                    self.search_trees@,
                    arithmetic.margin,
                    query,
                    self.search_tree_leaf_budget as nat,
                );
                let rng = FastRng { state: rng::wrapped(self.rng_seed + query_id) };
                let indices = model::indices_of(p);
                &&& coverage::thorough(
                    self.search_graph,
                    distance,
                    bound,
                    k,
                    true,
                    coverage::entry(q, self.search_graph, routes, rng).found.len() == k,
                    p.visited,
                    indices,
                    model::distances_of(p),
                )
                &&& coverage::started(
                    q,
                    self.search_graph,
                    routes,
                    rng,
                    p.visited,
                    indices.len(),
                )
                &&& k > 0 ==> indices.len() > 0
                &&& forall|t: int|
                    0 <= t < self.search_trees@.len() ==> coverage::leaves_taken_in(
                        (#[trigger] self.search_trees@[t]).children@,
                        self.search_trees@[t].margins(arithmetic.margin, query),
                        self.search_tree_leaf_budget as nat,
                        self.search_trees@[t].indices@,
                        p.visited,
                    )
            }),
    {
        let distance = |i: int|
            self.distance.between(query, layout::row(self.data@, self.dim as int, i));
        let bound = |furthest: Single|
            calls::image3(arithmetic.bound, furthest, epsilon, self.min_distance);
        let q = greedy::quest(
            self.distances(query),
            arithmetic.bound,
            epsilon,
            self.min_distance,
            k,
            true,
        );
        assert(q.distance =~= distance);
        assert(q.bound =~= bound);
        let rng = FastRng { state: rng::wrapped(self.rng_seed + query_id) };
        greedy::vector_searches_are_thorough(
            query,
            self.data@,
            self.dim as int,
            self.search_graph,
            self.search_trees@,
            self.search_tree_leaf_budget as nat,
            self.distance,
            k,
            epsilon,
            self.min_distance,
            rng,
            arithmetic,
        );
        let routes = greedy::flat_routes(
            self.search_trees@,
            arithmetic.margin,
            query,
            self.search_tree_leaf_budget as nat,
        );
        greedy::flat_routes_lead_within(
            self.search_trees@,
            arithmetic.margin,
            query,
            self.search_tree_leaf_budget as nat,
            self.dim as int,
            self.n_points as int,
        );
        coverage::searches_are_thorough(q, self.search_graph, routes, rng);
    }
}

impl<D: Distance, K: Fn(Single) -> Single> NNDescentIndex<D, K> {
    /// A query's search visits no more than it has to: where the index's trees lead with the
    /// index's budget, as many random points as are missing, and neighbors of what it goes on from.
    pub proof fn queries_are_economical<
        M: Fn(&[Single], &[Single], Single) -> Single,
        Q,
        B: Fn(Single, Single, Single) -> Single,
        S,
        C,
    >(
        self,
        query: Seq<Single>,
        query_id: int,
        k: nat,
        epsilon: Single,
        arithmetic: Arithmetic<M, Q, B, S, C>,
    )
        requires
            self.wf(),
            k == 0 || self.n_points > 0,
        ensures
            economy::economical(
                model::Quest {
                    distance: |i: int|
                        self.distance.between(query, layout::row(self.data@, self.dim as int, i)),
                    bound: |furthest: Single|
                        calls::image3(arithmetic.bound, furthest, epsilon, self.min_distance),
                    k,
                    fills: true,
                },
                self.search_graph,
                greedy::flat_routes(
                    self.search_trees@,
                    arithmetic.margin,
                    query,
                    self.search_tree_leaf_budget as nat,
                ),
                FastRng { state: rng::wrapped(self.rng_seed + query_id) },
                self.sought(query, query_id, k, epsilon, arithmetic).visited,
            ),
    {
        let q = greedy::quest(
            self.distances(query),
            arithmetic.bound,
            epsilon,
            self.min_distance,
            k,
            true,
        );
        assert(q.distance =~= (|i: int|
            self.distance.between(query, layout::row(self.data@, self.dim as int, i))));
        assert(q.bound =~= (|furthest: Single|
            calls::image3(arithmetic.bound, furthest, epsilon, self.min_distance)));
        greedy::flat_routes_lead_within(
            self.search_trees@,
            arithmetic.margin,
            query,
            self.search_tree_leaf_budget as nat,
            self.dim as int,
            self.n_points as int,
        );
        economy::searches_are_economical(
            q,
            self.search_graph,
            greedy::flat_routes(
                self.search_trees@,
                arithmetic.margin,
                query,
                self.search_tree_leaf_budget as nat,
            ),
            FastRng { state: rng::wrapped(self.rng_seed + query_id) },
        );
    }
}

/// `index` is the point at a physical position, and `d` the distance there.
pub open spec fn shows(
    order: Seq<usize>,
    distance: spec_fn(int) -> Single,
    index: i32,
    d: Single,
) -> bool {
    exists|v: int| 0 <= v < order.len() && #[trigger] order[v] == index && d == distance(v)
}

/// An answer presents `found` different points of those in `order`, each with its distance,
/// nearest first, and then placeholders.
pub open spec fn presents(
    indices: Seq<i32>,
    distances: Seq<Single>,
    found: int,
    order: Seq<usize>,
    distance: spec_fn(int) -> Single,
) -> bool {
    &&& 0 <= found <= indices.len()
    &&& indices.len() == distances.len()
    &&& forall|i: int|
        0 <= i < found ==> 0 <= #[trigger] indices[i] < order.len() && shows(
            order,
            distance,
            indices[i],
            distances[i],
        )
    &&& forall|i: int, j: int| 0 <= i < j < found ==> #[trigger] indices[i] != #[trigger] indices[j]
    &&& forall|i: int, j: int|
        0 <= i < j < found ==> (#[trigger] distances[i]).total() <= (#[trigger] distances[j]).total()
    &&& forall|i: int| found <= i < indices.len() ==> #[trigger] indices[i] == -1
    &&& forall|i: int|
        found <= i < distances.len() ==> #[trigger] distances[i] == Single::spec_infinity()
}

/// An answer of `k` entries gives physical positions by the names of their points, with what is
/// shown for them, and is made up with placeholders at an infinite distance.
pub open spec fn named(
    order: Seq<usize>,
    k: int,
    answer: (Seq<i32>, Seq<Single>),
    chosen: Seq<i32>,
    shown: Seq<Single>,
) -> bool {
    &&& answer.0.len() == k
    &&& answer.1.len() == k
    &&& chosen.len() == shown.len()
    &&& chosen.len() <= k
    &&& forall|i: int|
        0 <= i < chosen.len() ==> #[trigger] answer.0[i] == order[chosen[i] as int] as i32
    &&& forall|i: int| 0 <= i < chosen.len() ==> #[trigger] answer.1[i] == shown[i]
    &&& forall|i: int| chosen.len() <= i < k ==> #[trigger] answer.0[i] == -1
    &&& forall|i: int|
        chosen.len() <= i < k ==> #[trigger] answer.1[i] == Single::spec_infinity()
}

/// The smaller of two numbers.
pub open spec fn lesser(a: int, b: int) -> int {
    if a < b {
        a
    } else {
        b
    }
}

proof fn all_are_proper(entries: Seq<i32>)
    requires
        forall|i: int| 0 <= i < entries.len() ==> #[trigger] entries[i] >= 0,
    ensures
        graph::proper(entries) == entries,
    decreases entries.len(),
{
    reveal(Seq::filter);
    if entries.len() > 0 {
        let rest = entries.drop_last();
        assert forall|i: int| 0 <= i < rest.len() implies #[trigger] rest[i] >= 0 by {
            assert(rest[i] == entries[i]);
        }
        all_are_proper(rest);
        assert(entries.last() >= 0);
        assert(graph::proper(entries) =~= entries);
    }
}

proof fn reranking_presents(
    distance: spec_fn(int) -> Single,
    candidates: Seq<i32>,
    k: nat,
    width: nat,
    n: int,
)
    requires
        forall|i: int| 0 <= i < candidates.len() ==> 0 <= #[trigger] candidates[i] < n,
        forall|i: int, j: int|
            0 <= i < j < candidates.len() ==> #[trigger] candidates[i] != #[trigger] candidates[j],
    ensures
        ({
            let best = reranked(distance, candidates, k, width);
            &&& best.len() == lesser(k as int, lesser(width as int, candidates.len() as int))
            &&& forall|i: int|
                0 <= i < best.len() ==> 0 <= #[trigger] best[i].1 < n && best[i].0 == distance(
                    best[i].1 as int,
                )
            &&& forall|i: int, j: int|
                0 <= i < j < best.len() ==> #[trigger] best[i].1 != #[trigger] best[j].1
            &&& order::ascending(best)
        }),
{
    all_are_proper(candidates);
    let t = finalists(distance, candidates, width);
    let s = order::in_order(t.to_multiset());
    order::in_order_exists(t.to_multiset());
    t.to_multiset_ensures();
    s.to_multiset_ensures();
    assert forall|i: int, j: int| 0 <= i < t.len() && 0 <= j < t.len() && i != j implies t[i]
        != t[j] by {
        if i < j {
            assert(candidates[i] != candidates[j]);
        } else {
            assert(candidates[j] != candidates[i]);
        }
    }
    t.lemma_multiset_has_no_duplicates();
    s.lemma_multiset_has_no_duplicates_conv();
    assert forall|i: int| 0 <= i < s.len() implies 0 <= #[trigger] s[i].1 < n && s[i].0 == distance(
        s[i].1 as int,
    ) by {
        assert(s.contains(s[i]));
        assert(t.to_multiset().count(s[i]) > 0);
        assert(t.contains(s[i]));
        let c = choose|c: int| 0 <= c < t.len() && t[c] == s[i];
        assert(0 <= candidates[c] < n);
    }
    assert forall|i: int, j: int| 0 <= i < j < s.len() implies #[trigger] s[i].1
        != #[trigger] s[j].1 by {
        assert(s[i] != s[j]);
    }
    assert(reranked(distance, candidates, k, width) =~= s.take(lesser(k as int, s.len() as int)));
}

impl<D: Distance, K: Fn(Single) -> Single> NNDescentIndex<D, K> {
    /// The number of points in the answer to a quantized query.
    pub open spec fn presented(
        p: model::Progress,
        k: usize,
        candidate_width: usize,
        rerank_width: usize,
    ) -> int {
        let found = model::indices_of(p).len() as int;
        if widths::reranks(k, candidate_width, rerank_width) {
            lesser(k as int, lesser(rerank_width as int, found))
        } else {
            lesser(k as int, found)
        }
    }

    /// The distances that are shown for a quantized query: those of the search, or the index's own
    /// where candidates are ranked again.
    pub open spec fn shown_distances(
        &self,
        tree_query: Seq<Single>,
        distance: spec_fn(int) -> Single,
        k: usize,
        candidate_width: usize,
        rerank_width: usize,
    ) -> spec_fn(int) -> Single {
        if widths::reranks(k, candidate_width, rerank_width) {
            self.distances(tree_query)
        } else {
            distance
        }
    }

    /// A quantized query is answered with the nearest, by the index's own distance, of the first
    /// `rerank_width` candidates of the search where these are ranked again, and with its first
    /// candidates elsewhere.
    ///
    /// Candidates are ranked again where a rerank width goes with an explicit candidate width, or
    /// exceeds `k` without one.
    pub proof fn quantized_answers_keep_the_nearest(
        self,
        tree_query: Seq<Single>,
        distance: spec_fn(int) -> Single,
        p: model::Progress,
        k: usize,
        candidate_width: usize,
        rerank_width: usize,
    )
        requires
            self.wf(),
            model::are_results(
                distance,
                self.n_points as int,
                widths::resolved(k, candidate_width, rerank_width) as nat,
                model::indices_of(p),
                model::distances_of(p),
            ),
        ensures
            exists|chosen: Seq<i32>, shown: Seq<Single>|
                {
                    &&& #[trigger] named(
                        self.vertex_order@,
                        k as int,
                        self.quantized_answer(
                            tree_query,
                            p,
                            k,
                            candidate_width,
                            rerank_width,
                        ),
                        chosen,
                        shown,
                    )
                    &&& if rerank_width > 0 && (candidate_width > 0 || rerank_width > k) {
                        nearest_of_first(
                            |i: int|
                                self.distance.between(
                                    tree_query,
                                    layout::row(self.data@, self.dim as int, i),
                                ),
                            model::indices_of(p),
                            k as int,
                            rerank_width as int,
                            chosen,
                            shown,
                        )
                    } else {
                        let m = lesser(k as int, model::indices_of(p).len() as int);
                        &&& chosen == model::indices_of(p).take(m)
                        &&& shown == model::distances_of(p).take(m)
                    }
                },
    {
        let found = model::indices_of(p);
        let near = model::distances_of(p);
        let m = lesser(k as int, found.len() as int);
        let own = self.distances(tree_query);
        let answer = self.quantized_answer(tree_query, p, k, candidate_width, rerank_width);
        if widths::reranks(k, candidate_width, rerank_width) {
            let best = reranked(own, found, k as nat, rerank_width as nat);
            let chosen = best.map_values(|e: (Single, i32)| e.1);
            let shown = best.map_values(|e: (Single, i32)| e.0);
            reranking_keeps_the_nearest(own, found, k as nat, rerank_width as nat);
            all_are_proper(found);
            assert(found.filter(|v: i32| v >= 0) == graph::proper(found));
            assert(own =~= (|i: int|
                self.distance.between(tree_query, layout::row(self.data@, self.dim as int, i))));
            assert forall|i: int| 0 <= i < chosen.len() implies #[trigger] chosen[i] >= 0 by {
                let c = choose|c: int|
                    0 <= c < rerank_width && c < found.len() && found[c] == chosen[i];
                assert(found[c] >= 0);
            }
            assert(named(self.vertex_order@, k as int, answer, chosen, shown));
        } else {
            let chosen = found.take(m);
            let shown = near.take(m);
            assert forall|i: int| 0 <= i < chosen.len() implies #[trigger] chosen[i] >= 0 by {
                assert(found[i] >= 0);
            }
            assert(named(self.vertex_order@, k as int, answer, chosen, shown));
        }
    }

    /// A quantized query is answered with different points, each with its distance, nearest first
    /// by the distances that are shown, and then with placeholders; whether or not candidates are
    /// ranked again.
    pub proof fn quantized_answers_are_ranked(
        self,
        tree_query: Seq<Single>,
        distance: spec_fn(int) -> Single,
        p: model::Progress,
        k: usize,
        candidate_width: usize,
        rerank_width: usize,
    )
        requires
            self.wf(),
            model::are_results(
                distance,
                self.n_points as int,
                widths::resolved(k, candidate_width, rerank_width) as nat,
                model::indices_of(p),
                model::distances_of(p),
            ),
        ensures
            ({
                let (indices, distances) = self.quantized_answer(
                    tree_query,
                    p,
                    k,
                    candidate_width,
                    rerank_width,
                );
                &&& indices.len() == k
                &&& presents(
                    indices,
                    distances,
                    Self::presented(p, k, candidate_width, rerank_width),
                    self.vertex_order@,
                    self.shown_distances(tree_query, distance, k, candidate_width, rerank_width),
                )
            }),
    {
        let n = self.n_points as int;
        let candidates = model::indices_of(p);
        let near = model::distances_of(p);
        let (indices, distances) = self.quantized_answer(
            tree_query,
            p,
            k,
            candidate_width,
            rerank_width,
        );
        let found = Self::presented(p, k, candidate_width, rerank_width);
        let best = reranked(
            self.distances(tree_query),
            candidates,
            k as nat,
            rerank_width as nat,
        );
        reranking_presents(
            self.distances(tree_query),
            candidates,
            k as nat,
            rerank_width as nat,
            n,
        );
        let again = widths::reranks(k, candidate_width, rerank_width);
        let ids = if again {
            best.map_values(|e: (Single, i32)| e.1)
        } else {
            candidates
        };
        assert forall|i: int| 0 <= i < found implies 0 <= #[trigger] ids[i] < n by {
            if again {
                assert(0 <= best[i].1 < n);
            }
        }
        let shown = self.shown_distances(tree_query, distance, k, candidate_width, rerank_width);
        assert forall|i: int| 0 <= i < found implies 0 <= #[trigger] indices[i] < n && indices[i]
            == self.vertex_order@[ids[i] as int] && shows(
            self.vertex_order@,
            shown,
            indices[i],
            distances[i],
        ) by {
            assert(0 <= ids[i] < n);
            assert(self.vertex_order@[ids[i] as int] < n);
            if again {
                assert(best[i].0 == shown(best[i].1 as int));
            } else {
                assert(near[i] == distance(candidates[i] as int));
            }
        }
        assert forall|i: int, j: int| 0 <= i < j < found implies #[trigger] indices[i]
            != #[trigger] indices[j] by {
            if again {
                assert(best[i].1 != best[j].1);
            }
            assert(ids[i] != ids[j]);
            assert(indices[i] == self.vertex_order@[ids[i] as int]);
            assert(indices[j] == self.vertex_order@[ids[j] as int]);
        }
        assert forall|i: int, j: int| 0 <= i < j < found implies (
        #[trigger] distances[i]).total() <= (#[trigger] distances[j]).total() by {
            if again {
                assert(order::key(best[i]) <= order::key(best[j]));
            } else {
                assert(near[i].total() <= near[j].total());
            }
        }
    }
}

/// At most this many queries are answered one after the other.
pub const MAX_SEQUENTIAL_QUERIES: usize = 4;

/// Add the entries of one result to others.
fn append<T: Copy>(all: &mut Vec<T>, one: &Vec<T>)
    ensures
        final(all)@ == old(all)@ + one@,
{
    let mut i: usize = 0;
    while i < one.len()
        invariant
            i <= one@.len(),
            all@ == old(all)@ + one@.take(i as int),
        decreases one@.len() - i,
    {
        all.push(one[i]);
        i = i + 1;
        assert(all@ =~= old(all)@ + one@.take(i as int));
    }
    assert(one@.take(i as int) =~= one@);
}

impl<D: Distance, K: Fn(Single) -> Single> NNDescentIndex<D, K> {
    /// The answers to several queries: `k` indices and `k` distances per query, each query
    /// answered by itself.
    pub open spec fn answers_all<
        M: Fn(&[Single], &[Single], Single) -> Single,
        Q,
        B: Fn(Single, Single, Single) -> Single,
        S,
        C,
    >(
        &self,
        queries: Seq<Single>,
        n_queries: int,
        k: nat,
        epsilon: Single,
        arithmetic: Arithmetic<M, Q, B, S, C>,
        r: (Seq<i32>, Seq<Single>),
    ) -> bool {
        &&& r.0.len() == n_queries * k
        &&& r.1.len() == n_queries * k
        &&& forall|i: int|
            0 <= i < n_queries ==> #[trigger] layout::row(r.0, k as int, i) == self.answer_indices(
                layout::row(queries, self.dim as int, i),
                i,
                k,
                epsilon,
                arithmetic,
            )
        &&& forall|i: int|
            0 <= i < n_queries ==> #[trigger] layout::row(r.1, k as int, i)
                == self.answer_distances(
                layout::row(queries, self.dim as int, i),
                i,
                k,
                epsilon,
                arithmetic,
            )
    }

    /// Query `i` of several is answered in row `i`, as query number `i`.
    pub proof fn queries_are_answered_in_order<
        M: Fn(&[Single], &[Single], Single) -> Single,
        Q,
        B: Fn(Single, Single, Single) -> Single,
        S,
        C,
    >(
        self,
        queries: Seq<Single>,
        n: int,
        k: nat,
        epsilon: Single,
        arithmetic: Arithmetic<M, Q, B, S, C>,
        all: (Seq<i32>, Seq<Single>),
        i: int,
    )
        requires
            self.answers_all(queries, n, k, epsilon, arithmetic, all),
            0 <= i < n,
        ensures
            ({
                let query = queries.subrange(i * self.dim, i * self.dim + self.dim);
                let from = (i * k) as int;
                let to = (i * k + k) as int;
                &&& all.0.subrange(from, to) == self.answer_indices(
                    query,
                    i,
                    k,
                    epsilon,
                    arithmetic,
                )
                &&& all.1.subrange(from, to) == self.answer_distances(
                    query,
                    i,
                    k,
                    epsilon,
                    arithmetic,
                )
                &&& all.0.len() == n * k
                &&& all.1.len() == n * k
            }),
    {
        assert(layout::row(all.0, k as int, i) == all.0.subrange(
            (i * k) as int,
            (i * k + k) as int,
        ));
        assert(layout::row(all.1, k as int, i) == all.1.subrange(
            (i * k) as int,
            (i * k + k) as int,
        ));
    }

    /// A query's answer does not depend on the queries after it: fewer queries get the first of
    /// the answers that more get, and the first query is answered as it is alone.
    pub proof fn queries_are_answered_apart<
        M: Fn(&[Single], &[Single], Single) -> Single,
        Q,
        B: Fn(Single, Single, Single) -> Single,
        S,
        C,
    >(
        self,
        queries: Seq<Single>,
        n: int,
        fewer: Seq<Single>,
        m: int,
        k: nat,
        epsilon: Single,
        arithmetic: Arithmetic<M, Q, B, S, C>,
        all: (Seq<i32>, Seq<Single>),
        first: (Seq<i32>, Seq<Single>),
    )
        requires
            0 <= m <= n,
            forall|i: int|
                0 <= i < m ==> #[trigger] layout::row(fewer, self.dim as int, i) == layout::row(
                    queries,
                    self.dim as int,
                    i,
                ),
            self.answers_all(queries, n, k, epsilon, arithmetic, all),
            self.answers_all(fewer, m, k, epsilon, arithmetic, first),
        ensures
            first.0 == all.0.take(m * k),
            first.1 == all.1.take(m * k),
            n > 0 ==> layout::row(all.0, k as int, 0) == self.answer_indices(
                layout::row(queries, self.dim as int, 0),
                0,
                k,
                epsilon,
                arithmetic,
            ),
            n > 0 ==> layout::row(all.1, k as int, 0) == self.answer_distances(
                layout::row(queries, self.dim as int, 0),
                0,
                k,
                epsilon,
                arithmetic,
            ),
    {
        assert forall|i: int| 0 <= i < m implies #[trigger] layout::row(first.0, k as int, i)
            == layout::row(all.0, k as int, i) by {
            assert(layout::row(fewer, self.dim as int, i) == layout::row(
                queries,
                self.dim as int,
                i,
            ));
        }
        assert forall|i: int| 0 <= i < m implies #[trigger] layout::row(first.1, k as int, i)
            == layout::row(all.1, k as int, i) by {
            assert(layout::row(fewer, self.dim as int, i) == layout::row(
                queries,
                self.dim as int,
                i,
            ));
        }
        layout::first_rows_are_a_prefix(all.0, n, first.0, m, k as int);
        layout::first_rows_are_a_prefix(all.1, n, first.1, m, k as int);
    }
}

impl<D: Distance + Sync, K: Fn(Single) -> Single + Sync> NNDescentIndex<D, K> {
    /// Query for the `k` nearest neighbors of query points.
    ///
    /// Returns indices and distances, `k` per query: the points in original data order, and the
    /// distances to them. A few queries are answered one after the other, more in parallel, with
    /// the same answers.
    pub fn query<
        M: Fn(&[Single], &[Single], Single) -> Single + Sync,
        Q: Sync,
        B: Fn(Single, Single, Single) -> Single + Sync,
        S: Sync,
        C: Sync,
    >(
        &self,
        queries: &[Single],
        n_queries: usize,
        k: usize,
        epsilon: Single,
        arithmetic: &Arithmetic<M, Q, B, S, C>,
    ) -> (r: (Vec<i32>, Vec<Single>))
        requires
            self.wf(),
            self.has_data(),
            n_queries * self.dim <= queries@.len(),
            n_queries == 0 || k == 0 || self.n_points > 0,
            arithmetic.serves_vectors(),
        ensures
            self.answers_all(
                queries@,
                n_queries as int,
                k as nat,
                epsilon,
                *arithmetic,
                (r.0@, r.1@),
            ),
    {
        let results: Vec<(Vec<i32>, Vec<Single>)> = if n_queries <= MAX_SEQUENTIAL_QUERIES {
            let mut workspace = SearchWorkspace::new(self.n_points, k);
            let mut results: Vec<(Vec<i32>, Vec<Single>)> = Vec::with_capacity(n_queries);
            let mut i: usize = 0;
            while i < n_queries
                invariant
                    i <= n_queries,
                    self.wf(),
                    self.has_data(),
                    n_queries * self.dim <= queries@.len(),
                    n_queries == 0 || k == 0 || self.n_points > 0,
                    arithmetic.serves_vectors(),
                    workspace.wf(),
                    results@.len() == i,
                    forall|j: int|
                        0 <= j < i ==> self.answers(
                            queries@,
                            j,
                            k as nat,
                            epsilon,
                            *arithmetic,
                            #[trigger] results@[j],
                        ),
                decreases n_queries - i,
            {
                let answer = self.process_query_with_workspace(
                    row_of(queries, n_queries, self.dim, i),
                    i,
                    k,
                    epsilon,
                    &mut workspace,
                    arithmetic,
                );
                results.push(answer);
                i = i + 1;
            }
            results
        } else {
            let one = |i: usize| -> (r: (Vec<i32>, Vec<Single>))
                requires
                    i < n_queries,
                ensures
                    self.answers(queries@, i as int, k as nat, epsilon, *arithmetic, r),
                {
                    self.process_query(
                        row_of(queries, n_queries, self.dim, i),
                        i,
                        k,
                        epsilon,
                        arithmetic,
                    )
                };
            let results: Vec<(Vec<i32>, Vec<Single>)> = par_map(n_queries, one);
            assert forall|j: int| 0 <= j < n_queries implies self.answers(
                queries@,
                j,
                k as nat,
                epsilon,
                *arithmetic,
                #[trigger] results@[j],
            ) by {
                assert(call_ensures(one, (j as usize,), results@[j as usize as int]));
            }
            results
        };
        let mut all_indices: Vec<i32> = Vec::new();
        let mut all_distances: Vec<Single> = Vec::new();
        let mut i: usize = 0;
        while i < n_queries
            invariant
                i <= n_queries,
                results@.len() == n_queries,
                forall|j: int|
                    0 <= j < n_queries ==> self.answers(
                        queries@,
                        j,
                        k as nat,
                        epsilon,
                        *arithmetic,
                        #[trigger] results@[j],
                    ),
                all_indices@.len() == i * k,
                all_distances@.len() == i * k,
                forall|j: int|
                    0 <= j < i ==> #[trigger] layout::row(all_indices@, k as int, j)
                        == results@[j].0@,
                forall|j: int|
                    0 <= j < i ==> #[trigger] layout::row(all_distances@, k as int, j)
                        == results@[j].1@,
            decreases n_queries - i,
        {
            let ghost before = (all_indices@, all_distances@);
            assert(self.answers(
                queries@,
                i as int,
                k as nat,
                epsilon,
                *arithmetic,
                results@[i as int],
            ));
            append(&mut all_indices, &results[i].0);
            append(&mut all_distances, &results[i].1);
            proof {
                layout::row_fits(i as int, n_queries as int, k as int);
                assert forall|j: int| 0 <= j < i + 1 implies #[trigger] layout::row(
                    all_indices@,
                    k as int,
                    j,
                ) == results@[j].0@ by {
                    layout::row_fits(j, i + 1, k as int);
                    if j < i {
                        layout::row_fits(j, i as int, k as int);
                        assert(layout::row(all_indices@, k as int, j) =~= layout::row(
                            before.0,
                            k as int,
                            j,
                        ));
                    } else {
                        assert(layout::row(all_indices@, k as int, j) =~= results@[j].0@);
                    }
                }
                assert forall|j: int| 0 <= j < i + 1 implies #[trigger] layout::row(
                    all_distances@,
                    k as int,
                    j,
                ) == results@[j].1@ by {
                    layout::row_fits(j, i + 1, k as int);
                    if j < i {
                        layout::row_fits(j, i as int, k as int);
                        assert(layout::row(all_distances@, k as int, j) =~= layout::row(
                            before.1,
                            k as int,
                            j,
                        ));
                    } else {
                        assert(layout::row(all_distances@, k as int, j) =~= results@[j].1@);
                    }
                }
            }
            i = i + 1;
        }
        proof {
            assert forall|j: int| 0 <= j < n_queries implies #[trigger] layout::row(
                all_indices@,
                k as int,
                j,
            ) == self.answer_indices(
                layout::row(queries@, self.dim as int, j),
                j,
                k as nat,
                epsilon,
                *arithmetic,
            ) by {
                assert(self.answers(
                    queries@,
                    j,
                    k as nat,
                    epsilon,
                    *arithmetic,
                    results@[j],
                ));
            }
            assert forall|j: int| 0 <= j < n_queries implies #[trigger] layout::row(
                all_distances@,
                k as int,
                j,
            ) == self.answer_distances(
                layout::row(queries@, self.dim as int, j),
                j,
                k as nat,
                epsilon,
                *arithmetic,
            ) by {
                assert(self.answers(
                    queries@,
                    j,
                    k as nat,
                    epsilon,
                    *arithmetic,
                    results@[j],
                ));
            }
        }
        (all_indices, all_distances)
    }

    /// `r` answers query `i`.
    spec fn answers<
        M: Fn(&[Single], &[Single], Single) -> Single,
        Q,
        B: Fn(Single, Single, Single) -> Single,
        S,
        C,
    >(
        &self,
        queries: Seq<Single>,
        i: int,
        k: nat,
        epsilon: Single,
        arithmetic: Arithmetic<M, Q, B, S, C>,
        r: (Vec<i32>, Vec<Single>),
    ) -> bool {
        let query = layout::row(queries, self.dim as int, i);
        &&& r.0@ == self.answer_indices(query, i, k, epsilon, arithmetic)
        &&& r.1@ == self.answer_distances(query, i, k, epsilon, arithmetic)
        &&& r.0@.len() == k
        &&& r.1@.len() == k
    }
}

/// What is kept of a prefix is a prefix of what is kept.
proof fn filter_prefix(s: Seq<i32>, n: int)
    requires
        0 <= n <= s.len(),
    ensures
        graph::proper(s.take(n)).len() <= graph::proper(s).len(),
        graph::proper(s.take(n)) == graph::proper(s).take(graph::proper(s.take(n)).len() as int),
    decreases s.len() - n,
{
    reveal(Seq::filter);
    if n < s.len() {
        filter_prefix(s, n + 1);
        assert(s.take(n + 1).drop_last() =~= s.take(n));
        let all = graph::proper(s);
        let here = graph::proper(s.take(n));
        let more = graph::proper(s.take(n + 1));
        assert(here =~= more.take(here.len() as int));
        assert(here =~= all.take(here.len() as int));
    } else {
        assert(s.take(n) =~= s);
        assert(graph::proper(s) =~= graph::proper(s).take(graph::proper(s).len() as int));
    }
}

} // verus!
