//! Building an index: parameters, and the physical layout for search.

use crate::calls;
use crate::distance::metric;
use crate::distance::{Distance, Metric};
use crate::graph::SearchGraph;
use crate::index::query::NNDescentIndex;
use crate::layout;
use crate::layout::{invert, reorder_rows, LayoutError};
use crate::single::Single;
use crate::tree::FlatTree;
use vstd::arithmetic::power2;
use vstd::arithmetic::power2::{
    lemma2_to64, lemma_pow2_strictly_increases, lemma_pow2_unfold,
};
use vstd::prelude::*;

verus! {

/// Bit pattern of `0.001`.
pub const DEFAULT_DELTA_BITS: u32 = 0x3a83_126f;

/// The number of trees where none is given.
pub const DEFAULT_TREES: usize = 8;

/// Bit pattern of `1.0`.
pub const DEFAULT_DIVERSIFY_BITS: u32 = 0x3f80_0000;

/// Bit pattern of `1.5`.
pub const DEFAULT_PRUNING_BITS: u32 = 0x3fc0_0000;

/// The depth limit of trees.
pub const MAX_TREE_DEPTH: usize = 200;

/// Parameters of graph construction.
#[derive(Clone, Copy, Debug)]
pub struct NNDescentParams {
    /// Number of neighbors in the graph.
    pub n_neighbors: usize,
    /// Number of trees.
    pub n_trees: usize,
    /// Leaf size of trees.
    pub leaf_size: usize,
    /// Maximum candidates per iteration.
    pub max_candidates: usize,
    /// Number of iterations.
    pub n_iters: usize,
    /// Convergence threshold.
    pub delta: Single,
    /// Whether trees split by direction.
    pub angular: bool,
    /// The depth limit of trees.
    pub max_depth: usize,
    /// Whether to report progress.
    pub verbose: bool,
}

/// What graph construction has come to.
pub struct Construction {
    /// Neighbors of each point, nearest first.
    pub neighbor_indices: Vec<i32>,
    /// Their distances.
    pub neighbor_distances: Vec<Single>,
    /// The trees that construction started from.
    pub forest: Vec<FlatTree>,
    /// The graph to search, in input order.
    pub search_graph: SearchGraph,
    /// The smallest distance in the graph.
    pub min_distance: Single,
}

/// `e` is the number of doublings from one that reach `n`.
pub open spec fn is_ceil_log2(n: int, e: nat) -> bool {
    &&& n <= power2::pow2(e)
    &&& e > 0 ==> power2::pow2((e - 1) as nat) < n
}

/// The number of doublings from one that reach `n`: the binary logarithm, rounded up.
pub fn ceil_log2(n: usize) -> (e: usize)
    ensures
        is_ceil_log2(n as int, e as nat),
        e <= 64,
{
    let mut e: usize = 0;
    let mut power: u128 = 1;
    proof {
        lemma2_to64();
    }
    while power < n as u128
        invariant
            power == power2::pow2(e as nat),
            e > 0 ==> power2::pow2((e - 1) as nat) < n,
            e <= 64,
            power <= 0x1_0000_0000_0000_0000,
            e == 64 ==> power == 0x1_0000_0000_0000_0000,
        decreases 64 - e,
    {
        proof {
            lemma_pow2_unfold((e + 1) as nat);
            lemma2_to64();
            if e + 1 < 64 {
                lemma_pow2_strictly_increases((e + 1) as nat, 64);
            }
        }
        power = power * 2;
        e = e + 1;
    }
    e
}

/// A number moved into a range.
pub open spec fn clamped(x: int, low: int, high: int) -> int {
    if x < low {
        low
    } else if x > high {
        high
    } else {
        x
    }
}

/// Builder for an index.
pub struct NNDescentBuilder<'a> {
    /// Flattened data array, `dim` numbers per point.
    pub data: &'a [Single],
    /// Number of data points.
    pub n_points: usize,
    /// Dimension of each point.
    pub dim: usize,
    /// Distance metric.
    pub metric: Metric,
    /// Number of neighbors.
    pub n_neighbors: usize,
    /// Number of trees.
    pub n_trees: usize,
    /// Number of trees retained for query seeding.
    pub n_search_trees: usize,
    /// Number of leaves visited in each retained tree.
    pub search_tree_leaf_budget: usize,
    /// Leaf size of trees, where it is given.
    pub leaf_size: Option<usize>,
    /// Maximum candidates per iteration, where it is given.
    pub max_candidates: Option<usize>,
    /// Number of iterations, where it is given.
    pub n_iters: Option<usize>,
    /// Convergence threshold.
    pub delta: Single,
    /// Random seed.
    pub random_seed: u64,
    /// Whether to report progress.
    pub verbose: bool,
    /// Diversify probability.
    pub diversify_prob: Single,
    /// Pruning degree multiplier.
    pub pruning_degree_multiplier: Single,
}

/// The order of the first tree's points, or the input order where there is no tree.
pub open spec fn order_from(trees: Seq<FlatTree>, n: nat) -> Seq<usize> {
    if trees.len() > 0 {
        trees[0].indices@.map_values(
            |i: i32|
                if i >= 0 {
                    i as usize
                } else {
                    usize::MAX
                },
        )
    } else {
        Seq::new(n, |i: int| i as usize)
    }
}

/// The trees that are retained.
pub open spec fn retained(forest: Seq<FlatTree>, n_search_trees: nat) -> Seq<FlatTree> {
    forest.take(
        if n_search_trees < forest.len() {
            n_search_trees as int
        } else {
            forest.len() as int
        },
    )
}

/// A tree's points as physical positions; the rest of it as it is.
pub open spec fn is_remapped(tree: FlatTree, source: FlatTree, position: Seq<usize>) -> bool {
    &&& tree.indices@ == source.indices@.map_values(|id: i32| position[id as int] as i32)
    &&& tree.hyperplanes == source.hyperplanes
    &&& tree.offsets == source.offsets
    &&& tree.children == source.children
    &&& tree.dim == source.dim
    &&& tree.n_nodes == source.n_nodes
}

/// The physical order lists the points as the leaves of the first retained tree do, one after the
/// other; without a retained tree it is the order of the input. The retained trees are the first of
/// the forest, as many as asked for and as there are.
pub proof fn the_first_tree_gives_the_order(
    forest: Seq<FlatTree>,
    n_search_trees: nat,
    n: nat,
    i: int,
)
    ensures
        ({
            let trees = retained(forest, n_search_trees);
            let order = order_from(trees, n);
            &&& trees.is_prefix_of(forest)
            &&& n_search_trees <= forest.len() ==> trees.len() == n_search_trees
            &&& forest.len() <= n_search_trees ==> trees == forest
            &&& trees.len() > 0 ==> order.len() == forest[0].indices@.len()
            &&& trees.len() > 0 && 0 <= i < order.len() && forest[0].indices@[i] >= 0 ==> order[i]
                == forest[0].indices@[i]
            &&& trees.len() == 0 ==> order.len() == n
            &&& trees.len() == 0 && 0 <= i < n && i <= usize::MAX ==> order[i] == i
        }),
{
    let trees = retained(forest, n_search_trees);
    assert(forest.take(trees.len() as int) =~= trees);
    if forest.len() <= n_search_trees {
        assert(trees =~= forest);
    }
}

fn tree_order(trees: &Vec<FlatTree>, n_points: usize) -> (order: Vec<usize>)
    ensures
        order@ == order_from(trees@, n_points as nat),
{
    let mut order: Vec<usize> = Vec::new();
    let mut i: usize = 0;
    if trees.len() > 0 {
        while i < trees[0].indices.len()
            invariant
                trees@.len() > 0,
                i <= trees@[0].indices@.len(),
                order@ == order_from(trees@, n_points as nat).take(i as int),
            decreases trees@[0].indices@.len() - i,
        {
            let id: i32 = trees[0].indices[i];
            if id >= 0 {
                order.push(id as usize);
            } else {
                order.push(usize::MAX);
            }
            i = i + 1;
            assert(order@ =~= order_from(trees@, n_points as nat).take(i as int));
        }
    } else {
        while i < n_points
            invariant
                trees@.len() == 0,
                i <= n_points,
                order@ == order_from(trees@, n_points as nat).take(i as int),
            decreases n_points - i,
        {
            order.push(i);
            i = i + 1;
            assert(order@ =~= order_from(trees@, n_points as nat).take(i as int));
        }
    }
    assert(order@ =~= order_from(trees@, n_points as nat));
    order
}

impl<'a> NNDescentBuilder<'a> {
    /// Create a new builder over a flattened data array of `n_points` points of dimension `dim`.
    pub fn new(data: &'a [Single], n_points: usize, dim: usize) -> (r: NNDescentBuilder<'a>)
        ensures
            r == (NNDescentBuilder {
                data,
                n_points,
                dim,
                metric: Metric::Euclidean,
                n_neighbors: 30,
                n_trees: DEFAULT_TREES,
                n_search_trees: 1,
                search_tree_leaf_budget: 1,
                leaf_size: None,
                max_candidates: None,
                n_iters: None,
                delta: Single { bits: DEFAULT_DELTA_BITS },
                random_seed: 42,
                verbose: false,
                diversify_prob: Single { bits: DEFAULT_DIVERSIFY_BITS },
                pruning_degree_multiplier: Single { bits: DEFAULT_PRUNING_BITS },
            }),
    {
        NNDescentBuilder {
            data,
            n_points,
            dim,
            metric: Metric::Euclidean,
            n_neighbors: 30,
            n_trees: DEFAULT_TREES,
            n_search_trees: 1,
            search_tree_leaf_budget: 1,
            leaf_size: None,
            max_candidates: None,
            n_iters: None,
            delta: Single { bits: DEFAULT_DELTA_BITS },
            random_seed: 42,
            verbose: false,
            diversify_prob: Single { bits: DEFAULT_DIVERSIFY_BITS },
            pruning_degree_multiplier: Single { bits: DEFAULT_PRUNING_BITS },
        }
    }

    /// Set the distance metric.
    pub fn metric(self, metric: Metric) -> (r: Self)
        ensures
            r == (NNDescentBuilder { metric, ..self }),
    {
        NNDescentBuilder { metric, ..self }
    }

    /// Set the distance metric from its name; an unknown name changes nothing.
    pub fn metric_str(self, name: &str) -> (r: Self)
        ensures
            r == (NNDescentBuilder { metric: r.metric, ..self }),
            (exists|m: Metric| metric::name_of(m) == name@) ==> metric::name_of(r.metric)
                == name@,
            (forall|m: Metric| metric::name_of(m) != name@) ==> r.metric == self.metric,
    {
        match Metric::from_str(name) {
            Some(m) => NNDescentBuilder { metric: m, ..self },
            None => self,
        }
    }

    /// Set the number of neighbors.
    pub fn n_neighbors(self, n: usize) -> (r: Self)
        ensures
            r == (NNDescentBuilder { n_neighbors: n, ..self }),
    {
        NNDescentBuilder { n_neighbors: n, ..self }
    }

    /// Set the number of trees.
    pub fn n_trees(self, n: usize) -> (r: Self)
        ensures
            r == (NNDescentBuilder { n_trees: n, ..self }),
    {
        NNDescentBuilder { n_trees: n, ..self }
    }

    /// Set the number of construction trees retained for query seeding.
    ///
    /// This is independent of `n_trees`, which controls construction. Values larger than the
    /// constructed forest are clamped to the forest size.
    pub fn n_search_trees(self, n: usize) -> (r: Self)
        ensures
            r == (NNDescentBuilder { n_search_trees: n, ..self }),
    {
        NNDescentBuilder { n_search_trees: n, ..self }
    }

    /// Set the number of leaves visited in each retained search tree, at least one.
    pub fn search_tree_leaf_budget(self, n: usize) -> (r: Self)
        ensures
            r == (NNDescentBuilder {
                search_tree_leaf_budget: if n < 1 {
                    1
                } else {
                    n
                },
                ..self
            }),
    {
        NNDescentBuilder {
            search_tree_leaf_budget: if n < 1 {
                1
            } else {
                n
            },
            ..self
        }
    }

    /// Set the leaf size for trees.
    pub fn leaf_size(self, size: usize) -> (r: Self)
        ensures
            r == (NNDescentBuilder { leaf_size: Some(size), ..self }),
    {
        NNDescentBuilder { leaf_size: Some(size), ..self }
    }

    /// Set the maximum candidates per iteration.
    pub fn max_candidates(self, n: usize) -> (r: Self)
        ensures
            r == (NNDescentBuilder { max_candidates: Some(n), ..self }),
    {
        NNDescentBuilder { max_candidates: Some(n), ..self }
    }

    /// Set the number of NN-descent iterations.
    pub fn n_iters(self, n: usize) -> (r: Self)
        ensures
            r == (NNDescentBuilder { n_iters: Some(n), ..self }),
    {
        NNDescentBuilder { n_iters: Some(n), ..self }
    }

    /// Set the convergence delta.
    pub fn delta(self, d: Single) -> (r: Self)
        ensures
            r == (NNDescentBuilder { delta: d, ..self }),
    {
        NNDescentBuilder { delta: d, ..self }
    }

    /// Set the random seed.
    pub fn random_seed(self, seed: u64) -> (r: Self)
        ensures
            r == (NNDescentBuilder { random_seed: seed, ..self }),
    {
        NNDescentBuilder { random_seed: seed, ..self }
    }

    /// Enable verbose output.
    pub fn verbose(self, v: bool) -> (r: Self)
        ensures
            r == (NNDescentBuilder { verbose: v, ..self }),
    {
        NNDescentBuilder { verbose: v, ..self }
    }

    /// Set the diversify probability (0 is no diversification, 1 is full).
    pub fn diversify_prob(self, prob: Single) -> (r: Self)
        ensures
            r == (NNDescentBuilder { diversify_prob: prob, ..self }),
    {
        NNDescentBuilder { diversify_prob: prob, ..self }
    }

    /// Set the pruning degree multiplier (the largest degree is this times the number of
    /// neighbors).
    pub fn pruning_degree_multiplier(self, mult: Single) -> (r: Self)
        ensures
            r == (NNDescentBuilder { pruning_degree_multiplier: mult, ..self }),
    {
        NNDescentBuilder { pruning_degree_multiplier: mult, ..self }
    }

    /// The parameters of graph construction: those that are given, and defaults that follow from
    /// the number of neighbors and of points for the others.
    pub fn params(&self) -> (r: NNDescentParams)
        ensures
            r.n_neighbors == self.n_neighbors,
            r.n_trees == self.n_trees,
            r.leaf_size == match self.leaf_size {
                Some(size) => size as int,
                None => clamped(5 * self.n_neighbors, 60, 256),
            },
            r.max_candidates == match self.max_candidates {
                Some(n) => n as int,
                None => clamped(self.n_neighbors as int, 0, 60),
            },
            self.n_iters matches Some(n) ==> r.n_iters == n,
            self.n_iters is None ==> exists|e: nat| #[trigger]
                is_ceil_log2(self.n_points as int, e) && r.n_iters == clamped(e as int, 5, 64),
            r.delta == self.delta,
            r.angular == self.metric.angular(),
            r.max_depth == MAX_TREE_DEPTH,
            r.verbose == self.verbose,
    {
        let leaf_size: usize = match self.leaf_size {
            Some(size) => size,
            None => if self.n_neighbors >= 52 {
                256
            } else if self.n_neighbors < 12 {
                60
            } else {
                5 * self.n_neighbors
            },
        };
        let max_candidates: usize = match self.max_candidates {
            Some(n) => n,
            None => if self.n_neighbors < 60 {
                self.n_neighbors
            } else {
                60
            },
        };
        let n_iters: usize = match self.n_iters {
            Some(n) => n,
            None => {
                let doublings: usize = ceil_log2(self.n_points);
                assert(is_ceil_log2(self.n_points as int, doublings as nat));
                if doublings < 5 {
                    5
                } else {
                    doublings
                }
            },
        };
        NNDescentParams {
            n_neighbors: self.n_neighbors,
            n_trees: self.n_trees,
            leaf_size,
            max_candidates,
            n_iters,
            delta: self.delta,
            angular: self.metric.is_angular(),
            max_depth: MAX_TREE_DEPTH,
            verbose: self.verbose,
        }
    }

    /// A construction is for this builder's data: its graph and the trees to be retained are sound
    /// and over as many points. What the first tree lists is left to be checked.
    pub open spec fn accepts(&self, construction: Construction) -> bool {
        &&& self.data@.len() == self.n_points * self.dim
        &&& construction.search_graph.wf()
        &&& construction.search_graph.n_vertices == self.n_points
        &&& forall|t: int|
            0 <= t < construction.forest@.len() && t < self.n_search_trees ==> {
                &&& (#[trigger] construction.forest@[t]).wf()
                &&& construction.forest@[t].dim == self.dim
                &&& t > 0 ==> forall|i: int|
                    0 <= i < construction.forest@[t].indices@.len() ==> 0
                        <= #[trigger] construction.forest@[t].indices@[i] < self.n_points
            }
    }

    /// `index` is what this builder makes of a construction, with the points in `order`.
    pub open spec fn lays_out<D: Distance, K: Fn(Single) -> Single>(
        &self,
        index: NNDescentIndex<D, K>,
        distance: D,
        correction: Option<K>,
        construction: Construction,
    ) -> bool {
        let trees = retained(construction.forest@, self.n_search_trees as nat);
        let order = order_from(trees, self.n_points as nat);
        let position = layout::inverse_of(order, self.n_points as int);
        &&& index.n_points == self.n_points
        &&& index.dim == self.dim
        &&& index.distance == distance
        &&& index.distance_correction == correction
        &&& index.n_neighbors == self.n_neighbors
        &&& index.neighbor_indices == construction.neighbor_indices
        &&& index.neighbor_distances@ == match correction {
            Some(f) => construction.neighbor_distances@.map_values(
                |d: Single| calls::image1(f, d),
            ),
            None => construction.neighbor_distances@,
        }
        &&& index.vertex_order@ == order
        &&& layout::rows_moved(index.data@, self.data@, self.dim as int, order)
        &&& index.search_graph.reorders(construction.search_graph, order)
        &&& index.search_trees@.len() == trees.len()
        &&& forall|t: int|
            0 <= t < trees.len() ==> is_remapped(
                #[trigger] index.search_trees@[t],
                trees[t],
                position,
            )
        &&& index.search_tree_leaf_budget == self.search_tree_leaf_budget
        &&& index.min_distance == construction.min_distance
        &&& index.rng_seed == self.random_seed
    }

    /// Lay a construction out for search with a distance function.
    ///
    /// The first retained tree gives the physical order: data rows, graph vertices and tree leaves
    /// are moved and renamed accordingly. It fails where that order does not list each point once.
    pub fn build_with_distance<D: Distance, K: Fn(Single) -> Single>(
        self,
        distance: D,
        correction: Option<K>,
        construction: Construction,
    ) -> (r: Result<NNDescentIndex<D, K>, LayoutError>)
        requires
            self.accepts(construction),
            correction matches Some(f) ==> calls::maps1(f),
        ensures
            ({
                let order = order_from(
                    retained(construction.forest@, self.n_search_trees as nat),
                    self.n_points as nat,
                );
                &&& r is Ok <==> layout::is_permutation(order, self.n_points as int)
                &&& r matches Err(e) ==> layout::fault(order, self.n_points as int) == Some(e)
            }),
            r matches Ok(index) ==> {
                &&& index.wf()
                &&& index.has_data()
                &&& self.lays_out(index, distance, correction, construction)
                &&& index.neighbor_indices@ == construction.neighbor_indices@
                &&& index.neighbor_distances@.len() == construction.neighbor_distances@.len()
                &&& forall|i: int|
                    0 <= i < construction.neighbor_distances@.len()
                        ==> #[trigger] index.neighbor_distances@[i] == match correction {
                        Some(f) => calls::image1(f, construction.neighbor_distances@[i]),
                        None => construction.neighbor_distances@[i],
                    }
                &&& index.search_trees@.len() > 0 ==> index.search_trees@[0].indices@ == Seq::new(
                    self.n_points as nat,
                    |i: int| i as i32,
                )
            },
    {
        let ghost made = construction;
        let ghost n = self.n_points as int;
        let Construction {
            neighbor_indices,
            neighbor_distances,
            forest,
            search_graph,
            min_distance,
        } = construction;
        let mut neighbor_distances = neighbor_distances;
        if let Some(f) = &correction {
            let length: usize = neighbor_distances.len();
            let mut i: usize = 0;
            while i < length
                invariant
                    i <= length,
                    length == neighbor_distances@.len(),
                    length == made.neighbor_distances@.len(),
                    calls::maps1(*f),
                    forall|j: int|
                        i <= j < length ==> #[trigger] neighbor_distances@[j]
                            == made.neighbor_distances@[j],
                    forall|j: int|
                        0 <= j < i ==> #[trigger] neighbor_distances@[j] == calls::image1(
                            *f,
                            made.neighbor_distances@[j],
                        ),
                decreases length - i,
            {
                assert(neighbor_distances@[i as int] == made.neighbor_distances@[i as int]);
                let d: Single = f(neighbor_distances[i]);
                neighbor_distances[i] = d;
                i = i + 1;
            }
            assert(neighbor_distances@ =~= made.neighbor_distances@.map_values(
                |d: Single| calls::image1(*f, d),
            ));
        }
        let mut search_trees = forest;
        search_trees.truncate(self.n_search_trees);
        let ghost trees = retained(made.forest@, self.n_search_trees as nat);
        assert(search_trees@ =~= trees);
        let vertex_order: Vec<usize> = tree_order(&search_trees, self.n_points);
        let old_to_new: Vec<usize> = match invert(vertex_order.as_slice(), self.n_points) {
            Ok(position) => position,
            Err(e) => {
                return Err(e);
            },
        };
        proof {
            layout::inverse_exists(vertex_order@, n);
            layout::inverse_is_unique(
                old_to_new@,
                layout::inverse_of(vertex_order@, n),
                vertex_order@,
            );
        }
        let length: usize = self.data.len();
        assert(vertex_order@.len() * self.dim <= length);
        let data = reorder_rows(
            self.data,
            self.n_points,
            self.dim,
            vertex_order.as_slice(),
        );
        let mut search_graph = search_graph;
        search_graph.reorder(vertex_order.as_slice());
        assert forall|t: int| 0 <= t < trees.len() implies (#[trigger] trees[t]).wf()
            && trees[t].dim == self.dim && forall|i: int|
            0 <= i < trees[t].indices@.len() ==> 0 <= #[trigger] trees[t].indices@[i] < n by {
            assert(trees[t] == made.forest@[t]);
            if t == 0 {
                assert forall|i: int| 0 <= i < trees[0].indices@.len() implies 0
                    <= #[trigger] trees[0].indices@[i] < n by {
                    assert(vertex_order@[i] < n);
                }
            }
        }
        let mut t: usize = 0;
        while t < search_trees.len()
            invariant
                t <= search_trees@.len(),
                search_trees@.len() == trees.len(),
                n == self.n_points,
                old_to_new@.len() == n,
                n <= i32::MAX,
                forall|v: int| 0 <= v < n ==> #[trigger] old_to_new@[v] < n,
                forall|u: int|
                    0 <= u < trees.len() ==> (#[trigger] trees[u]).wf() && trees[u].dim == self.dim
                        && forall|i: int|
                        0 <= i < trees[u].indices@.len() ==> 0 <= #[trigger] trees[u].indices@[i]
                            < n,
                forall|u: int| t <= u < trees.len() ==> #[trigger] search_trees@[u] == trees[u],
                forall|u: int|
                    0 <= u < t ==> (#[trigger] search_trees@[u]).wf() && is_remapped(
                        search_trees@[u],
                        trees[u],
                        old_to_new@,
                    ),
            decreases search_trees@.len() - t,
        {
            let ghost before = search_trees@;
            assert(search_trees@[t as int] == trees[t as int]);
            assert(trees[t as int].wf());
            search_trees[t].remap_indices(old_to_new.as_slice());
            assert forall|u: int| 0 <= u < t + 1 implies (#[trigger] search_trees@[u]).wf()
                && is_remapped(search_trees@[u], trees[u], old_to_new@) by {
                if u < t {
                    assert(search_trees@[u] == before[u]);
                }
            }
            t = t + 1;
        }
        let index = NNDescentIndex {
            data,
            n_points: self.n_points,
            dim: self.dim,
            distance,
            distance_correction: correction,
            n_neighbors: self.n_neighbors,
            neighbor_indices,
            neighbor_distances,
            search_graph,
            search_trees,
            search_tree_leaf_budget: self.search_tree_leaf_budget,
            vertex_order,
            min_distance,
            rng_seed: self.random_seed,
        };
        proof {
            assert forall|t: int| 0 <= t < index.search_trees@.len() implies {
                &&& (#[trigger] index.search_trees@[t]).wf()
                &&& index.search_trees@[t].dim == index.dim
                &&& forall|i: int|
                    0 <= i < index.search_trees@[t].indices@.len() ==> 0
                        <= #[trigger] index.search_trees@[t].indices@[i] < n
            } by {
                assert(is_remapped(index.search_trees@[t], trees[t], old_to_new@));
                assert(trees[t].wf());
                assert forall|i: int| 0 <= i < index.search_trees@[t].indices@.len() implies 0
                    <= #[trigger] index.search_trees@[t].indices@[i] < n by {
                    assert(0 <= trees[t].indices@[i] < n);
                    assert(old_to_new@[trees[t].indices@[i] as int] < n);
                }
            }
            if trees.len() > 0 {
                let first = index.search_trees@[0].indices@;
                assert(is_remapped(index.search_trees@[0], trees[0], old_to_new@));
                assert forall|i: int| 0 <= i < n implies #[trigger] first[i] == i by {
                    assert(0 <= trees[0].indices@[i] < n);
                    assert(index.vertex_order@[i] == trees[0].indices@[i]);
                    assert(old_to_new@[index.vertex_order@[i] as int] == i);
                }
                assert(first =~= Seq::new(self.n_points as nat, |i: int| i as i32));
            }
        }
        Ok(index)
    }

    /// Build the index with Euclidean distance: search with squared distances, and take the root
    /// of what is shown.
    pub fn build_euclidean<D: Distance, K: Fn(Single) -> Single>(
        self,
        squared_euclidean: D,
        root: K,
        construction: Construction,
    ) -> (r: Result<NNDescentIndex<D, K>, LayoutError>)
        requires
            self.accepts(construction),
            calls::maps1(root),
        ensures
            ({
                let order = order_from(
                    retained(construction.forest@, self.n_search_trees as nat),
                    self.n_points as nat,
                );
                &&& r is Ok <==> layout::is_permutation(order, self.n_points as int)
                &&& r matches Err(e) ==> layout::fault(order, self.n_points as int) == Some(e)
            }),
            r matches Ok(index) ==> {
                &&& index.wf()
                &&& index.has_data()
                &&& self.lays_out(index, squared_euclidean, Some(root), construction)
                &&& index.neighbor_indices@ == construction.neighbor_indices@
                &&& index.neighbor_distances@.len() == construction.neighbor_distances@.len()
                &&& forall|i: int|
                    0 <= i < construction.neighbor_distances@.len()
                        ==> #[trigger] index.neighbor_distances@[i] == calls::image1(
                        root,
                        construction.neighbor_distances@[i],
                    )
            },
    {
        self.build_with_distance(squared_euclidean, Some(root), construction)
    }

    /// Build the index with cosine distance, shown as it is.
    pub fn build_cosine<D: Distance, K: Fn(Single) -> Single>(
        self,
        cosine: D,
        construction: Construction,
    ) -> (r: Result<NNDescentIndex<D, K>, LayoutError>)
        requires
            self.accepts(construction),
        ensures
            ({
                let order = order_from(
                    retained(construction.forest@, self.n_search_trees as nat),
                    self.n_points as nat,
                );
                &&& r is Ok <==> layout::is_permutation(order, self.n_points as int)
                &&& r matches Err(e) ==> layout::fault(order, self.n_points as int) == Some(e)
            }),
            r matches Ok(index) ==> {
                &&& index.wf()
                &&& index.has_data()
                &&& self.lays_out(index, cosine, None, construction)
                &&& index.neighbor_indices@ == construction.neighbor_indices@
                &&& index.neighbor_distances@.len() == construction.neighbor_distances@.len()
                &&& forall|i: int|
                    0 <= i < construction.neighbor_distances@.len()
                        ==> #[trigger] index.neighbor_distances@[i] == construction.neighbor_distances@[i]
            },
    {
        self.build_with_distance(cosine, None, construction)
    }

    /// Build the index with inner product distance, shown as it is.
    pub fn build_inner_product<D: Distance, K: Fn(Single) -> Single>(
        self,
        inner_product: D,
        construction: Construction,
    ) -> (r: Result<NNDescentIndex<D, K>, LayoutError>)
        requires
            self.accepts(construction),
        ensures
            ({
                let order = order_from(
                    retained(construction.forest@, self.n_search_trees as nat),
                    self.n_points as nat,
                );
                &&& r is Ok <==> layout::is_permutation(order, self.n_points as int)
                &&& r matches Err(e) ==> layout::fault(order, self.n_points as int) == Some(e)
            }),
            r matches Ok(index) ==> {
                &&& index.wf()
                &&& index.has_data()
                &&& self.lays_out(index, inner_product, None, construction)
                &&& index.neighbor_indices@ == construction.neighbor_indices@
                &&& index.neighbor_distances@.len() == construction.neighbor_distances@.len()
                &&& forall|i: int|
                    0 <= i < construction.neighbor_distances@.len()
                        ==> #[trigger] index.neighbor_distances@[i] == construction.neighbor_distances@[i]
            },
    {
        self.build_with_distance(inner_product, None, construction)
    }

    /// Laying out moves points and renames them, and changes nothing else: physical position `i`
    /// holds the vector of point `vertex_order[i]`, its neighbors are the positions of that point's
    /// neighbors, and the retained trees are the first of the forest, with each point at its
    /// position.
    pub proof fn laying_out_only_renames<D: Distance, K: Fn(Single) -> Single>(
        self,
        index: NNDescentIndex<D, K>,
        distance: D,
        correction: Option<K>,
        construction: Construction,
    )
        requires
            index.wf(),
            self.accepts(construction),
            self.lays_out(index, distance, correction, construction),
        ensures
            index.n_points == self.n_points,
            index.dim == self.dim,
            index.distance == distance,
            index.distance_correction == correction,
            index.n_neighbors == self.n_neighbors,
            index.search_tree_leaf_budget == self.search_tree_leaf_budget,
            index.min_distance == construction.min_distance,
            index.rng_seed == self.random_seed,
            forall|i: int|
                0 <= i < self.n_points ==> layout::row(index.data@, self.dim as int, i)
                    == layout::row(
                    self.data@,
                    self.dim as int,
                    #[trigger] index.vertex_order@[i] as int,
                ),
            forall|i: int|
                0 <= i < self.n_points ==> (#[trigger] index.search_graph.row(i)).len()
                    == construction.search_graph.row(index.vertex_order@[i] as int).len(),
            forall|i: int, j: int|
                0 <= i < self.n_points && 0 <= j < index.search_graph.row(i).len() ==> {
                    let here = #[trigger] index.search_graph.row(i)[j];
                    let there = construction.search_graph.row(index.vertex_order@[i] as int)[j];
                    if there < 0 {
                        here == there
                    } else {
                        0 <= here < self.n_points && index.vertex_order@[here as int] == there
                    }
                },
            index.search_trees@.len() <= construction.forest@.len(),
            index.search_trees@.len() == self.n_search_trees || index.search_trees@.len()
                == construction.forest@.len(),
            index.search_trees@.len() <= self.n_search_trees,
            forall|t: int|
                0 <= t < index.search_trees@.len() ==> {
                    let tree = #[trigger] index.search_trees@[t];
                    let source = construction.forest@[t];
                    &&& tree.hyperplanes@ == source.hyperplanes@
                    &&& tree.offsets@ == source.offsets@
                    &&& tree.children@ == source.children@
                    &&& tree.indices@.len() == source.indices@.len()
                },
            forall|t: int, i: int|
                0 <= t < index.search_trees@.len() && 0 <= i
                    < index.search_trees@[t].indices@.len() ==> index.vertex_order@[
                    #[trigger] index.search_trees@[t].indices@[i] as int
                ] == construction.forest@[t].indices@[i],
            index.search_trees@.len() == 0 ==> forall|i: int|
                0 <= i < self.n_points ==> #[trigger] index.vertex_order@[i] == i,
    {
        let n = self.n_points as int;
        let trees = retained(construction.forest@, self.n_search_trees as nat);
        let order = index.vertex_order@;
        let position = layout::inverse_of(order, n);
        layout::inverse_exists(order, n);
        layout::inversion_is_mutual(position, order);
        assert forall|i: int, j: int|
            0 <= i < self.n_points && 0 <= j < index.search_graph.row(i).len() implies {
            let here = #[trigger] index.search_graph.row(i)[j];
            let there = construction.search_graph.row(index.vertex_order@[i] as int)[j];
            if there < 0 {
                here == there
            } else {
                0 <= here < self.n_points && index.vertex_order@[here as int] == there
            }
        } by {
            let base = construction.search_graph.row(order[i] as int);
            assert(order[i] < n);
            assert(index.search_graph.row(i) == base.map_values(
                |v: i32| crate::graph::renamed(v, position),
            ));
            crate::search::model::row_is_within(construction.search_graph, order[i] as int);
            assert(base[j] < n);
            if base[j] >= 0 {
                assert(order[position[base[j] as int] as int] == base[j]);
                assert(0 <= position[base[j] as int] < order.len());
            }
        }
        assert forall|t: int| 0 <= t < index.search_trees@.len() implies is_remapped(
            #[trigger] index.search_trees@[t],
            construction.forest@[t],
            position,
        ) by {
            assert(trees[t] == construction.forest@[t]);
        }
        assert forall|t: int, i: int|
            0 <= t < index.search_trees@.len() && 0 <= i
                < index.search_trees@[t].indices@.len() implies index.vertex_order@[
            #[trigger] index.search_trees@[t].indices@[i] as int
        ] == construction.forest@[t].indices@[i] by {
            assert(is_remapped(index.search_trees@[t], construction.forest@[t], position));
            let id = construction.forest@[t].indices@[i];
            if t == 0 {
                assert(order[i] < n);
                assert(trees[0] == construction.forest@[0]);
            } else {
                assert(construction.forest@[t].wf());
            }
            assert(0 <= id < n);
            assert(order[position[id as int] as int] == id);
            assert(0 <= position[id as int] < order.len());
        }
    }

    /// The neighbor graph shows for a point's neighbor the distance that a query at that point
    /// shows for it.
    pub proof fn neighbor_graph_agrees_with_queries<
        D: Distance,
        K: Fn(Single) -> Single,
        M: Fn(&[Single], &[Single], Single) -> Single,
        Q,
        B: Fn(Single, Single, Single) -> Single,
        S,
        C,
    >(
        self,
        index: NNDescentIndex<D, K>,
        distance: D,
        correction: Option<K>,
        construction: Construction,
        point: int,
        neighbor: int,
        entry: int,
        query_id: int,
        k: nat,
        epsilon: Single,
        arithmetic: crate::search::Arithmetic<M, Q, B, S, C>,
        at: int,
    )
        requires
            index.wf(),
            self.accepts(construction),
            self.lays_out(index, distance, correction, construction),
            0 <= neighbor < self.n_points,
            0 <= entry < construction.neighbor_distances@.len(),
            construction.neighbor_distances@[entry] == distance.between(
                layout::row(self.data@, self.dim as int, point),
                layout::row(self.data@, self.dim as int, neighbor),
            ),
            0 <= at < k,
            index.answer_indices(
                layout::row(self.data@, self.dim as int, point),
                query_id,
                k,
                epsilon,
                arithmetic,
            )[at] == neighbor,
        ensures
            index.answer_distances(
                layout::row(self.data@, self.dim as int, point),
                query_id,
                k,
                epsilon,
                arithmetic,
            )[at] == index.neighbor_distances@[entry],
    {
        let query = layout::row(self.data@, self.dim as int, point);
        self.laying_out_only_renames(index, distance, correction, construction);
        index.answers_are_nearby_points(query, query_id, k, epsilon, arithmetic);
        let indices = index.answer_indices(query, query_id, k, epsilon, arithmetic);
        let found = crate::search::model::indices_of(
            index.sought(query, query_id, k, epsilon, arithmetic),
        );
        if at >= found.len() {
            assert(indices[at] == -1);
        }
        assert(0 <= indices[at] < index.n_points);
        assert(index.vertex_order@[found[at] as int] == neighbor);
    }

    /// The tree that an index exports is the one that construction made, with the same points in
    /// its leaves.
    pub proof fn exported_tree_has_original_points<D: Distance, K: Fn(Single) -> Single>(
        self,
        index: NNDescentIndex<D, K>,
        distance: D,
        correction: Option<K>,
        construction: Construction,
        exported: Seq<i32>,
    )
        requires
            index.wf(),
            self.lays_out(index, distance, correction, construction),
            index.search_trees@.len() > 0,
            exported == crate::index::query::original(
                index.vertex_order@,
                index.search_trees@[0].indices@,
            ),
        ensures
            exported == construction.forest@[0].indices@,
    {
        let trees = retained(construction.forest@, self.n_search_trees as nat);
        let n = self.n_points as int;
        let order = index.vertex_order@;
        let position = layout::inverse_of(order, n);
        layout::inverse_exists(order, n);
        assert(is_remapped(index.search_trees@[0], trees[0], position));
        let source = trees[0].indices@;
        assert forall|i: int| 0 <= i < n implies #[trigger] exported[i] == source[i] by {
            assert(order[i] < n);
            assert(0 <= source[i] < n);
            assert(order[i] == source[i]);
            assert(position[order[i] as int] == i);
        }
        assert(exported =~= source);
    }
}

} // verus!
