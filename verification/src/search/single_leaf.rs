//! Greedy graph search that enters every tree at one leaf, with and without instrumentation.
//!
//! Unlike [`crate::search::greedy`], a search stops at the first seed that is at the bound or
//! beyond, whether or not it has all its results.

use crate::calls;
use crate::distance::Distance;
use crate::graph::SearchGraph;
use crate::heap::bounded;
use crate::heap::BoundedHeap;
use crate::layout;
use crate::layout::row_of;
use crate::parallel::par_map;
use crate::rng;
use crate::rng::FastRng;
use crate::search::arithmetic::Arithmetic;
use crate::search::counting;
use crate::search::coverage;
use crate::search::economy;
use crate::search::engine;
use crate::search::engine::{fill_random, seed_leaves, traverse};
use crate::search::greedy;
use crate::search::greedy::{append_padded, code_distance};
use crate::search::model;
use crate::search::workspace::SearchWorkspace;
use crate::single::Single;
use crate::tree::routing;
use crate::tree::FlatTree;
use vstd::prelude::*;

verus! {

/// Instrumentation counters collected during a single search.
#[derive(Clone, Copy, Debug)]
pub struct SearchStats {
    /// Number of distance function evaluations performed.
    pub distance_evaluations: u64,
    /// Number of seed candidates from tree initialization.
    pub tree_seed_candidates: u64,
    /// Number of accepted random seeds.
    pub random_seed_candidates: u64,
    /// Number of neighbor entries scanned from adjacency lists.
    pub neighbor_candidates_scanned: u64,
    /// Number of visited check-and-mark operations.
    pub visited_checks: u64,
    /// Number of visited checks that were already visited.
    pub visited_already_seen: u64,
    /// Number of pushes into the seed heap.
    pub seed_pushes: u64,
    /// Number of pops from the seed heap.
    pub seed_pops: u64,
    /// Number of attempts to insert into the result heap.
    pub result_push_attempts: u64,
    /// Number of successful inserts into the result heap.
    pub result_push_inserted: u64,
    /// Number of distance bound recomputations after improved result heap max.
    pub bound_updates: u64,
    /// Number of iterations of the main greedy loop.
    pub main_loop_iterations: u64,
}

impl SearchStats {
    /// The counters are a search's counts.
    pub open spec fn tell(&self, c: model::Counts) -> bool {
        &&& self.distance_evaluations == c.distance_evaluations
        &&& self.tree_seed_candidates == c.tree_seed_candidates
        &&& self.random_seed_candidates == c.random_seed_candidates
        &&& self.neighbor_candidates_scanned == c.neighbor_candidates_scanned
        &&& self.visited_checks == c.visited_checks
        &&& self.visited_already_seen == c.visited_already_seen
        &&& self.seed_pushes == c.seed_pushes
        &&& self.seed_pops == c.seed_pops
        &&& self.result_push_attempts == c.result_push_attempts
        &&& self.result_push_inserted == c.result_push_inserted
        &&& self.bound_updates == c.bound_updates
        &&& self.main_loop_iterations == c.main_loop_iterations
    }
}

impl Default for SearchStats {
    fn default() -> (r: SearchStats)
        ensures
            r.tell(model::no_counts()),
    {
        SearchStats {
            distance_evaluations: 0,
            tree_seed_candidates: 0,
            random_seed_candidates: 0,
            neighbor_candidates_scanned: 0,
            visited_checks: 0,
            visited_already_seen: 0,
            seed_pushes: 0,
            seed_pops: 0,
            result_push_attempts: 0,
            result_push_inserted: 0,
            bound_updates: 0,
            main_loop_iterations: 0,
        }
    }
}

/// The trees are sound, for vectors of length `dim`, over `n` points, and none is without nodes.
pub open spec fn rooted_trees_serve(trees: Seq<FlatTree>, dim: int, n: int) -> bool {
    &&& greedy::trees_serve(trees, dim, n)
    &&& forall|t: int| 0 <= t < trees.len() ==> (#[trigger] trees[t]).children@.len() > 0
}

/// A search that enters every tree at one leaf and stops at the bound.
pub open spec fn leaf_search<
    M: Fn(&[Single], &[Single], Single) -> Single,
    B: Fn(Single, Single, Single) -> Single,
>(
    distance: spec_fn(int) -> Single,
    query: Seq<Single>,
    graph: SearchGraph,
    trees: Seq<FlatTree>,
    k: nat,
    epsilon: Single,
    min_distance: Single,
    rng: FastRng,
    margin: M,
    bound: B,
) -> (model::Progress, FastRng) {
    model::finished(
        greedy::quest(distance, bound, epsilon, min_distance, k, false),
        graph,
        greedy::flat_routes(trees, margin, query, 1),
        rng,
    )
}

/// A search over vectors that enters every tree at one leaf and stops at the bound.
pub open spec fn one_leaf_search<
    D: Distance,
    M: Fn(&[Single], &[Single], Single) -> Single,
    Q,
    B: Fn(Single, Single, Single) -> Single,
    S,
    C,
>(
    query: Seq<Single>,
    data: Seq<Single>,
    dim: int,
    graph: SearchGraph,
    trees: Seq<FlatTree>,
    distance: D,
    k: nat,
    epsilon: Single,
    min_distance: Single,
    rng: FastRng,
    arithmetic: Arithmetic<M, Q, B, S, C>,
) -> (model::Progress, FastRng) {
    leaf_search(
        greedy::row_distances(distance, query, data, dim),
        query,
        graph,
        trees,
        k,
        epsilon,
        min_distance,
        rng,
        arithmetic.margin,
        arithmetic.bound,
    )
}

/// Take the points of the leaf that a query is routed to in each tree.
fn initialize<F: Fn(i32) -> Single, M: Fn(&[Single], &[Single], Single) -> Single>(
    query: &[Single],
    trees: &[FlatTree],
    margin: &M,
    n_points: usize,
    k: usize,
    distance_to: &F,
    rng: &mut FastRng,
    workspace: &mut SearchWorkspace,
    Ghost(q): Ghost<model::Quest>,
)
    requires
        old(workspace).holds(n_points, k, model::begun()),
        q.k == k,
        engine::answers(*distance_to, q.distance, n_points as int),
        calls::scores(*margin),
        rooted_trees_serve(trees@, query@.len() as int, n_points as int),
    ensures
        ({
            let routes = greedy::flat_routes(trees@, *margin, query@, 1);
            let (p, r) = model::rooted(q, routes, routes.count, *old(rng));
            &&& final(workspace).holds(n_points, k, p)
            &&& *final(rng) == r
            &&& model::consistent(q, n_points as int, p)
        }),
{
    let ghost routes = greedy::flat_routes(trees@, *margin, query@, 1);
    let ghost start = *rng;
    let mut t: usize = 0;
    proof {
        model::beginning_is_consistent(q, n_points as int);
    }
    while t < trees.len()
        invariant
            t <= trees@.len(),
            routes == greedy::flat_routes(trees@, *margin, query@, 1),
            q.k == k,
            engine::answers(*distance_to, q.distance, n_points as int),
            calls::scores(*margin),
            rooted_trees_serve(trees@, query@.len() as int, n_points as int),
            workspace.holds(n_points, k, model::rooted(q, routes, t as nat, start).0),
            *rng == model::rooted(q, routes, t as nat, start).1,
            model::consistent(
                q,
                n_points as int,
                model::rooted(q, routes, t as nat, start).0,
            ),
        decreases trees@.len() - t,
    {
        let ghost p = model::rooted(q, routes, t as nat, start).0;
        let ghost here = *rng;
        let tree = &trees[t];
        assert(trees@[t as int].wf() && trees@[t as int].children@.len() > 0);
        let leaf = tree.search(query, rng, margin);
        workspace.tree_leaves.clear();
        workspace.tree_leaves.push(leaf);
        let ghost leaves = workspace.tree_leaves@;
        proof {
            let spill = routing::routed(
                tree.children@,
                tree.margins(*margin, query@),
                1,
                here,
            );
            assert((routes.route)(t as int, here) == spill);
            assert(leaves =~= spill.leaves);
            assert(*rng == spill.rng);
            model::seeding_leaves_keeps(q, n_points as int, p, tree.indices@, leaves);
        }
        seed_leaves(&tree.indices, distance_to, workspace, Ghost(q), Ghost(p));
        t = t + 1;
    }
}

/// Search with the given distance; the workspace is left with the results.
fn search<
    F: Fn(i32) -> Single,
    M: Fn(&[Single], &[Single], Single) -> Single,
    B: Fn(Single, Single, Single) -> Single,
>(
    query: &[Single],
    graph: &SearchGraph,
    trees: &[FlatTree],
    k: usize,
    epsilon: Single,
    min_distance: Single,
    rng: &mut FastRng,
    workspace: &mut SearchWorkspace,
    distance_to: &F,
    margin: &M,
    bound: &B,
    Ghost(distance): Ghost<spec_fn(int) -> Single>,
) -> (heap: BoundedHeap)
    requires
        old(workspace).wf(),
        graph.wf(),
        k == 0 || graph.n_vertices > 0,
        rooted_trees_serve(trees@, query@.len() as int, graph.n_vertices as int),
        engine::answers(*distance_to, distance, graph.n_vertices as int),
        calls::scores(*margin),
        calls::maps3(*bound),
    ensures
        heap.wf(),
        ({
            let (p, r) = leaf_search(
                distance,
                query@,
                *graph,
                trees@,
                k as nat,
                epsilon,
                min_distance,
                *old(rng),
                *margin,
                *bound,
            );
            &&& heap@ == p.found
            &&& final(workspace).shows(graph.n_vertices, k, p)
            &&& *final(rng) == r
            &&& model::are_results(
                distance,
                graph.n_vertices as int,
                k as nat,
                model::indices_of(p),
                model::distances_of(p),
            )
        }),
{
    let n: usize = graph.n_vertices;
    let ghost q = greedy::quest(distance, *bound, epsilon, min_distance, k as nat, false);
    let ghost routes = greedy::flat_routes(trees@, *margin, query@, 1);
    let ghost start = *rng;
    workspace.reset(n, k);
    initialize(query, trees, margin, n, k, distance_to, rng, workspace, Ghost(q));
    let ghost p = model::rooted(q, routes, routes.count, start).0;
    let ghost r = *rng;
    proof {
        model::scattering_keeps(q, n as int, p, model::missing(q, p), r);
    }
    fill_random(n, k, distance_to, rng, workspace, Ghost(q), Ghost(p));
    let ghost s = model::scattered(q, p, n as int, model::missing(q, p), r).0;
    traverse(
        graph,
        k,
        epsilon,
        min_distance,
        false,
        distance_to,
        bound,
        workspace,
        Ghost(q),
        Ghost(s),
    );
    proof {
        let end = model::finished(q, *graph, routes, start).0;
        workspace.holding_shows(n, k, end);
        model::traversing_keeps(q, *graph, s, (q.bound)(bounded::furthest(s.found, q.k)));
        model::consistent_gives_results(q, n as int, end);
    }
    workspace.result_heap.clone()
}

/// Greedy search using a caller-provided reusable workspace.
pub fn greedy_search_with_workspace<
    D: Distance,
    M: Fn(&[Single], &[Single], Single) -> Single,
    Q,
    B: Fn(Single, Single, Single) -> Single,
    S,
    C,
>(
    query: &[Single],
    data: &[Single],
    dim: usize,
    graph: &SearchGraph,
    trees: &[FlatTree],
    distance: &D,
    k: usize,
    epsilon: Single,
    min_distance: Single,
    rng: &mut FastRng,
    workspace: &mut SearchWorkspace,
    arithmetic: &Arithmetic<M, Q, B, S, C>,
) -> (r: (Vec<i32>, Vec<Single>))
    requires
        old(workspace).wf(),
        graph.wf(),
        k == 0 || graph.n_vertices > 0,
        query@.len() == dim,
        graph.n_vertices * dim <= data@.len(),
        rooted_trees_serve(trees@, dim as int, graph.n_vertices as int),
        arithmetic.serves_vectors(),
    ensures
        ({
            let (p, end) = one_leaf_search(
                query@,
                data@,
                dim as int,
                *graph,
                trees@,
                *distance,
                k as nat,
                epsilon,
                min_distance,
                *old(rng),
                *arithmetic,
            );
            &&& model::yields((p, end), r.0@, r.1@, *final(rng))
            &&& final(workspace).shows(graph.n_vertices, k, p)
        }),
        model::are_results(
            greedy::row_distances(*distance, query@, data@, dim as int),
            graph.n_vertices as int,
            k as nat,
            r.0@,
            r.1@,
        ),
{
    let n: usize = graph.n_vertices;
    let distance_to = |idx: i32| -> (d: Single)
        requires
            0 <= idx < n,
        ensures
            d == distance.between(query@, layout::row(data@, dim as int, idx as int)),
        { distance.distance(query, row_of(data, n, dim, idx as usize)) };
    search(
        query,
        graph,
        trees,
        k,
        epsilon,
        min_distance,
        rng,
        workspace,
        &distance_to,
        &arithmetic.margin,
        &arithmetic.bound,
        Ghost(greedy::row_distances(*distance, query@, data@, dim as int)),
    ).into_sorted()
}

/// Greedy search that returns only indices, avoiding distance-result allocation when callers do
/// not consume distances.
pub fn greedy_search_indices_with_workspace<
    D: Distance,
    M: Fn(&[Single], &[Single], Single) -> Single,
    Q,
    B: Fn(Single, Single, Single) -> Single,
    S,
    C,
>(
    query: &[Single],
    data: &[Single],
    dim: usize,
    graph: &SearchGraph,
    trees: &[FlatTree],
    distance: &D,
    k: usize,
    epsilon: Single,
    min_distance: Single,
    rng: &mut FastRng,
    workspace: &mut SearchWorkspace,
    arithmetic: &Arithmetic<M, Q, B, S, C>,
) -> (r: Vec<i32>)
    requires
        old(workspace).wf(),
        graph.wf(),
        k == 0 || graph.n_vertices > 0,
        query@.len() == dim,
        graph.n_vertices * dim <= data@.len(),
        rooted_trees_serve(trees@, dim as int, graph.n_vertices as int),
        arithmetic.serves_vectors(),
    ensures
        ({
            let (p, end) = one_leaf_search(
                query@,
                data@,
                dim as int,
                *graph,
                trees@,
                *distance,
                k as nat,
                epsilon,
                min_distance,
                *old(rng),
                *arithmetic,
            );
            &&& model::yields_indices((p, end), r@, *final(rng))
            &&& final(workspace).shows(graph.n_vertices, k, p)
            &&& model::are_results(
                greedy::row_distances(*distance, query@, data@, dim as int),
                graph.n_vertices as int,
                k as nat,
                r@,
                model::distances_of(p),
            )
        }),
{
    let n: usize = graph.n_vertices;
    let distance_to = |idx: i32| -> (d: Single)
        requires
            0 <= idx < n,
        ensures
            d == distance.between(query@, layout::row(data@, dim as int, idx as int)),
        { distance.distance(query, row_of(data, n, dim, idx as usize)) };
    search(
        query,
        graph,
        trees,
        k,
        epsilon,
        min_distance,
        rng,
        workspace,
        &distance_to,
        &arithmetic.margin,
        &arithmetic.bound,
        Ghost(greedy::row_distances(*distance, query@, data@, dim as int)),
    ).into_sorted_indices()
}

/// Greedy graph search over a symmetrically quantized signed-int8 dataset.
///
/// The query's vector is retained only for tree entry selection. Candidate distances use the
/// quantized query and precomputed integer-domain norms.
pub fn greedy_search_quantized_i8_with_workspace<
    M: Fn(&[Single], &[Single], Single) -> Single,
    Q: Fn(i32, Single, Single, Single) -> Single,
    B: Fn(Single, Single, Single) -> Single,
    S: Fn(i32, Single, Single) -> Single,
    C: Fn(Single) -> Single,
>(
    tree_query: &[Single],
    query: &[i8],
    query_inv_norm: Single,
    data: &[i8],
    inv_norms: &[Single],
    dim: usize,
    graph: &SearchGraph,
    trees: &[FlatTree],
    k: usize,
    epsilon: Single,
    min_distance: Single,
    rng: &mut FastRng,
    workspace: &mut SearchWorkspace,
    arithmetic: &Arithmetic<M, Q, B, S, C>,
) -> (r: (Vec<i32>, Vec<Single>))
    requires
        old(workspace).wf(),
        graph.wf(),
        k == 0 || graph.n_vertices > 0,
        query@.len() == dim,
        graph.n_vertices * dim <= data@.len(),
        graph.n_vertices <= inv_norms@.len(),
        rooted_trees_serve(trees@, tree_query@.len() as int, graph.n_vertices as int),
        arithmetic.serves_codes(),
    ensures
        ({
            let (p, end) = leaf_search(
                greedy::code_distances(
                    arithmetic.similarity,
                    arithmetic.one_minus,
                    query@,
                    query_inv_norm,
                    data@,
                    inv_norms@,
                    dim as int,
                ),
                tree_query@,
                *graph,
                trees@,
                k as nat,
                epsilon,
                min_distance,
                *old(rng),
                arithmetic.margin,
                arithmetic.bound,
            );
            &&& model::yields((p, end), r.0@, r.1@, *final(rng))
            &&& final(workspace).shows(graph.n_vertices, k, p)
        }),
        model::are_results(
            greedy::code_distances(
                arithmetic.similarity,
                arithmetic.one_minus,
                query@,
                query_inv_norm,
                data@,
                inv_norms@,
                dim as int,
            ),
            graph.n_vertices as int,
            k as nat,
            r.0@,
            r.1@,
        ),
{
    let n: usize = graph.n_vertices;
    let distance_to = |idx: i32| -> (d: Single)
        requires
            0 <= idx < n,
        ensures
            d == greedy::code_distances(
                arithmetic.similarity,
                arithmetic.one_minus,
                query@,
                query_inv_norm,
                data@,
                inv_norms@,
                dim as int,
            )(idx as int),
        {
            code_distance(
                &arithmetic.similarity,
                &arithmetic.one_minus,
                query,
                query_inv_norm,
                data,
                inv_norms,
                n,
                dim,
                idx as usize,
            )
        };
    search(
        tree_query,
        graph,
        trees,
        k,
        epsilon,
        min_distance,
        rng,
        workspace,
        &distance_to,
        &arithmetic.margin,
        &arithmetic.bound,
        Ghost(
            greedy::code_distances(
                arithmetic.similarity,
                arithmetic.one_minus,
                query@,
                query_inv_norm,
                data@,
                inv_norms@,
                dim as int,
            ),
        ),
    ).into_sorted()
}

/// Greedy search on a k-NN graph.
///
/// Returns the indices and the distances of the `k` nearest neighbors found.
pub fn greedy_search<
    D: Distance,
    M: Fn(&[Single], &[Single], Single) -> Single,
    Q,
    B: Fn(Single, Single, Single) -> Single,
    S,
    C,
>(
    query: &[Single],
    data: &[Single],
    dim: usize,
    graph: &SearchGraph,
    trees: &[FlatTree],
    distance: &D,
    k: usize,
    epsilon: Single,
    min_distance: Single,
    rng: &mut FastRng,
    arithmetic: &Arithmetic<M, Q, B, S, C>,
) -> (r: (Vec<i32>, Vec<Single>))
    requires
        graph.wf(),
        k == 0 || graph.n_vertices > 0,
        query@.len() == dim,
        graph.n_vertices * dim <= data@.len(),
        rooted_trees_serve(trees@, dim as int, graph.n_vertices as int),
        arithmetic.serves_vectors(),
    ensures
        ({
            let (p, end) = one_leaf_search(
                query@,
                data@,
                dim as int,
                *graph,
                trees@,
                *distance,
                k as nat,
                epsilon,
                min_distance,
                *old(rng),
                *arithmetic,
            );
            &&& model::yields((p, end), r.0@, r.1@, *final(rng))
        }),
        model::are_results(
            greedy::row_distances(*distance, query@, data@, dim as int),
            graph.n_vertices as int,
            k as nat,
            r.0@,
            r.1@,
        ),
{
    let mut workspace = SearchWorkspace::new(graph.n_vertices, k);
    greedy_search_with_workspace(
        query,
        data,
        dim,
        graph,
        trees,
        distance,
        k,
        epsilon,
        min_distance,
        rng,
        &mut workspace,
        arithmetic,
    )
}

/// Take a point to start from, unless it is a placeholder or visited, and count.
fn seed_counting<F: Fn(i32) -> Single>(
    idx: i32,
    from_tree: bool,
    distance_to: &F,
    workspace: &mut SearchWorkspace,
    stats: &mut SearchStats,
    Ghost(q): Ghost<model::Quest>,
    Ghost(p): Ghost<model::Progress>,
)
    requires
        old(workspace).holds(old(workspace).visited.n_elements, old(workspace).k, p),
        idx < old(workspace).visited.n_elements,
        q.k == old(workspace).k,
        engine::answers(*distance_to, q.distance, old(workspace).visited.n_elements as int),
        old(stats).tell(p.counts),
        model::balanced(p),
        counting::fits(model::seeded(q, p, idx, from_tree).counts),
    ensures
        final(workspace).holds(
            old(workspace).visited.n_elements,
            old(workspace).k,
            model::seeded(q, p, idx, from_tree),
        ),
        final(stats).tell(model::seeded(q, p, idx, from_tree).counts),
{
    if idx < 0 {
        return ;
    }
    stats.visited_checks = stats.visited_checks + 1;
    if workspace.visited.check_and_mark(idx) {
        stats.visited_already_seen = stats.visited_already_seen + 1;
        assert(p.visited.insert(idx as int) =~= p.visited);
        return ;
    }
    stats.distance_evaluations = stats.distance_evaluations + 1;
    let d: Single = distance_to(idx);
    stats.result_push_attempts = stats.result_push_attempts + 1;
    let inserted: bool = workspace.result_heap.push(d, idx);
    if inserted {
        stats.result_push_inserted = stats.result_push_inserted + 1;
    }
    workspace.seed_set.push(d, idx);
    stats.seed_pushes = stats.seed_pushes + 1;
    if from_tree {
        stats.tree_seed_candidates = stats.tree_seed_candidates + 1;
    } else {
        stats.random_seed_candidates = stats.random_seed_candidates + 1;
    }
}

/// Look at a neighbor, and count; returns the bound.
fn scan_counting<F: Fn(i32) -> Single, B: Fn(Single, Single, Single) -> Single>(
    neighbor: i32,
    distance_bound: Single,
    epsilon: Single,
    min_distance: Single,
    distance_to: &F,
    bound: &B,
    workspace: &mut SearchWorkspace,
    stats: &mut SearchStats,
    Ghost(q): Ghost<model::Quest>,
    Ghost(p): Ghost<model::Progress>,
) -> (r: Single)
    requires
        old(workspace).holds(old(workspace).visited.n_elements, old(workspace).k, p),
        neighbor < old(workspace).visited.n_elements,
        q.k == old(workspace).k,
        q.bound == (|furthest: Single|
            calls::image3(*bound, furthest, epsilon, min_distance)),
        calls::maps3(*bound),
        engine::answers(*distance_to, q.distance, old(workspace).visited.n_elements as int),
        old(stats).tell(p.counts),
        model::balanced(p),
        counting::fits(model::scanned(q, p, distance_bound, neighbor).0.counts),
    ensures
        final(workspace).holds(
            old(workspace).visited.n_elements,
            old(workspace).k,
            model::scanned(q, p, distance_bound, neighbor).0,
        ),
        r == model::scanned(q, p, distance_bound, neighbor).1,
        final(stats).tell(model::scanned(q, p, distance_bound, neighbor).0.counts),
{
    stats.neighbor_candidates_scanned = stats.neighbor_candidates_scanned + 1;
    if neighbor < 0 {
        return distance_bound;
    }
    stats.visited_checks = stats.visited_checks + 1;
    if workspace.visited.check_and_mark(neighbor) {
        stats.visited_already_seen = stats.visited_already_seen + 1;
        assert(p.visited.insert(neighbor as int) =~= p.visited);
        return distance_bound;
    }
    stats.distance_evaluations = stats.distance_evaluations + 1;
    let d: Single = distance_to(neighbor);
    if d.lt(distance_bound) {
        stats.result_push_attempts = stats.result_push_attempts + 1;
        let inserted: bool = workspace.result_heap.push(d, neighbor);
        if inserted {
            stats.result_push_inserted = stats.result_push_inserted + 1;
        }
        workspace.seed_set.push(d, neighbor);
        stats.seed_pushes = stats.seed_pushes + 1;
        if inserted {
            stats.bound_updates = stats.bound_updates + 1;
            return bound(workspace.result_heap.max_distance(), epsilon, min_distance);
        }
    }
    distance_bound
}

/// Take the points of the leaf that a query is routed to in each tree, and count.
fn initialize_counting<F: Fn(i32) -> Single, M: Fn(&[Single], &[Single], Single) -> Single>(
    query: &[Single],
    trees: &[FlatTree],
    margin: &M,
    n_points: usize,
    k: usize,
    distance_to: &F,
    rng: &mut FastRng,
    workspace: &mut SearchWorkspace,
    stats: &mut SearchStats,
    Ghost(q): Ghost<model::Quest>,
)
    requires
        old(workspace).holds(n_points, k, model::begun()),
        old(stats).tell(model::no_counts()),
        q.k == k,
        engine::answers(*distance_to, q.distance, n_points as int),
        calls::scores(*margin),
        rooted_trees_serve(trees@, query@.len() as int, n_points as int),
        ({
            let routes = greedy::flat_routes(trees@, *margin, query@, 1);
            counting::fits(model::rooted(q, routes, routes.count, *old(rng)).0.counts)
        }),
    ensures
        ({
            let routes = greedy::flat_routes(trees@, *margin, query@, 1);
            let (p, r) = model::rooted(q, routes, routes.count, *old(rng));
            &&& final(workspace).holds(n_points, k, p)
            &&& final(stats).tell(p.counts)
            &&& *final(rng) == r
            &&& model::consistent(q, n_points as int, p)
            &&& model::balanced(p)
        }),
{
    let ghost routes = greedy::flat_routes(trees@, *margin, query@, 1);
    let ghost start = *rng;
    let mut t: usize = 0;
    proof {
        model::beginning_is_consistent(q, n_points as int);
    }
    while t < trees.len()
        invariant
            t <= trees@.len(),
            counting::fits(model::rooted(q, routes, routes.count, start).0.counts),
            routes == greedy::flat_routes(trees@, *margin, query@, 1),
            q.k == k,
            engine::answers(*distance_to, q.distance, n_points as int),
            calls::scores(*margin),
            rooted_trees_serve(trees@, query@.len() as int, n_points as int),
            workspace.holds(n_points, k, model::rooted(q, routes, t as nat, start).0),
            *rng == model::rooted(q, routes, t as nat, start).1,
            stats.tell(model::rooted(q, routes, t as nat, start).0.counts),
            model::consistent(
                q,
                n_points as int,
                model::rooted(q, routes, t as nat, start).0,
            ),
            model::balanced(model::rooted(q, routes, t as nat, start).0),
        decreases trees@.len() - t,
    {
        let ghost p = model::rooted(q, routes, t as nat, start).0;
        let ghost here = *rng;
        let tree = &trees[t];
        assert(trees@[t as int].wf() && trees@[t as int].children@.len() > 0);
        let (first, last) = tree.search(query, rng, margin);
        let ghost ids = tree.indices@.subrange(first as int, last as int);
        proof {
            let margins = tree.margins(*margin, query@);
            routing::walk_arrives_below(tree.children@, margins, 0, here);
            let leaf = routing::walk(tree.children@, margins, 0, here).0;
            assert(!routing::internal(tree.children@, leaf));
            assert(ids.take(0) =~= Seq::empty());
            let spill = routing::routed(tree.children@, margins, 1, here);
            assert((routes.route)(t as int, here) == spill);
            assert(spill.leaves.drop_last() =~= Seq::empty());
            reveal_with_fuel(model::seeded_leaves, 2);
            assert(model::seeded_leaves(q, p, tree.indices@, spill.leaves) == model::seeded_all(
                q,
                p,
                ids,
            ));
            counting::rooting_counts_up(q, routes, (t + 1) as nat, routes.count, start);
        }
        let mut i: usize = first;
        while i < last
            invariant
                first <= i <= last <= tree.indices@.len(),
                counting::fits(model::seeded_all(q, p, ids).counts),
                ids == tree.indices@.subrange(first as int, last as int),
                q.k == k,
                engine::answers(*distance_to, q.distance, n_points as int),
                forall|j: int|
                    0 <= j < tree.indices@.len() ==> #[trigger] tree.indices@[j] < n_points,
                workspace.holds(n_points, k, model::seeded_all(q, p, ids.take(i - first))),
                stats.tell(model::seeded_all(q, p, ids.take(i - first)).counts),
                model::consistent(
                    q,
                    n_points as int,
                    model::seeded_all(q, p, ids.take(i - first)),
                ),
                model::balanced(model::seeded_all(q, p, ids.take(i - first))),
            decreases last - i,
        {
            let ghost now = model::seeded_all(q, p, ids.take(i - first));
            proof {
                assert(tree.indices@[i as int] < n_points);
                assert(ids.take(i + 1 - first).drop_last() =~= ids.take(i - first));
                model::seeding_keeps(q, n_points as int, now, tree.indices@[i as int], true);
                counting::seeding_counts_up(q, p, ids, i + 1 - first);
            }
            seed_counting(
                tree.indices[i],
                true,
                distance_to,
                workspace,
                stats,
                Ghost(q),
                Ghost(now),
            );
            i = i + 1;
        }
        proof {
            assert(ids.take(last - first) =~= ids);
        }
        t = t + 1;
    }
}

/// Draw random points to start from where there are fewer seeds than results asked for, and count.
fn fill_random_counting<F: Fn(i32) -> Single>(
    n_points: usize,
    k: usize,
    distance_to: &F,
    rng: &mut FastRng,
    workspace: &mut SearchWorkspace,
    stats: &mut SearchStats,
    Ghost(q): Ghost<model::Quest>,
    Ghost(p): Ghost<model::Progress>,
)
    requires
        old(workspace).holds(n_points, k, p),
        old(stats).tell(p.counts),
        model::consistent(q, n_points as int, p),
        model::balanced(p),
        k == 0 || n_points > 0,
        n_points <= i32::MAX,
        q.k == k,
        engine::answers(*distance_to, q.distance, n_points as int),
        counting::fits(
            model::scattered(
                q,
                p,
                n_points as int,
                model::missing(q, p),
                *old(rng),
            ).0.counts,
        ),
    ensures
        ({
            let (s, r) = model::scattered(
                q,
                p,
                n_points as int,
                model::missing(q, p),
                *old(rng),
            );
            &&& final(workspace).holds(n_points, k, s)
            &&& final(stats).tell(s.counts)
            &&& *final(rng) == r
            &&& model::consistent(q, n_points as int, s)
            &&& model::balanced(s)
        }),
{
    let missing: usize = k.saturating_sub(workspace.seed_set.len());
    let ghost start = *rng;
    let mut m: usize = 0;
    while m < missing
        invariant
            m <= missing,
            counting::fits(
                model::scattered(q, p, n_points as int, missing as nat, start).0.counts,
            ),
            missing > 0 ==> n_points > 0,
            n_points <= i32::MAX,
            q.k == k,
            engine::answers(*distance_to, q.distance, n_points as int),
            workspace.holds(
                n_points,
                k,
                model::scattered(q, p, n_points as int, m as nat, start).0,
            ),
            *rng == model::scattered(q, p, n_points as int, m as nat, start).1,
            stats.tell(model::scattered(q, p, n_points as int, m as nat, start).0.counts),
            model::consistent(
                q,
                n_points as int,
                model::scattered(q, p, n_points as int, m as nat, start).0,
            ),
            model::balanced(model::scattered(q, p, n_points as int, m as nat, start).0),
        decreases missing - m,
    {
        let ghost now = model::scattered(q, p, n_points as int, m as nat, start).0;
        let idx: i32 = rng.next_index(n_points) as i32;
        proof {
            model::seeding_keeps(q, n_points as int, now, idx, false);
            counting::scattering_counts_up(
                q,
                p,
                n_points as int,
                (m + 1) as nat,
                missing as nat,
                start,
            );
        }
        seed_counting(
            idx,
            false,
            distance_to,
            workspace,
            stats,
            Ghost(q),
            Ghost(now),
        );
        m = m + 1;
    }
}

/// Go through the graph from the seeds, nearest first, until the nearest is too far, and count.
fn traverse_counting<F: Fn(i32) -> Single, B: Fn(Single, Single, Single) -> Single>(
    graph: &SearchGraph,
    k: usize,
    epsilon: Single,
    min_distance: Single,
    distance_to: &F,
    bound: &B,
    workspace: &mut SearchWorkspace,
    stats: &mut SearchStats,
    Ghost(q): Ghost<model::Quest>,
    Ghost(p): Ghost<model::Progress>,
)
    requires
        graph.wf(),
        old(workspace).holds(graph.n_vertices, k, p),
        old(stats).tell(p.counts),
        model::consistent(q, graph.n_vertices as int, p),
        model::balanced(p),
        counting::fits(
            model::traversed(q, *graph, p, (q.bound)(bounded::furthest(p.found, q.k))).counts,
        ),
        q.k == k,
        !q.fills,
        q.bound == (|furthest: Single|
            calls::image3(*bound, furthest, epsilon, min_distance)),
        calls::maps3(*bound),
        engine::answers(*distance_to, q.distance, graph.n_vertices as int),
    ensures
        ({
            let end = model::traversed(
                q,
                *graph,
                p,
                (q.bound)(bounded::furthest(p.found, q.k)),
            );
            &&& final(workspace).holds(graph.n_vertices, k, end)
            &&& final(stats).tell(end.counts)
        }),
{
    let n: usize = graph.n_vertices;
    let mut distance_bound: Single = bound(
        workspace.result_heap.max_distance(),
        epsilon,
        min_distance,
    );
    let ghost end = model::traversed(q, *graph, p, distance_bound);
    let ghost mut now = p;
    loop
        invariant_except_break
            model::traversed(q, *graph, now, distance_bound) == end,
            workspace.holds(n, k, now),
            stats.tell(now.counts),
            model::consistent(q, n as int, now),
            model::balanced(now),
        invariant
            graph.wf(),
            n == graph.n_vertices,
            counting::fits(end.counts),
            q.k == k,
            !q.fills,
            q.bound == (|furthest: Single|
                calls::image3(*bound, furthest, epsilon, min_distance)),
            calls::maps3(*bound),
            engine::answers(*distance_to, q.distance, n as int),
        ensures
            workspace.holds(n, k, end),
            stats.tell(end.counts),
        decreases model::remaining(n as int, now),
    {
        match workspace.seed_set.pop() {
            None => {
                break;
            },
            Some((vertex_distance, vertex)) => {
                proof {
                    model::popping_keeps(q, n as int, now);
                }
                stats.seed_pops = stats.seed_pops + 1;
                stats.main_loop_iterations = stats.main_loop_iterations + 1;
                if vertex_distance.ge(distance_bound) {
                    break;
                }
                let ghost row = graph.row(vertex as int);
                let ghost start = model::popped(now);
                let ghost bound_before = distance_bound;
                let neighbors = graph.neighbors(vertex as usize);
                let mut i: usize = 0;
                proof {
                    model::row_is_within(*graph, vertex as int);
                    assert(row.take(0) =~= Seq::empty());
                    model::scanning_all_keeps(q, n as int, start, bound_before, row);
                    let (t, b) = model::scanned_all(q, start, bound_before, row);
                    model::visited_stays_within(q, n as int, t);
                    counting::traversing_counts_up(q, *graph, t, b);
                }
                while i < neighbors.len()
                    invariant
                        i <= neighbors@.len(),
                        neighbors@ == row,
                        n == graph.n_vertices,
                        counting::fits(
                            model::scanned_all(q, start, bound_before, row).0.counts,
                        ),
                        forall|j: int| 0 <= j < row.len() ==> #[trigger] row[j] < n,
                        q.k == k,
                        q.bound == (|furthest: Single|
                            calls::image3(*bound, furthest, epsilon, min_distance)),
                        calls::maps3(*bound),
                        engine::answers(*distance_to, q.distance, n as int),
                        workspace.holds(
                            n,
                            k,
                            model::scanned_all(q, start, bound_before, row.take(i as int)).0,
                        ),
                        distance_bound == model::scanned_all(
                            q,
                            start,
                            bound_before,
                            row.take(i as int),
                        ).1,
                        stats.tell(
                            model::scanned_all(
                                q,
                                start,
                                bound_before,
                                row.take(i as int),
                            ).0.counts,
                        ),
                        model::consistent(
                            q,
                            n as int,
                            model::scanned_all(q, start, bound_before, row.take(i as int)).0,
                        ),
                        model::balanced(
                            model::scanned_all(q, start, bound_before, row.take(i as int)).0,
                        ),
                    decreases neighbors@.len() - i,
                {
                    let neighbor: i32 = neighbors[i];
                    let ghost s = model::scanned_all(q, start, bound_before, row.take(i as int));
                    proof {
                        assert(row.take(i + 1).drop_last() =~= row.take(i as int));
                        assert(row[i as int] < n);
                        model::scanning_keeps(q, n as int, s.0, s.1, neighbor);
                        counting::scanning_counts_up(q, start, bound_before, row, i + 1);
                    }
                    i = i + 1;
                    distance_bound = scan_counting(
                        neighbor,
                        distance_bound,
                        epsilon,
                        min_distance,
                        distance_to,
                        bound,
                        workspace,
                        stats,
                        Ghost(q),
                        Ghost(s.0),
                    );
                }
                proof {
                    assert(row.take(row.len() as int) =~= row);
                    now = model::scanned_all(q, start, bound_before, row).0;
                }
            },
        }
    }
}

/// The counts of a search's stages are at most those that it ends with.
proof fn counts_stay_below<M: Fn(&[Single], &[Single], Single) -> Single>(
    q: model::Quest,
    graph: SearchGraph,
    trees: Seq<FlatTree>,
    margin: M,
    query: Seq<Single>,
    rng: FastRng,
)
    requires
        graph.wf(),
        q.k == 0 || graph.n_vertices > 0,
        rooted_trees_serve(trees, query.len() as int, graph.n_vertices as int),
    ensures
        ({
            let n = graph.n_vertices as int;
            let routes = greedy::flat_routes(trees, margin, query, 1);
            let (p, r) = model::rooted(q, routes, routes.count, rng);
            let s = model::scattered(q, p, n, model::missing(q, p), r).0;
            let end = model::finished(q, graph, routes, rng).0.counts;
            counting::up_to(p.counts, end) && counting::up_to(s.counts, end)
        }),
{
    let n = graph.n_vertices as int;
    let routes = greedy::flat_routes(trees, margin, query, 1);
    let (p, r) = model::rooted(q, routes, routes.count, rng);
    let m = model::missing(q, p);
    let s = model::scattered(q, p, n, m, r).0;
    greedy::flat_routes_lead_within(trees, margin, query, 1, query.len() as int, n);
    model::rooting_keeps(q, n, routes, routes.count, rng);
    model::scattering_keeps(q, n, p, m, r);
    counting::scattering_counts_up(q, p, n, 0, m, r);
    counting::traversing_counts_up(q, graph, s, (q.bound)(bounded::furthest(s.found, q.k)));
}

/// Greedy search using a caller-provided reusable workspace, with instrumentation: the same
/// results, and the counters of what it took.
pub fn greedy_search_with_workspace_stats<
    D: Distance,
    M: Fn(&[Single], &[Single], Single) -> Single,
    Q,
    B: Fn(Single, Single, Single) -> Single,
    S,
    C,
>(
    query: &[Single],
    data: &[Single],
    dim: usize,
    graph: &SearchGraph,
    trees: &[FlatTree],
    distance: &D,
    k: usize,
    epsilon: Single,
    min_distance: Single,
    rng: &mut FastRng,
    workspace: &mut SearchWorkspace,
    arithmetic: &Arithmetic<M, Q, B, S, C>,
) -> (r: (Vec<i32>, Vec<Single>, SearchStats))
    requires
        old(workspace).wf(),
        graph.wf(),
        k == 0 || graph.n_vertices > 0,
        query@.len() == dim,
        graph.n_vertices * dim <= data@.len(),
        rooted_trees_serve(trees@, dim as int, graph.n_vertices as int),
        arithmetic.serves_vectors(),
        counting::fits(
            one_leaf_search(
                query@,
                data@,
                dim as int,
                *graph,
                trees@,
                *distance,
                k as nat,
                epsilon,
                min_distance,
                *old(rng),
                *arithmetic,
            ).0.counts,
        ),
    ensures
        ({
            let (p, end) = one_leaf_search(
                query@,
                data@,
                dim as int,
                *graph,
                trees@,
                *distance,
                k as nat,
                epsilon,
                min_distance,
                *old(rng),
                *arithmetic,
            );
            &&& model::yields((p, end), r.0@, r.1@, *final(rng))
            &&& final(workspace).shows(graph.n_vertices, k, p)
            &&& r.2.tell(p.counts)
            &&& model::balanced(p)
        }),
        model::are_results(
            greedy::row_distances(*distance, query@, data@, dim as int),
            graph.n_vertices as int,
            k as nat,
            r.0@,
            r.1@,
        ),
{
    let n: usize = graph.n_vertices;
    let distance_to = |idx: i32| -> (d: Single)
        requires
            0 <= idx < n,
        ensures
            d == distance.between(query@, layout::row(data@, dim as int, idx as int)),
        { distance.distance(query, row_of(data, n, dim, idx as usize)) };
    let ghost q = greedy::quest(
        greedy::row_distances(*distance, query@, data@, dim as int),
        arithmetic.bound,
        epsilon,
        min_distance,
        k as nat,
        false,
    );
    let ghost routes = greedy::flat_routes(trees@, arithmetic.margin, query@, 1);
    let ghost start = *rng;
    let mut stats: SearchStats = SearchStats::default();
    proof {
        counts_stay_below(q, *graph, trees@, arithmetic.margin, query@, start);
    }
    workspace.reset(n, k);
    initialize_counting(
        query,
        trees,
        &arithmetic.margin,
        n,
        k,
        &distance_to,
        rng,
        workspace,
        &mut stats,
        Ghost(q),
    );
    let ghost p = model::rooted(q, routes, routes.count, start).0;
    let ghost r = *rng;
    fill_random_counting(
        n,
        k,
        &distance_to,
        rng,
        workspace,
        &mut stats,
        Ghost(q),
        Ghost(p),
    );
    let ghost s = model::scattered(q, p, n as int, model::missing(q, p), r).0;
    traverse_counting(
        graph,
        k,
        epsilon,
        min_distance,
        &distance_to,
        &arithmetic.bound,
        workspace,
        &mut stats,
        Ghost(q),
        Ghost(s),
    );
    proof {
        let end = model::finished(q, *graph, routes, start).0;
        workspace.holding_shows(n, k, end);
        model::traversing_keeps(q, *graph, s, (q.bound)(bounded::furthest(s.found, q.k)));
        model::consistent_gives_results(q, n as int, end);
    }
    let (indices, distances) = workspace.result_heap.clone().into_sorted();
    (indices, distances, stats)
}

/// A search for indices alone, and one with instrumentation, find what the full search finds, and
/// leave the generator where that leaves it, whatever their workspaces were used for.
pub proof fn one_search_however_made<
    D: Distance,
    M: Fn(&[Single], &[Single], Single) -> Single,
    Q,
    B: Fn(Single, Single, Single) -> Single,
    S,
    C,
>(
    query: Seq<Single>,
    data: Seq<Single>,
    dim: int,
    graph: SearchGraph,
    trees: Seq<FlatTree>,
    distance: D,
    k: nat,
    epsilon: Single,
    min_distance: Single,
    rng: FastRng,
    arithmetic: Arithmetic<M, Q, B, S, C>,
    full: (Seq<i32>, Seq<Single>, FastRng),
    alone: (Seq<i32>, FastRng),
    counted: (Seq<i32>, Seq<Single>, FastRng),
)
    requires
        model::yields(
            one_leaf_search(
                query,
                data,
                dim,
                graph,
                trees,
                distance,
                k,
                epsilon,
                min_distance,
                rng,
                arithmetic,
            ),
            full.0,
            full.1,
            full.2,
        ),
        model::yields_indices(
            one_leaf_search(
                query,
                data,
                dim,
                graph,
                trees,
                distance,
                k,
                epsilon,
                min_distance,
                rng,
                arithmetic,
            ),
            alone.0,
            alone.1,
        ),
        model::yields(
            one_leaf_search(
                query,
                data,
                dim,
                graph,
                trees,
                distance,
                k,
                epsilon,
                min_distance,
                rng,
                arithmetic,
            ),
            counted.0,
            counted.1,
            counted.2,
        ),
    ensures
        alone == (full.0, full.2),
        counted == full,
{
}

/// How the counters of a search hang together: every lookup of a point finds it visited or leads to
/// a distance; every seed is offered to the results, and only points with a distance become seeds;
/// an offer may be taken, and only one that is taken may move the bound; every turn takes a seed;
/// and the points to start from are seeds.
pub proof fn counters_hang_together<
    D: Distance,
    M: Fn(&[Single], &[Single], Single) -> Single,
    Q,
    B: Fn(Single, Single, Single) -> Single,
    S,
    C,
>(
    query: Seq<Single>,
    data: Seq<Single>,
    dim: int,
    graph: SearchGraph,
    trees: Seq<FlatTree>,
    distance: D,
    k: nat,
    epsilon: Single,
    min_distance: Single,
    rng: FastRng,
    arithmetic: Arithmetic<M, Q, B, S, C>,
    stats: SearchStats,
)
    requires
        graph.wf(),
        k == 0 || graph.n_vertices > 0,
        rooted_trees_serve(trees, query.len() as int, graph.n_vertices as int),
        stats.tell(
            one_leaf_search(
                query,
                data,
                dim,
                graph,
                trees,
                distance,
                k,
                epsilon,
                min_distance,
                rng,
                arithmetic,
            ).0.counts,
        ),
    ensures
        stats.visited_checks == stats.visited_already_seen + stats.distance_evaluations,
        stats.seed_pushes == stats.result_push_attempts,
        stats.result_push_attempts <= stats.distance_evaluations,
        stats.distance_evaluations <= graph.n_vertices,
        stats.bound_updates <= stats.result_push_inserted,
        stats.result_push_inserted <= stats.result_push_attempts,
        stats.main_loop_iterations == stats.seed_pops,
        stats.seed_pops <= stats.seed_pushes,
        stats.tree_seed_candidates + stats.random_seed_candidates <= stats.seed_pushes,
{
    let n = graph.n_vertices as int;
    let q = greedy::quest(
        greedy::row_distances(distance, query, data, dim),
        arithmetic.bound,
        epsilon,
        min_distance,
        k,
        false,
    );
    let routes = greedy::flat_routes(trees, arithmetic.margin, query, 1);
    greedy::flat_routes_lead_within(trees, arithmetic.margin, query, 1, query.len() as int, n);
    model::finishing_keeps(q, graph, routes, rng);
    model::visited_stays_within(q, n, model::finished(q, graph, routes, rng).0);
}

/// The number of point indices in the first `i` trees.
pub open spec fn entries(trees: Seq<FlatTree>, i: nat) -> nat
    decreases i,
{
    if i == 0 {
        0
    } else {
        entries(trees, (i - 1) as nat) + trees[i - 1].indices@.len()
    }
}

proof fn entries_of_routes<M: Fn(&[Single], &[Single], Single) -> Single>(
    trees: Seq<FlatTree>,
    margin: M,
    query: Seq<Single>,
    i: nat,
)
    requires
        i <= trees.len(),
    ensures
        counting::entries(greedy::flat_routes(trees, margin, query, 1), i) == entries(trees, i),
    decreases i,
{
    if i > 0 {
        entries_of_routes(trees, margin, query, (i - 1) as nat);
    }
}

/// The counters of a search fit, unless the trees have, and the results asked for are, more than
/// a machine has room for.
pub proof fn counters_fit<
    D: Distance,
    M: Fn(&[Single], &[Single], Single) -> Single,
    Q,
    B: Fn(Single, Single, Single) -> Single,
    S,
    C,
>(
    query: Seq<Single>,
    data: Seq<Single>,
    dim: int,
    graph: SearchGraph,
    trees: Seq<FlatTree>,
    distance: D,
    k: nat,
    epsilon: Single,
    min_distance: Single,
    rng: FastRng,
    arithmetic: Arithmetic<M, Q, B, S, C>,
)
    requires
        graph.wf(),
        k == 0 || graph.n_vertices > 0,
        rooted_trees_serve(trees, query.len() as int, graph.n_vertices as int),
        entries(trees, trees.len()) + k <= 0xc000_0000_0000_0000,
    ensures
        counting::fits(
            one_leaf_search(
                query,
                data,
                dim,
                graph,
                trees,
                distance,
                k,
                epsilon,
                min_distance,
                rng,
                arithmetic,
            ).0.counts,
        ),
{
    let n = graph.n_vertices as int;
    let q = greedy::quest(
        greedy::row_distances(distance, query, data, dim),
        arithmetic.bound,
        epsilon,
        min_distance,
        k,
        false,
    );
    let routes = greedy::flat_routes(trees, arithmetic.margin, query, 1);
    greedy::flat_routes_lead_within(trees, arithmetic.margin, query, 1, query.len() as int, n);
    entries_of_routes(trees, arithmetic.margin, query, trees.len());
    counting::counts_fit(q, graph, routes, rng);
}

/// Search for several queries at once: query `i` with a generator of its own, whose seed is `seed`
/// plus `i`. Every query's result is made up to `k` entries, with index -1 and infinite distance.
pub fn batch_search<
    D: Distance + Sync,
    M: Fn(&[Single], &[Single], Single) -> Single + Sync,
    Q: Sync,
    B: Fn(Single, Single, Single) -> Single + Sync,
    S: Sync,
    C: Sync,
>(
    queries: &[Single],
    n_queries: usize,
    data: &[Single],
    dim: usize,
    graph: &SearchGraph,
    trees: &[FlatTree],
    distance: &D,
    k: usize,
    epsilon: Single,
    min_distance: Single,
    seed: u64,
    arithmetic: &Arithmetic<M, Q, B, S, C>,
) -> (r: (Vec<i32>, Vec<Single>))
    requires
        graph.wf(),
        n_queries == 0 || k == 0 || graph.n_vertices > 0,
        n_queries * dim <= queries@.len(),
        graph.n_vertices * dim <= data@.len(),
        rooted_trees_serve(trees@, dim as int, graph.n_vertices as int),
        arithmetic.serves_vectors(),
    ensures
        r.0@.len() == n_queries * k,
        r.1@.len() == n_queries * k,
        forall|i: int|
            0 <= i < n_queries ==> {
                let p = #[trigger] batched(
                    queries@,
                    data@,
                    dim as int,
                    *graph,
                    trees@,
                    *distance,
                    k as nat,
                    epsilon,
                    min_distance,
                    seed,
                    *arithmetic,
                    i,
                );
                &&& layout::row(r.0@, k as int, i) == greedy::padded(
                    model::indices_of(p),
                    k as nat,
                    -1i32,
                )
                &&& layout::row(r.1@, k as int, i) == greedy::padded(
                    model::distances_of(p),
                    k as nat,
                    Single::spec_infinity(),
                )
            },
{
    let one = |i: usize| -> (r: (Vec<i32>, Vec<Single>))
        requires
            i < n_queries,
        ensures
            ({
                let p = batched(
                    queries@,
                    data@,
                    dim as int,
                    *graph,
                    trees@,
                    *distance,
                    k as nat,
                    epsilon,
                    min_distance,
                    seed,
                    *arithmetic,
                    i as int,
                );
                r.0@ == model::indices_of(p) && r.1@ == model::distances_of(p)
            }),
            r.0@.len() <= k,
            r.0@.len() == r.1@.len(),
        {
            let mut rng = FastRng::new(seed.wrapping_add(i as u64));
            greedy_search(
                row_of(queries, n_queries, dim, i),
                data,
                dim,
                graph,
                trees,
                distance,
                k,
                epsilon,
                min_distance,
                &mut rng,
                arithmetic,
            )
        };
    let results: Vec<(Vec<i32>, Vec<Single>)> = par_map(n_queries, one);
    let mut indices: Vec<i32> = Vec::new();
    let mut distances: Vec<Single> = Vec::new();
    let mut i: usize = 0;
    while i < n_queries
        invariant
            i <= n_queries,
            results@.len() == n_queries,
            indices@.len() == i * k,
            distances@.len() == i * k,
            forall|j: int|
                0 <= j < n_queries ==> (#[trigger] results@[j]).0@.len(
                ) <= k && results@[j].0@.len()
                    == results@[j].1@.len(),
            forall|j: int|
                0 <= j < i ==> layout::row(indices@, k as int, j) == greedy::padded(
                    (#[trigger] results@[j]).0@,
                    k as nat,
                    -1i32,
                ) && layout::row(distances@, k as int, j) == greedy::padded(
                    results@[j].1@,
                    k as nat,
                    Single::spec_infinity(),
                ),
        decreases n_queries - i,
    {
        assert(results@[i as int].0@.len() <= k);
        let ghost before = (indices@, distances@);
        append_padded(&mut indices, &results[i].0, k, -1);
        append_padded(&mut distances, &results[i].1, k, Single::infinity());
        proof {
            layout::row_fits(i as int, n_queries as int, k as int);
            assert forall|j: int| 0 <= j < i + 1 implies layout::row(indices@, k as int, j)
                == greedy::padded((#[trigger] results@[j]).0@, k as nat, -1i32) && layout::row(
                distances@,
                k as int,
                j,
            ) == greedy::padded(results@[j].1@, k as nat, Single::spec_infinity()) by {
                layout::row_fits(j, i + 1, k as int);
                if j < i {
                    layout::row_fits(j, i as int, k as int);
                    assert(layout::row(indices@, k as int, j) =~= layout::row(
                        before.0,
                        k as int,
                        j,
                    ));
                    assert(layout::row(distances@, k as int, j) =~= layout::row(
                        before.1,
                        k as int,
                        j,
                    ));
                } else {
                    assert(layout::row(indices@, k as int, j) =~= greedy::padded(
                        results@[j].0@,
                        k as nat,
                        -1i32,
                    ));
                    assert(layout::row(distances@, k as int, j) =~= greedy::padded(
                        results@[j].1@,
                        k as nat,
                        Single::spec_infinity(),
                    ));
                }
            }
        }
        i = i + 1;
    }
    proof {
        assert forall|j: int| 0 <= j < n_queries implies {
            let p = #[trigger] batched(
                queries@,
                data@,
                dim as int,
                *graph,
                trees@,
                *distance,
                k as nat,
                epsilon,
                min_distance,
                seed,
                *arithmetic,
                j,
            );
            &&& layout::row(indices@, k as int, j) == greedy::padded(
                model::indices_of(p),
                k as nat,
                -1i32,
            )
            &&& layout::row(distances@, k as int, j) == greedy::padded(
                model::distances_of(p),
                k as nat,
                Single::spec_infinity(),
            )
        } by {
            assert(call_ensures(one, (j as usize,), results@[j as usize as int]));
            assert(results@[j].0@.len() <= k);
        }
    }
    (indices, distances)
}

/// What the search for query `i` of a batch comes to.
pub open spec fn batched<
    D: Distance,
    M: Fn(&[Single], &[Single], Single) -> Single,
    Q,
    B: Fn(Single, Single, Single) -> Single,
    S,
    C,
>(
    queries: Seq<Single>,
    data: Seq<Single>,
    dim: int,
    graph: SearchGraph,
    trees: Seq<FlatTree>,
    distance: D,
    k: nat,
    epsilon: Single,
    min_distance: Single,
    seed: u64,
    arithmetic: Arithmetic<M, Q, B, S, C>,
    i: int,
) -> model::Progress {
    leaf_search(
        greedy::row_distances(distance, layout::row(queries, dim, i), data, dim),
        layout::row(queries, dim, i),
        graph,
        trees,
        k,
        epsilon,
        min_distance,
        FastRng { state: rng::wrapped(seed + i) },
        arithmetic.margin,
        arithmetic.bound,
    ).0
}

/// Each query of a batch is searched for by itself, as it would be alone with a generator whose
/// seed is that of the batch plus the query's place in it.
pub proof fn batches_search_each_query<
    D: Distance,
    M: Fn(&[Single], &[Single], Single) -> Single,
    Q,
    B: Fn(Single, Single, Single) -> Single,
    S,
    C,
>(
    queries: Seq<Single>,
    data: Seq<Single>,
    dim: int,
    graph: SearchGraph,
    trees: Seq<FlatTree>,
    distance: D,
    k: nat,
    epsilon: Single,
    min_distance: Single,
    seed: u64,
    arithmetic: Arithmetic<M, Q, B, S, C>,
    i: int,
    state: u64,
)
    requires
        (seed + i - state) % 0x1_0000_0000_0000_0000 == 0,
    ensures
        batched(
            queries,
            data,
            dim,
            graph,
            trees,
            distance,
            k,
            epsilon,
            min_distance,
            seed,
            arithmetic,
            i,
        ) == one_leaf_search(
            queries.subrange(i * dim, i * dim + dim),
            data,
            dim,
            graph,
            trees,
            distance,
            k,
            epsilon,
            min_distance,
            FastRng { state },
            arithmetic,
        ).0,
{
    rng::wrapping_keeps_the_residue(seed + i, state);
}

/// A search that enters every tree at one leaf is thorough: it looks at all neighbors of every
/// result within its reach, and what it passes on the way is a result if it is near enough. It
/// starts at all points of the leaves that the query is routed to.
pub proof fn leaf_searches_are_thorough<
    M: Fn(&[Single], &[Single], Single) -> Single,
    Q,
    B: Fn(Single, Single, Single) -> Single,
    S,
    C,
>(
    distance: spec_fn(int) -> Single,
    query: Seq<Single>,
    graph: SearchGraph,
    trees: Seq<FlatTree>,
    k: nat,
    epsilon: Single,
    min_distance: Single,
    rng: FastRng,
    arithmetic: Arithmetic<M, Q, B, S, C>,
)
    requires
        graph.wf(),
        k == 0 || graph.n_vertices > 0,
        rooted_trees_serve(trees, query.len() as int, graph.n_vertices as int),
    ensures
        ({
            let p = leaf_search(
                distance,
                query,
                graph,
                trees,
                k,
                epsilon,
                min_distance,
                rng,
                arithmetic.margin,
                arithmetic.bound,
            ).0;
            let q = greedy::quest(distance, arithmetic.bound, epsilon, min_distance, k, false);
            let bound = |furthest: Single|
                calls::image3(arithmetic.bound, furthest, epsilon, min_distance);
            let indices = model::indices_of(p);
            &&& coverage::thorough(
                graph,
                distance,
                bound,
                k,
                false,
                coverage::entry(
                    q,
                    graph,
                    greedy::flat_routes(trees, arithmetic.margin, query, 1),
                    rng,
                ).found.len() == k,
                p.visited,
                indices,
                model::distances_of(p),
            )
            &&& k > 0 ==> indices.len() > 0
            &&& forall|t: int|
                0 <= t < trees.len() ==> coverage::leaves_taken_in(
                        (#[trigger] trees[t]).children@,
                        trees[t].margins(arithmetic.margin, query),
                        1,
                        trees[t].indices@,
                        p.visited,
                    )
        }),
{
    let n = graph.n_vertices as int;
    let p = leaf_search(
        distance,
        query,
        graph,
        trees,
        k,
        epsilon,
        min_distance,
        rng,
        arithmetic.margin,
        arithmetic.bound,
    ).0;
    let q = greedy::quest(distance, arithmetic.bound, epsilon, min_distance, k, false);
    let bound = |furthest: Single|
        calls::image3(arithmetic.bound, furthest, epsilon, min_distance);
    let routes = greedy::flat_routes(trees, arithmetic.margin, query, 1);
    greedy::flat_routes_lead_within(trees, arithmetic.margin, query, 1, query.len() as int, n);
    coverage::searches_are_thorough(q, graph, routes, rng);
    assert(q.bound =~= bound);
    assert forall|t: int| 0 <= t < trees.len() implies coverage::leaves_taken_in(
            (#[trigger] trees[t]).children@,
            trees[t].margins(arithmetic.margin, query),
            1,
            trees[t].indices@,
            p.visited,
        ) by {
        assert(coverage::tree_taken_in(routes, t, p.visited));
        let r = choose|r: FastRng|
            coverage::taken_in(
                (routes.indices)(t),
                (#[trigger] (routes.route)(t, r)).leaves,
                p.visited,
            );
        assert(coverage::taken_in(
            trees[t].indices@,
            routing::routed(
                trees[t].children@,
                trees[t].margins(arithmetic.margin, query),
                1,
                r,
            ).leaves,
            p.visited,
        ));
    }
}

/// A search that enters every tree at one leaf visits no more than it has to.
pub proof fn leaf_searches_are_economical<
    M: Fn(&[Single], &[Single], Single) -> Single,
    B: Fn(Single, Single, Single) -> Single,
>(
    distance: spec_fn(int) -> Single,
    query: Seq<Single>,
    graph: SearchGraph,
    trees: Seq<FlatTree>,
    k: nat,
    epsilon: Single,
    min_distance: Single,
    rng: FastRng,
    margin: M,
    bound: B,
)
    requires
        graph.wf(),
        k == 0 || graph.n_vertices > 0,
        rooted_trees_serve(trees, query.len() as int, graph.n_vertices as int),
    ensures
        economy::economical(
            model::Quest {
                distance,
                bound: |furthest: Single| calls::image3(bound, furthest, epsilon, min_distance),
                k,
                fills: false,
            },
            graph,
            greedy::flat_routes(trees, margin, query, 1),
            rng,
            leaf_search(
                distance,
                query,
                graph,
                trees,
                k,
                epsilon,
                min_distance,
                rng,
                margin,
                bound,
            ).0.visited,
        ),
{
    let q = greedy::quest(distance, bound, epsilon, min_distance, k, false);
    assert(q.bound =~= (|furthest: Single|
        calls::image3(bound, furthest, epsilon, min_distance)));
    greedy::flat_routes_lead_within(
        trees,
        margin,
        query,
        1,
        query.len() as int,
        graph.n_vertices as int,
    );
    economy::searches_are_economical(
        q,
        graph,
        greedy::flat_routes(trees, margin, query, 1),
        rng,
    );
}

} // verus!
