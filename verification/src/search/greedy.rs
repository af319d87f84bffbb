//! Production greedy graph search for approximate nearest neighbors.

use crate::calls;
use crate::distance::alternatives;
use crate::distance::alternatives::DirectNormalizedCosine;
use crate::distance::quantized;
use crate::distance::quantized::quantized_i8_dot;
use crate::distance::Distance;
use crate::graph::SearchGraph;
use crate::heap::bounded;
use crate::heap::BoundedHeap;
use crate::layout;
use crate::layout::row_of;
use crate::parallel::par_map;
use crate::rng;
use crate::rng::FastRng;
use crate::search::arithmetic::Arithmetic;
use crate::search::coverage;
use crate::search::engine;
use crate::search::engine::{fill_random, seed_leaves, traverse};
use crate::search::model;
use crate::search::workspace::SearchWorkspace;
use crate::single::Single;
use crate::tree::routing;
use crate::tree::{FlatTree, QuantizedFlatTree};
use vstd::prelude::*;

verus! {

/// How a vector is routed through trees.
pub open spec fn flat_routes<M: Fn(&[Single], &[Single], Single) -> Single>(
    trees: Seq<FlatTree>,
    margin: M,
    query: Seq<Single>,
    budget: nat,
) -> model::Routes {
    model::Routes {
        count: trees.len(),
        route: |i: int, r: FastRng|
            routing::routed(trees[i].children@, trees[i].margins(margin, query), budget, r),
        indices: |i: int| trees[i].indices@,
    }
}

/// How codes are routed through quantized trees.
pub open spec fn quantized_routes<Q: Fn(i32, Single, Single, Single) -> Single>(
    trees: Seq<QuantizedFlatTree>,
    rescale: Q,
    query: Seq<i8>,
    query_scale: Single,
    budget: nat,
) -> model::Routes {
    model::Routes {
        count: trees.len(),
        route: |i: int, r: FastRng|
            routing::routed(
                trees[i].children@,
                trees[i].margins(rescale, query, query_scale),
                budget,
                r,
            ),
        indices: |i: int| trees[i].indices@,
    }
}

/// Each tree is entered by itself, with the query's margins at its own hyperplanes and the whole
/// budget, and leads to its own points.
pub proof fn routes_are_of_their_trees<
    M: Fn(&[Single], &[Single], Single) -> Single,
    Q: Fn(i32, Single, Single, Single) -> Single,
>(
    trees: Seq<FlatTree>,
    margin: M,
    query: Seq<Single>,
    coded_trees: Seq<QuantizedFlatTree>,
    rescale: Q,
    codes: Seq<i8>,
    scale: Single,
    budget: nat,
    t: int,
    r: FastRng,
)
    ensures
        ({
            let routes = flat_routes(trees, margin, query, budget);
            &&& routes.count == trees.len()
            &&& (routes.indices)(t) == trees[t].indices@
            &&& (routes.route)(t, r) == routing::routed(
                trees[t].children@,
                trees[t].margins(margin, query),
                budget,
                r,
            )
        }),
        ({
            let routes = quantized_routes(coded_trees, rescale, codes, scale, budget);
            &&& routes.count == coded_trees.len()
            &&& (routes.indices)(t) == coded_trees[t].indices@
            &&& (routes.route)(t, r) == routing::routed(
                coded_trees[t].children@,
                coded_trees[t].margins(rescale, codes, scale),
                budget,
                r,
            )
        }),
        chosen_routes(query, trees, margin, None, codes, scale, rescale, budget) == flat_routes(
            trees,
            margin,
            query,
            budget,
        ),
        chosen_routes(
            query,
            trees,
            margin,
            Some(coded_trees),
            codes,
            scale,
            rescale,
            budget,
        ) == quantized_routes(coded_trees, rescale, codes, scale, budget),
{
}

/// The distances of the rows of `data` from a query.
pub open spec fn row_distances<D: Distance>(
    distance: D,
    query: Seq<Single>,
    data: Seq<Single>,
    dim: int,
) -> spec_fn(int) -> Single {
    |i: int| distance.between(query, layout::row(data, dim, i))
}

/// The distances of coded rows from a coded query.
pub open spec fn code_distances<
    S: Fn(i32, Single, Single) -> Single,
    C: Fn(Single) -> Single,
>(
    similarity: S,
    one_minus: C,
    query: Seq<i8>,
    query_inv_norm: Single,
    data: Seq<i8>,
    inv_norms: Seq<Single>,
    dim: int,
) -> spec_fn(int) -> Single {
    |i: int|
        calls::image1(
            one_minus,
            alternatives::clamped(
                calls::image3(
                    similarity,
                    quantized::register(
                        quantized::dot(
                            quantized::integers(query),
                            quantized::integers(layout::row(data, dim, i)),
                        ),
                    ) as i32,
                    query_inv_norm,
                    inv_norms[i],
                ),
            ),
        )
}

/// A search for `k` results.
pub open spec fn quest<B: Fn(Single, Single, Single) -> Single>(
    distance: spec_fn(int) -> Single,
    bound: B,
    epsilon: Single,
    min_distance: Single,
    k: nat,
    fills: bool,
) -> model::Quest {
    model::Quest {
        distance,
        bound: |furthest: Single| calls::image3(bound, furthest, epsilon, min_distance),
        k,
        fills,
    }
}

/// The trees are sound, for vectors of length `dim`, over `n` points.
pub open spec fn trees_serve(trees: Seq<FlatTree>, dim: int, n: int) -> bool {
    forall|t: int|
        0 <= t < trees.len() ==> {
            &&& (#[trigger] trees[t]).wf()
            &&& trees[t].dim == dim
            &&& forall|i: int|
                0 <= i < trees[t].indices@.len() ==> #[trigger] trees[t].indices@[i] < n
        }
}

/// The quantized trees are sound, for codes of length `dim`, over `n` points.
pub open spec fn quantized_trees_serve(trees: Seq<QuantizedFlatTree>, dim: int, n: int) -> bool {
    forall|t: int|
        0 <= t < trees.len() ==> {
            &&& (#[trigger] trees[t]).wf()
            &&& trees[t].dim == dim
            &&& forall|i: int|
                0 <= i < trees[t].indices@.len() ==> #[trigger] trees[t].indices@[i] < n
        }
}

/// What a search over vectors comes to.
pub open spec fn vector_search<
    D: Distance,
    M: Fn(&[Single], &[Single], Single) -> Single,
    Q,
    B: Fn(Single, Single, Single) -> Single,
    S,
    C,
>(
    query: Seq<Single>,
    data: Seq<Single>,
    dim: int,
    graph: SearchGraph,
    trees: Seq<FlatTree>,
    tree_leaf_budget: nat,
    distance: D,
    k: nat,
    epsilon: Single,
    min_distance: Single,
    rng: FastRng,
    arithmetic: Arithmetic<M, Q, B, S, C>,
) -> (model::Progress, FastRng) {
    model::finished(
        quest(
            row_distances(distance, query, data, dim),
            arithmetic.bound,
            epsilon,
            min_distance,
            k,
            true,
        ),
        graph,
        flat_routes(trees, arithmetic.margin, query, tree_leaf_budget),
        rng,
    )
}

/// Take the points of the leaves that a query is routed to.
fn initialize_from_trees<F: Fn(i32) -> Single, M: Fn(&[Single], &[Single], Single) -> Single>(
    query: &[Single],
    trees: &[FlatTree],
    tree_leaf_budget: usize,
    margin: &M,
    n_points: usize,
    k: usize,
    distance_to: &F,
    rng: &mut FastRng,
    workspace: &mut SearchWorkspace,
    Ghost(q): Ghost<model::Quest>,
)
    requires
        old(workspace).holds(n_points, k, model::begun()),
        q.k == k,
        engine::answers(*distance_to, q.distance, n_points as int),
        calls::scores(*margin),
        trees_serve(trees@, query@.len() as int, n_points as int),
    ensures
        ({
            let routes = flat_routes(trees@, *margin, query@, tree_leaf_budget as nat);
            let (p, r) = model::rooted(q, routes, routes.count, *old(rng));
            &&& final(workspace).holds(n_points, k, p)
            &&& *final(rng) == r
            &&& model::consistent(q, n_points as int, p)
            &&& model::balanced(p)
        }),
{
    let ghost routes = flat_routes(trees@, *margin, query@, tree_leaf_budget as nat);
    let ghost start = *rng;
    let mut t: usize = 0;
    proof {
        model::beginning_is_consistent(q, n_points as int);
    }
    while t < trees.len()
        invariant
            t <= trees@.len(),
            routes == flat_routes(trees@, *margin, query@, tree_leaf_budget as nat),
            q.k == k,
            engine::answers(*distance_to, q.distance, n_points as int),
            calls::scores(*margin),
            trees_serve(trees@, query@.len() as int, n_points as int),
            workspace.holds(n_points, k, model::rooted(q, routes, t as nat, start).0),
            *rng == model::rooted(q, routes, t as nat, start).1,
            model::consistent(
                q,
                n_points as int,
                model::rooted(q, routes, t as nat, start).0,
            ),
            model::balanced(model::rooted(q, routes, t as nat, start).0),
        decreases trees@.len() - t,
    {
        let ghost p = model::rooted(q, routes, t as nat, start).0;
        let ghost here = *rng;
        let tree = &trees[t];
        assert(trees@[t as int].wf());
        let _ = tree.search_leaves(
            query,
            rng,
            tree_leaf_budget,
            &mut workspace.tree_frontier,
            &mut workspace.tree_leaves,
            margin,
        );
        let ghost leaves = workspace.tree_leaves@;
        proof {
            assert((routes.route)(t as int, here) == routing::routed(
                tree.children@,
                tree.margins(*margin, query@),
                tree_leaf_budget as nat,
                here,
            ));
            assert(leaves == (routes.route)(t as int, here).leaves);
            assert(*rng == (routes.route)(t as int, here).rng);
            model::seeding_leaves_keeps(q, n_points as int, p, tree.indices@, leaves);
        }
        seed_leaves(&tree.indices, distance_to, workspace, Ghost(q), Ghost(p));
        t = t + 1;
    }
}

/// Search for the nearest rows of `data`.
fn search<
    D: Distance,
    M: Fn(&[Single], &[Single], Single) -> Single,
    Q,
    B: Fn(Single, Single, Single) -> Single,
    S,
    C,
>(
    query: &[Single],
    data: &[Single],
    dim: usize,
    graph: &SearchGraph,
    trees: &[FlatTree],
    tree_leaf_budget: usize,
    distance: &D,
    k: usize,
    epsilon: Single,
    min_distance: Single,
    rng: &mut FastRng,
    workspace: &mut SearchWorkspace,
    arithmetic: &Arithmetic<M, Q, B, S, C>,
) -> (heap: BoundedHeap)
    requires
        old(workspace).wf(),
        graph.wf(),
        k == 0 || graph.n_vertices > 0,
        query@.len() == dim,
        graph.n_vertices * dim <= data@.len(),
        trees_serve(trees@, dim as int, graph.n_vertices as int),
        arithmetic.serves_vectors(),
    ensures
        heap.wf(),
        ({
            let (p, r) = vector_search(
                query@,
                data@,
                dim as int,
                *graph,
                trees@,
                tree_leaf_budget as nat,
                *distance,
                k as nat,
                epsilon,
                min_distance,
                *old(rng),
                *arithmetic,
            );
            &&& heap@ == p.found
            &&& final(workspace).shows(graph.n_vertices, k, p)
            &&& *final(rng) == r
            &&& model::are_results(
                row_distances(*distance, query@, data@, dim as int),
                graph.n_vertices as int,
                k as nat,
                model::indices_of(p),
                model::distances_of(p),
            )
        }),
{
    let n: usize = graph.n_vertices;
    let ghost q = quest(
        row_distances(*distance, query@, data@, dim as int),
        arithmetic.bound,
        epsilon,
        min_distance,
        k as nat,
        true,
    );
    let ghost routes = flat_routes(trees@, arithmetic.margin, query@, tree_leaf_budget as nat);
    let ghost start = *rng;
    let distance_to = |idx: i32| -> (d: Single)
        requires
            0 <= idx < n,
        ensures
            d == distance.between(query@, layout::row(data@, dim as int, idx as int)),
        { distance.distance(query, row_of(data, n, dim, idx as usize)) };
    workspace.reset(n, k);
    initialize_from_trees(
        query,
        trees,
        tree_leaf_budget,
        &arithmetic.margin,
        n,
        k,
        &distance_to,
        rng,
        workspace,
        Ghost(q),
    );
    let ghost p = model::rooted(q, routes, routes.count, start).0;
    let ghost r = *rng;
    proof {
        model::scattering_keeps(q, n as int, p, model::missing(q, p), r);
    }
    fill_random(n, k, &distance_to, rng, workspace, Ghost(q), Ghost(p));
    let ghost s = model::scattered(q, p, n as int, model::missing(q, p), r).0;
    traverse(
        graph,
        k,
        epsilon,
        min_distance,
        true,
        &distance_to,
        &arithmetic.bound,
        workspace,
        Ghost(q),
        Ghost(s),
    );
    proof {
        let end = model::finished(q, *graph, routes, start).0;
        workspace.holding_shows(n, k, end);
        model::traversing_keeps(
            q,
            *graph,
            s,
            (q.bound)(bounded::furthest(s.found, q.k)),
        );
        model::consistent_gives_results(q, n as int, end);
    }
    workspace.result_heap.clone()
}

/// Search for the `k` nearest rows of `data`, using a caller-provided workspace.
///
/// Seeds come from the leaves of `trees` that the query is routed to, up to `tree_leaf_budget` per
/// tree, and from random draws. Returns the indices and the distances of what was found, nearest
/// first.
pub fn greedy_search_with_workspace_initialized<
    D: Distance,
    M: Fn(&[Single], &[Single], Single) -> Single,
    Q,
    B: Fn(Single, Single, Single) -> Single,
    S,
    C,
>(
    query: &[Single],
    data: &[Single],
    dim: usize,
    graph: &SearchGraph,
    trees: &[FlatTree],
    tree_leaf_budget: usize,
    distance: &D,
    k: usize,
    epsilon: Single,
    min_distance: Single,
    rng: &mut FastRng,
    workspace: &mut SearchWorkspace,
    arithmetic: &Arithmetic<M, Q, B, S, C>,
) -> (r: (Vec<i32>, Vec<Single>))
    requires
        old(workspace).wf(),
        graph.wf(),
        k == 0 || graph.n_vertices > 0,
        query@.len() == dim,
        graph.n_vertices * dim <= data@.len(),
        trees_serve(trees@, dim as int, graph.n_vertices as int),
        arithmetic.serves_vectors(),
    ensures
        ({
            let (p, end) = vector_search(
                query@,
                data@,
                dim as int,
                *graph,
                trees@,
                tree_leaf_budget as nat,
                *distance,
                k as nat,
                epsilon,
                min_distance,
                *old(rng),
                *arithmetic,
            );
            &&& model::yields((p, end), r.0@, r.1@, *final(rng))
            &&& final(workspace).shows(graph.n_vertices, k, p)
        }),
        model::are_results(
            row_distances(*distance, query@, data@, dim as int),
            graph.n_vertices as int,
            k as nat,
            r.0@,
            r.1@,
        ),
{
    search(
        query,
        data,
        dim,
        graph,
        trees,
        tree_leaf_budget,
        distance,
        k,
        epsilon,
        min_distance,
        rng,
        workspace,
        arithmetic,
    ).into_sorted()
}

/// Search for the `k` nearest rows of `data`, using a caller-provided workspace.
pub fn greedy_search_with_workspace<
    D: Distance,
    M: Fn(&[Single], &[Single], Single) -> Single,
    Q,
    B: Fn(Single, Single, Single) -> Single,
    S,
    C,
>(
    query: &[Single],
    data: &[Single],
    dim: usize,
    graph: &SearchGraph,
    trees: &[FlatTree],
    tree_leaf_budget: usize,
    distance: &D,
    k: usize,
    epsilon: Single,
    min_distance: Single,
    rng: &mut FastRng,
    workspace: &mut SearchWorkspace,
    arithmetic: &Arithmetic<M, Q, B, S, C>,
) -> (r: (Vec<i32>, Vec<Single>))
    requires
        old(workspace).wf(),
        graph.wf(),
        k == 0 || graph.n_vertices > 0,
        query@.len() == dim,
        graph.n_vertices * dim <= data@.len(),
        trees_serve(trees@, dim as int, graph.n_vertices as int),
        arithmetic.serves_vectors(),
    ensures
        ({
            let (p, end) = vector_search(
                query@,
                data@,
                dim as int,
                *graph,
                trees@,
                tree_leaf_budget as nat,
                *distance,
                k as nat,
                epsilon,
                min_distance,
                *old(rng),
                *arithmetic,
            );
            &&& model::yields((p, end), r.0@, r.1@, *final(rng))
            &&& final(workspace).shows(graph.n_vertices, k, p)
        }),
        model::are_results(
            row_distances(*distance, query@, data@, dim as int),
            graph.n_vertices as int,
            k as nat,
            r.0@,
            r.1@,
        ),
{
    greedy_search_with_workspace_initialized(
        query,
        data,
        dim,
        graph,
        trees,
        tree_leaf_budget,
        distance,
        k,
        epsilon,
        min_distance,
        rng,
        workspace,
        arithmetic,
    )
}

/// Search for the `k` nearest rows of `data` and return only their indices, avoiding
/// distance-result allocation.
pub fn greedy_search_indices_with_workspace_initialized<
    D: Distance,
    M: Fn(&[Single], &[Single], Single) -> Single,
    Q,
    B: Fn(Single, Single, Single) -> Single,
    S,
    C,
>(
    query: &[Single],
    data: &[Single],
    dim: usize,
    graph: &SearchGraph,
    trees: &[FlatTree],
    tree_leaf_budget: usize,
    distance: &D,
    k: usize,
    epsilon: Single,
    min_distance: Single,
    rng: &mut FastRng,
    workspace: &mut SearchWorkspace,
    arithmetic: &Arithmetic<M, Q, B, S, C>,
) -> (r: Vec<i32>)
    requires
        old(workspace).wf(),
        graph.wf(),
        k == 0 || graph.n_vertices > 0,
        query@.len() == dim,
        graph.n_vertices * dim <= data@.len(),
        trees_serve(trees@, dim as int, graph.n_vertices as int),
        arithmetic.serves_vectors(),
    ensures
        ({
            let (p, end) = vector_search(
                query@,
                data@,
                dim as int,
                *graph,
                trees@,
                tree_leaf_budget as nat,
                *distance,
                k as nat,
                epsilon,
                min_distance,
                *old(rng),
                *arithmetic,
            );
            &&& model::yields_indices((p, end), r@, *final(rng))
            &&& final(workspace).shows(graph.n_vertices, k, p)
            &&& model::are_results(
                row_distances(*distance, query@, data@, dim as int),
                graph.n_vertices as int,
                k as nat,
                r@,
                model::distances_of(p),
            )
        }),
{
    search(
        query,
        data,
        dim,
        graph,
        trees,
        tree_leaf_budget,
        distance,
        k,
        epsilon,
        min_distance,
        rng,
        workspace,
        arithmetic,
    ).into_sorted_indices()
}

/// Search for the `k` nearest rows of `data` and return only their indices.
pub fn greedy_search_indices_with_workspace<
    D: Distance,
    M: Fn(&[Single], &[Single], Single) -> Single,
    Q,
    B: Fn(Single, Single, Single) -> Single,
    S,
    C,
>(
    query: &[Single],
    data: &[Single],
    dim: usize,
    graph: &SearchGraph,
    trees: &[FlatTree],
    tree_leaf_budget: usize,
    distance: &D,
    k: usize,
    epsilon: Single,
    min_distance: Single,
    rng: &mut FastRng,
    workspace: &mut SearchWorkspace,
    arithmetic: &Arithmetic<M, Q, B, S, C>,
) -> (r: Vec<i32>)
    requires
        old(workspace).wf(),
        graph.wf(),
        k == 0 || graph.n_vertices > 0,
        query@.len() == dim,
        graph.n_vertices * dim <= data@.len(),
        trees_serve(trees@, dim as int, graph.n_vertices as int),
        arithmetic.serves_vectors(),
    ensures
        ({
            let (p, end) = vector_search(
                query@,
                data@,
                dim as int,
                *graph,
                trees@,
                tree_leaf_budget as nat,
                *distance,
                k as nat,
                epsilon,
                min_distance,
                *old(rng),
                *arithmetic,
            );
            &&& model::yields_indices((p, end), r@, *final(rng))
            &&& final(workspace).shows(graph.n_vertices, k, p)
            &&& model::are_results(
                row_distances(*distance, query@, data@, dim as int),
                graph.n_vertices as int,
                k as nat,
                r@,
                model::distances_of(p),
            )
        }),
{
    greedy_search_indices_with_workspace_initialized(
        query,
        data,
        dim,
        graph,
        trees,
        tree_leaf_budget,
        distance,
        k,
        epsilon,
        min_distance,
        rng,
        workspace,
        arithmetic,
    )
}

/// Greedy search on a k-NN graph: for the `k` nearest rows of `data`.
///
/// `epsilon` widens the search beyond the furthest result: zero is exact search on the graph,
/// higher is more exploration.
pub fn greedy_search<
    D: Distance,
    M: Fn(&[Single], &[Single], Single) -> Single,
    Q,
    B: Fn(Single, Single, Single) -> Single,
    S,
    C,
>(
    query: &[Single],
    data: &[Single],
    dim: usize,
    graph: &SearchGraph,
    trees: &[FlatTree],
    tree_leaf_budget: usize,
    distance: &D,
    k: usize,
    epsilon: Single,
    min_distance: Single,
    rng: &mut FastRng,
    arithmetic: &Arithmetic<M, Q, B, S, C>,
) -> (r: (Vec<i32>, Vec<Single>))
    requires
        graph.wf(),
        k == 0 || graph.n_vertices > 0,
        query@.len() == dim,
        graph.n_vertices * dim <= data@.len(),
        trees_serve(trees@, dim as int, graph.n_vertices as int),
        arithmetic.serves_vectors(),
    ensures
        ({
            let (p, end) = vector_search(
                query@,
                data@,
                dim as int,
                *graph,
                trees@,
                tree_leaf_budget as nat,
                *distance,
                k as nat,
                epsilon,
                min_distance,
                *old(rng),
                *arithmetic,
            );
            &&& model::yields((p, end), r.0@, r.1@, *final(rng))
        }),
        model::are_results(
            row_distances(*distance, query@, data@, dim as int),
            graph.n_vertices as int,
            k as nat,
            r.0@,
            r.1@,
        ),
{
    let mut workspace = SearchWorkspace::new(graph.n_vertices, k);
    greedy_search_with_workspace(
        query,
        data,
        dim,
        graph,
        trees,
        tree_leaf_budget,
        distance,
        k,
        epsilon,
        min_distance,
        rng,
        &mut workspace,
        arithmetic,
    )
}

/// A search for indices alone finds the indices that the full search finds, and leaves the
/// generator where that leaves it, whatever their workspaces were used for.
pub proof fn indices_alone_are_the_same<
    D: Distance,
    M: Fn(&[Single], &[Single], Single) -> Single,
    Q,
    B: Fn(Single, Single, Single) -> Single,
    S,
    C,
>(
    query: Seq<Single>,
    data: Seq<Single>,
    dim: int,
    graph: SearchGraph,
    trees: Seq<FlatTree>,
    tree_leaf_budget: nat,
    distance: D,
    k: nat,
    epsilon: Single,
    min_distance: Single,
    rng: FastRng,
    arithmetic: Arithmetic<M, Q, B, S, C>,
    full: (Seq<i32>, Seq<Single>, FastRng),
    alone: (Seq<i32>, FastRng),
)
    requires
        model::yields(
            vector_search(
                query,
                data,
                dim,
                graph,
                trees,
                tree_leaf_budget,
                distance,
                k,
                epsilon,
                min_distance,
                rng,
                arithmetic,
            ),
            full.0,
            full.1,
            full.2,
        ),
        model::yields_indices(
            vector_search(
                query,
                data,
                dim,
                graph,
                trees,
                tree_leaf_budget,
                distance,
                k,
                epsilon,
                min_distance,
                rng,
                arithmetic,
            ),
            alone.0,
            alone.1,
        ),
    ensures
        alone == (full.0, full.2),
{
}

/// `s`, made up to `k` elements with `filler`.
pub open spec fn padded<T>(s: Seq<T>, k: nat, filler: T) -> Seq<T> {
    s + Seq::new(
        if s.len() < k {
            (k - s.len()) as nat
        } else {
            0
        },
        |i: int| filler,
    )
}

/// Add a result to others, made up to `k` elements.
pub(crate) fn append_padded<T: Copy>(all: &mut Vec<T>, one: &Vec<T>, k: usize, filler: T)
    ensures
        final(all)@ == old(all)@ + padded(one@, k as nat, filler),
{
    let mut i: usize = 0;
    while i < one.len()
        invariant
            i <= one@.len(),
            all@ == old(all)@ + one@.take(i as int),
        decreases one@.len() - i,
    {
        all.push(one[i]);
        i = i + 1;
        assert(all@ =~= old(all)@ + one@.take(i as int));
    }
    let ghost made = all@;
    let mut j: usize = one.len();
    while j < k
        invariant
            one@.len() <= j,
            j <= k || j == one@.len(),
            all@ == made + Seq::new((j - one@.len()) as nat, |i: int| filler),
        decreases k - j,
    {
        all.push(filler);
        j = j + 1;
        assert(all@ =~= made + Seq::new((j - one@.len()) as nat, |i: int| filler));
    }
    assert(all@ =~= old(all)@ + padded(one@, k as nat, filler));
}

/// Search for several queries at once: query `i` with a generator of its own, whose seed is `seed`
/// plus `i`. Every query's result is made up to `k` entries, with index -1 and infinite distance.
pub fn batch_search<
    D: Distance + Sync,
    M: Fn(&[Single], &[Single], Single) -> Single + Sync,
    Q: Sync,
    B: Fn(Single, Single, Single) -> Single + Sync,
    S: Sync,
    C: Sync,
>(
    queries: &[Single],
    n_queries: usize,
    data: &[Single],
    dim: usize,
    graph: &SearchGraph,
    trees: &[FlatTree],
    tree_leaf_budget: usize,
    distance: &D,
    k: usize,
    epsilon: Single,
    min_distance: Single,
    seed: u64,
    arithmetic: &Arithmetic<M, Q, B, S, C>,
) -> (r: (Vec<i32>, Vec<Single>))
    requires
        graph.wf(),
        n_queries == 0 || k == 0 || graph.n_vertices > 0,
        n_queries * dim <= queries@.len(),
        graph.n_vertices * dim <= data@.len(),
        trees_serve(trees@, dim as int, graph.n_vertices as int),
        arithmetic.serves_vectors(),
    ensures
        r.0@.len() == n_queries * k,
        r.1@.len() == n_queries * k,
        forall|i: int|
            0 <= i < n_queries ==> {
                let p = #[trigger] batched(
                    queries@,
                    data@,
                    dim as int,
                    *graph,
                    trees@,
                    tree_leaf_budget as nat,
                    *distance,
                    k as nat,
                    epsilon,
                    min_distance,
                    seed,
                    *arithmetic,
                    i,
                );
                &&& layout::row(r.0@, k as int, i) == padded(model::indices_of(p), k as nat, -1i32)
                &&& layout::row(r.1@, k as int, i) == padded(
                    model::distances_of(p),
                    k as nat,
                    Single::spec_infinity(),
                )
            },
{
    let one = |i: usize| -> (r: (Vec<i32>, Vec<Single>))
        requires
            i < n_queries,
        ensures
            ({
                let p = batched(
                    queries@,
                    data@,
                    dim as int,
                    *graph,
                    trees@,
                    tree_leaf_budget as nat,
                    *distance,
                    k as nat,
                    epsilon,
                    min_distance,
                    seed,
                    *arithmetic,
                    i as int,
                );
                r.0@ == model::indices_of(p) && r.1@ == model::distances_of(p)
            }),
            r.0@.len() <= k,
            r.0@.len() == r.1@.len(),
        {
            let mut rng = FastRng::new(seed.wrapping_add(i as u64));
            greedy_search(
                row_of(queries, n_queries, dim, i),
                data,
                dim,
                graph,
                trees,
                tree_leaf_budget,
                distance,
                k,
                epsilon,
                min_distance,
                &mut rng,
                arithmetic,
            )
        };
    let results: Vec<(Vec<i32>, Vec<Single>)> = par_map(n_queries, one);
    let mut indices: Vec<i32> = Vec::new();
    let mut distances: Vec<Single> = Vec::new();
    let mut i: usize = 0;
    while i < n_queries
        invariant
            i <= n_queries,
            results@.len() == n_queries,
            indices@.len() == i * k,
            distances@.len() == i * k,
            forall|j: int|
                0 <= j < n_queries ==> (#[trigger] results@[j]).0@.len() <= k
                    && results@[j].0@.len()
                    == results@[j].1@.len(),
            forall|j: int|
                0 <= j < i ==> layout::row(indices@, k as int, j) == padded(
                    (#[trigger] results@[j]).0@,
                    k as nat,
                    -1i32,
                ) && layout::row(distances@, k as int, j) == padded(
                    results@[j].1@,
                    k as nat,
                    Single::spec_infinity(),
                ),
        decreases n_queries - i,
    {
        assert(results@[i as int].0@.len() <= k);
        let ghost before = (indices@, distances@);
        append_padded(&mut indices, &results[i].0, k, -1);
        append_padded(&mut distances, &results[i].1, k, Single::infinity());
        proof {
            layout::row_fits(i as int, n_queries as int, k as int);
            assert forall|j: int| 0 <= j < i + 1 implies layout::row(indices@, k as int, j)
                == padded((#[trigger] results@[j]).0@, k as nat, -1i32) && layout::row(
                distances@,
                k as int,
                j,
            ) == padded(results@[j].1@, k as nat, Single::spec_infinity()) by {
                layout::row_fits(j, i + 1, k as int);
                if j < i {
                    layout::row_fits(j, i as int, k as int);
                    assert(layout::row(indices@, k as int, j) =~= layout::row(
                        before.0,
                        k as int,
                        j,
                    ));
                    assert(layout::row(distances@, k as int, j) =~= layout::row(
                        before.1,
                        k as int,
                        j,
                    ));
                } else {
                    assert(layout::row(indices@, k as int, j) =~= padded(
                        results@[j].0@,
                        k as nat,
                        -1i32,
                    ));
                    assert(layout::row(distances@, k as int, j) =~= padded(
                        results@[j].1@,
                        k as nat,
                        Single::spec_infinity(),
                    ));
                }
            }
        }
        i = i + 1;
    }
    proof {
        assert forall|j: int| 0 <= j < n_queries implies {
            let p = #[trigger] batched(
                queries@,
                data@,
                dim as int,
                *graph,
                trees@,
                tree_leaf_budget as nat,
                *distance,
                k as nat,
                epsilon,
                min_distance,
                seed,
                *arithmetic,
                j,
            );
            &&& layout::row(indices@, k as int, j) == padded(model::indices_of(p), k as nat, -1i32)
            &&& layout::row(distances@, k as int, j) == padded(
                model::distances_of(p),
                k as nat,
                Single::spec_infinity(),
            )
        } by {
            assert(call_ensures(one, (j as usize,), results@[j as usize as int]));
            assert(results@[j].0@.len() <= k);
        }
    }
    (indices, distances)
}

/// What the search for query `i` of a batch comes to.
pub open spec fn batched<
    D: Distance,
    M: Fn(&[Single], &[Single], Single) -> Single,
    Q,
    B: Fn(Single, Single, Single) -> Single,
    S,
    C,
>(
    queries: Seq<Single>,
    data: Seq<Single>,
    dim: int,
    graph: SearchGraph,
    trees: Seq<FlatTree>,
    tree_leaf_budget: nat,
    distance: D,
    k: nat,
    epsilon: Single,
    min_distance: Single,
    seed: u64,
    arithmetic: Arithmetic<M, Q, B, S, C>,
    i: int,
) -> model::Progress {
    vector_search(
        layout::row(queries, dim, i),
        data,
        dim,
        graph,
        trees,
        tree_leaf_budget,
        distance,
        k,
        epsilon,
        min_distance,
        FastRng { state: rng::wrapped(seed + i) },
        arithmetic,
    ).0
}

/// Each query of a batch is searched for by itself, as it would be alone with a generator whose
/// seed is that of the batch plus the query's place in it.
pub proof fn batches_search_each_query<
    D: Distance,
    M: Fn(&[Single], &[Single], Single) -> Single,
    Q,
    B: Fn(Single, Single, Single) -> Single,
    S,
    C,
>(
    queries: Seq<Single>,
    data: Seq<Single>,
    dim: int,
    graph: SearchGraph,
    trees: Seq<FlatTree>,
    tree_leaf_budget: nat,
    distance: D,
    k: nat,
    epsilon: Single,
    min_distance: Single,
    seed: u64,
    arithmetic: Arithmetic<M, Q, B, S, C>,
    i: int,
    state: u64,
)
    requires
        (seed + i - state) % 0x1_0000_0000_0000_0000 == 0,
    ensures
        batched(
            queries,
            data,
            dim,
            graph,
            trees,
            tree_leaf_budget,
            distance,
            k,
            epsilon,
            min_distance,
            seed,
            arithmetic,
            i,
        ) == vector_search(
            queries.subrange(i * dim, i * dim + dim),
            data,
            dim,
            graph,
            trees,
            tree_leaf_budget,
            distance,
            k,
            epsilon,
            min_distance,
            FastRng { state },
            arithmetic,
        ).0,
{
    rng::wrapping_keeps_the_residue(seed + i, state);
}

/// A result that is made up has `k` elements, unless it had more; its own come first, and then
/// fillers.
pub proof fn padding_comes_last<T>(s: Seq<T>, k: nat, filler: T, i: int)
    ensures
        s.len() <= k ==> padded(s, k, filler).len() == k,
        s.len() >= k ==> padded(s, k, filler) == s,
        0 <= i < s.len() ==> padded(s, k, filler)[i] == s[i],
        s.len() <= i < k ==> padded(s, k, filler)[i] == filler,
{
    if s.len() >= k {
        assert(padded(s, k, filler) =~= s);
    }
}

/// The trees of a slice of them, where there is one.
pub open spec fn contents(trees: Option<&[QuantizedFlatTree]>) -> Option<Seq<QuantizedFlatTree>> {
    match trees {
        Some(trees) => Some(trees@),
        None => None,
    }
}

/// How a query is routed: its codes through quantized trees where there are such, and its vector
/// through the others elsewhere.
pub open spec fn chosen_routes<
    M: Fn(&[Single], &[Single], Single) -> Single,
    Q: Fn(i32, Single, Single, Single) -> Single,
>(
    tree_query: Seq<Single>,
    trees: Seq<FlatTree>,
    margin: M,
    quantized_trees: Option<Seq<QuantizedFlatTree>>,
    quantized_tree_query: Seq<i8>,
    tree_query_scale: Single,
    rescale: Q,
    budget: nat,
) -> model::Routes {
    match quantized_trees {
        Some(quantized) => quantized_routes(
            quantized,
            rescale,
            quantized_tree_query,
            tree_query_scale,
            budget,
        ),
        None => flat_routes(trees, margin, tree_query, budget),
    }
}

/// The trees that a query is routed through are sound, for its length, over `n` points.
pub open spec fn chosen_trees_serve(
    tree_query: Seq<Single>,
    trees: Seq<FlatTree>,
    quantized_trees: Option<Seq<QuantizedFlatTree>>,
    quantized_tree_query: Seq<i8>,
    n: int,
) -> bool {
    match quantized_trees {
        Some(quantized) => quantized_trees_serve(
            quantized,
            quantized_tree_query.len() as int,
            n,
        ),
        None => trees_serve(trees, tree_query.len() as int, n),
    }
}

/// Take the points of the leaves that a query is routed to.
fn initialize_quantized<
    F: Fn(i32) -> Single,
    M: Fn(&[Single], &[Single], Single) -> Single,
    Q: Fn(i32, Single, Single, Single) -> Single,
>(
    tree_query: &[Single],
    trees: &[FlatTree],
    quantized_trees: Option<&[QuantizedFlatTree]>,
    quantized_tree_query: &[i8],
    tree_query_scale: Single,
    tree_leaf_budget: usize,
    margin: &M,
    rescale: &Q,
    n_points: usize,
    k: usize,
    distance_to: &F,
    rng: &mut FastRng,
    workspace: &mut SearchWorkspace,
    Ghost(q): Ghost<model::Quest>,
)
    requires
        old(workspace).holds(n_points, k, model::begun()),
        q.k == k,
        engine::answers(*distance_to, q.distance, n_points as int),
        calls::scores(*margin),
        calls::maps4(*rescale),
        chosen_trees_serve(
            tree_query@,
            trees@,
            contents(quantized_trees),
            quantized_tree_query@,
            n_points as int,
        ),
    ensures
        ({
            let routes = chosen_routes(
                tree_query@,
                trees@,
                *margin,
                contents(quantized_trees),
                quantized_tree_query@,
                tree_query_scale,
                *rescale,
                tree_leaf_budget as nat,
            );
            let (p, r) = model::rooted(q, routes, routes.count, *old(rng));
            &&& final(workspace).holds(n_points, k, p)
            &&& *final(rng) == r
            &&& model::consistent(q, n_points as int, p)
            &&& model::balanced(p)
        }),
{
    let quantized = match quantized_trees {
        None => {
            initialize_from_trees(
                tree_query,
                trees,
                tree_leaf_budget,
                margin,
                n_points,
                k,
                distance_to,
                rng,
                workspace,
                Ghost(q),
            );
            return ;
        },
        Some(quantized) => quantized,
    };
    let ghost routes = quantized_routes(
        quantized@,
        *rescale,
        quantized_tree_query@,
        tree_query_scale,
        tree_leaf_budget as nat,
    );
    let ghost start = *rng;
    let mut t: usize = 0;
    proof {
        model::beginning_is_consistent(q, n_points as int);
    }
    while t < quantized.len()
        invariant
            t <= quantized@.len(),
            routes == quantized_routes(
                quantized@,
                *rescale,
                quantized_tree_query@,
                tree_query_scale,
                tree_leaf_budget as nat,
            ),
            q.k == k,
            engine::answers(*distance_to, q.distance, n_points as int),
            calls::maps4(*rescale),
            quantized_trees_serve(
                quantized@,
                quantized_tree_query@.len() as int,
                n_points as int,
            ),
            workspace.holds(n_points, k, model::rooted(q, routes, t as nat, start).0),
            *rng == model::rooted(q, routes, t as nat, start).1,
            model::consistent(
                q,
                n_points as int,
                model::rooted(q, routes, t as nat, start).0,
            ),
            model::balanced(model::rooted(q, routes, t as nat, start).0),
        decreases quantized@.len() - t,
    {
        let ghost p = model::rooted(q, routes, t as nat, start).0;
        let ghost here = *rng;
        let tree = &quantized[t];
        assert(quantized@[t as int].wf());
        let _ = tree.search_leaves(
            quantized_tree_query,
            tree_query_scale,
            rng,
            tree_leaf_budget,
            &mut workspace.tree_frontier,
            &mut workspace.tree_leaves,
            rescale,
        );
        let ghost leaves = workspace.tree_leaves@;
        proof {
            assert((routes.route)(t as int, here) == routing::routed(
                tree.children@,
                tree.margins(*rescale, quantized_tree_query@, tree_query_scale),
                tree_leaf_budget as nat,
                here,
            ));
            assert(leaves == (routes.route)(t as int, here).leaves);
            assert(*rng == (routes.route)(t as int, here).rng);
            model::seeding_leaves_keeps(q, n_points as int, p, tree.indices@, leaves);
        }
        seed_leaves(&tree.indices, distance_to, workspace, Ghost(q), Ghost(p));
        t = t + 1;
    }
}

/// Search with a distance of its own, after routing a query through trees.
fn search_quantized<
    F: Fn(i32) -> Single,
    M: Fn(&[Single], &[Single], Single) -> Single,
    Q: Fn(i32, Single, Single, Single) -> Single,
    B: Fn(Single, Single, Single) -> Single,
>(
    tree_query: &[Single],
    graph: &SearchGraph,
    trees: &[FlatTree],
    tree_leaf_budget: usize,
    k: usize,
    epsilon: Single,
    min_distance: Single,
    rng: &mut FastRng,
    workspace: &mut SearchWorkspace,
    quantized_trees: Option<&[QuantizedFlatTree]>,
    quantized_tree_query: &[i8],
    tree_query_scale: Single,
    distance_to: &F,
    margin: &M,
    rescale: &Q,
    bound: &B,
    Ghost(q): Ghost<model::Quest>,
) -> (r: (Vec<i32>, Vec<Single>))
    requires
        old(workspace).wf(),
        graph.wf(),
        k == 0 || graph.n_vertices > 0,
        chosen_trees_serve(
            tree_query@,
            trees@,
            contents(quantized_trees),
            quantized_tree_query@,
            graph.n_vertices as int,
        ),
        q == quest(q.distance, *bound, epsilon, min_distance, k as nat, true),
        engine::answers(*distance_to, q.distance, graph.n_vertices as int),
        calls::scores(*margin),
        calls::maps4(*rescale),
        calls::maps3(*bound),
    ensures
        ({
            let (p, end) = model::finished(
                q,
                *graph,
                chosen_routes(
                    tree_query@,
                    trees@,
                    *margin,
                    contents(quantized_trees),
                    quantized_tree_query@,
                    tree_query_scale,
                    *rescale,
                    tree_leaf_budget as nat,
                ),
                *old(rng),
            );
            &&& model::yields((p, end), r.0@, r.1@, *final(rng))
            &&& final(workspace).shows(graph.n_vertices, k, p)
        }),
        model::are_results(q.distance, graph.n_vertices as int, k as nat, r.0@, r.1@),
{
    let n: usize = graph.n_vertices;
    let ghost routes = chosen_routes(
        tree_query@,
        trees@,
        *margin,
        contents(quantized_trees),
        quantized_tree_query@,
        tree_query_scale,
        *rescale,
        tree_leaf_budget as nat,
    );
    let ghost start = *rng;
    workspace.reset(n, k);
    initialize_quantized(
        tree_query,
        trees,
        quantized_trees,
        quantized_tree_query,
        tree_query_scale,
        tree_leaf_budget,
        margin,
        rescale,
        n,
        k,
        distance_to,
        rng,
        workspace,
        Ghost(q),
    );
    let ghost p = model::rooted(q, routes, routes.count, start).0;
    let ghost r = *rng;
    proof {
        model::scattering_keeps(q, n as int, p, model::missing(q, p), r);
    }
    fill_random(n, k, distance_to, rng, workspace, Ghost(q), Ghost(p));
    let ghost s = model::scattered(q, p, n as int, model::missing(q, p), r).0;
    traverse(
        graph,
        k,
        epsilon,
        min_distance,
        true,
        distance_to,
        bound,
        workspace,
        Ghost(q),
        Ghost(s),
    );
    proof {
        let end = model::finished(q, *graph, routes, start).0;
        workspace.holding_shows(n, k, end);
        model::traversing_keeps(q, *graph, s, (q.bound)(bounded::furthest(s.found, q.k)));
        model::consistent_gives_results(q, n as int, end);
    }
    workspace.result_heap.clone().into_sorted()
}

/// What a search over codes comes to.
pub open spec fn code_search<
    M: Fn(&[Single], &[Single], Single) -> Single,
    Q: Fn(i32, Single, Single, Single) -> Single,
    B: Fn(Single, Single, Single) -> Single,
    S: Fn(i32, Single, Single) -> Single,
    C: Fn(Single) -> Single,
>(
    tree_query: Seq<Single>,
    query: Seq<i8>,
    query_inv_norm: Single,
    data: Seq<i8>,
    inv_norms: Seq<Single>,
    dim: int,
    graph: SearchGraph,
    trees: Seq<FlatTree>,
    tree_leaf_budget: nat,
    k: nat,
    epsilon: Single,
    min_distance: Single,
    rng: FastRng,
    quantized_trees: Option<Seq<QuantizedFlatTree>>,
    tree_query_scale: Single,
    arithmetic: Arithmetic<M, Q, B, S, C>,
) -> (model::Progress, FastRng) {
    model::finished(
        quest(
            code_distances(
                arithmetic.similarity,
                arithmetic.one_minus,
                query,
                query_inv_norm,
                data,
                inv_norms,
                dim,
            ),
            arithmetic.bound,
            epsilon,
            min_distance,
            k,
            true,
        ),
        graph,
        chosen_routes(
            tree_query,
            trees,
            arithmetic.margin,
            quantized_trees,
            query,
            tree_query_scale,
            arithmetic.rescale,
            tree_leaf_budget,
        ),
        rng,
    )
}

/// The distance between a coded query and a coded row.
pub(crate) fn code_distance<S: Fn(i32, Single, Single) -> Single, C: Fn(Single) -> Single>(
    similarity: &S,
    one_minus: &C,
    query: &[i8],
    query_inv_norm: Single,
    data: &[i8],
    inv_norms: &[Single],
    n_points: usize,
    dim: usize,
    idx: usize,
) -> (d: Single)
    requires
        idx < n_points,
        n_points * dim <= data@.len(),
        n_points <= inv_norms@.len(),
        query@.len() == dim,
        calls::maps3(*similarity),
        calls::maps1(*one_minus),
    ensures
        d == code_distances(
            *similarity,
            *one_minus,
            query@,
            query_inv_norm,
            data@,
            inv_norms@,
            dim as int,
        )(idx as int),
{
    let dot: i32 = quantized_i8_dot(query, row_of(data, n_points, dim, idx));
    DirectNormalizedCosine.from_similarity(
        similarity(dot, query_inv_norm, inv_norms[idx]),
        one_minus,
    )
}

/// Greedy graph search over a symmetrically quantized signed-int8 dataset.
///
/// The query's vector is retained only for tree entry selection, and its codes serve for that too
/// where there are quantized trees. Candidate distances use the codes and precomputed
/// integer-domain norms.
pub fn greedy_search_quantized_i8_with_workspace_initialized<
    M: Fn(&[Single], &[Single], Single) -> Single,
    Q: Fn(i32, Single, Single, Single) -> Single,
    B: Fn(Single, Single, Single) -> Single,
    S: Fn(i32, Single, Single) -> Single,
    C: Fn(Single) -> Single,
>(
    tree_query: &[Single],
    query: &[i8],
    query_inv_norm: Single,
    data: &[i8],
    inv_norms: &[Single],
    dim: usize,
    graph: &SearchGraph,
    trees: &[FlatTree],
    tree_leaf_budget: usize,
    k: usize,
    epsilon: Single,
    min_distance: Single,
    rng: &mut FastRng,
    workspace: &mut SearchWorkspace,
    quantized_trees: Option<&[QuantizedFlatTree]>,
    tree_query_scale: Single,
    arithmetic: &Arithmetic<M, Q, B, S, C>,
) -> (r: (Vec<i32>, Vec<Single>))
    requires
        old(workspace).wf(),
        graph.wf(),
        k == 0 || graph.n_vertices > 0,
        query@.len() == dim,
        graph.n_vertices * dim <= data@.len(),
        graph.n_vertices <= inv_norms@.len(),
        chosen_trees_serve(
            tree_query@,
            trees@,
            contents(quantized_trees),
            query@,
            graph.n_vertices as int,
        ),
        arithmetic.serves_codes(),
    ensures
        ({
            let (p, end) = code_search(
                tree_query@,
                query@,
                query_inv_norm,
                data@,
                inv_norms@,
                dim as int,
                *graph,
                trees@,
                tree_leaf_budget as nat,
                k as nat,
                epsilon,
                min_distance,
                *old(rng),
                contents(quantized_trees),
                tree_query_scale,
                *arithmetic,
            );
            &&& model::yields((p, end), r.0@, r.1@, *final(rng))
            &&& final(workspace).shows(graph.n_vertices, k, p)
        }),
        model::are_results(
            code_distances(
                arithmetic.similarity,
                arithmetic.one_minus,
                query@,
                query_inv_norm,
                data@,
                inv_norms@,
                dim as int,
            ),
            graph.n_vertices as int,
            k as nat,
            r.0@,
            r.1@,
        ),
{
    let n: usize = graph.n_vertices;
    let ghost distances = code_distances(
        arithmetic.similarity,
        arithmetic.one_minus,
        query@,
        query_inv_norm,
        data@,
        inv_norms@,
        dim as int,
    );
    let distance_to = |idx: i32| -> (d: Single)
        requires
            0 <= idx < n,
        ensures
            d == code_distances(
                arithmetic.similarity,
                arithmetic.one_minus,
                query@,
                query_inv_norm,
                data@,
                inv_norms@,
                dim as int,
            )(idx as int),
        {
            code_distance(
                &arithmetic.similarity,
                &arithmetic.one_minus,
                query,
                query_inv_norm,
                data,
                inv_norms,
                n,
                dim,
                idx as usize,
            )
        };
    search_quantized(
        tree_query,
        graph,
        trees,
        tree_leaf_budget,
        k,
        epsilon,
        min_distance,
        rng,
        workspace,
        quantized_trees,
        query,
        tree_query_scale,
        &distance_to,
        &arithmetic.margin,
        &arithmetic.rescale,
        &arithmetic.bound,
        Ghost(quest(distances, arithmetic.bound, epsilon, min_distance, k as nat, true)),
    )
}

/// Greedy graph search over a symmetrically quantized signed-int8 dataset, with trees that are not
/// quantized.
pub fn greedy_search_quantized_i8_with_workspace<
    M: Fn(&[Single], &[Single], Single) -> Single,
    Q: Fn(i32, Single, Single, Single) -> Single,
    B: Fn(Single, Single, Single) -> Single,
    S: Fn(i32, Single, Single) -> Single,
    C: Fn(Single) -> Single,
>(
    tree_query: &[Single],
    query: &[i8],
    query_inv_norm: Single,
    data: &[i8],
    inv_norms: &[Single],
    dim: usize,
    graph: &SearchGraph,
    trees: &[FlatTree],
    tree_leaf_budget: usize,
    k: usize,
    epsilon: Single,
    min_distance: Single,
    rng: &mut FastRng,
    workspace: &mut SearchWorkspace,
    arithmetic: &Arithmetic<M, Q, B, S, C>,
) -> (r: (Vec<i32>, Vec<Single>))
    requires
        old(workspace).wf(),
        graph.wf(),
        k == 0 || graph.n_vertices > 0,
        query@.len() == dim,
        graph.n_vertices * dim <= data@.len(),
        graph.n_vertices <= inv_norms@.len(),
        trees_serve(trees@, tree_query@.len() as int, graph.n_vertices as int),
        arithmetic.serves_codes(),
    ensures
        ({
            let (p, end) = code_search(
                tree_query@,
                query@,
                query_inv_norm,
                data@,
                inv_norms@,
                dim as int,
                *graph,
                trees@,
                tree_leaf_budget as nat,
                k as nat,
                epsilon,
                min_distance,
                *old(rng),
                None,
                Single::spec_zero(),
                *arithmetic,
            );
            &&& model::yields((p, end), r.0@, r.1@, *final(rng))
            &&& final(workspace).shows(graph.n_vertices, k, p)
        }),
        model::are_results(
            code_distances(
                arithmetic.similarity,
                arithmetic.one_minus,
                query@,
                query_inv_norm,
                data@,
                inv_norms@,
                dim as int,
            ),
            graph.n_vertices as int,
            k as nat,
            r.0@,
            r.1@,
        ),
{
    greedy_search_quantized_i8_with_workspace_initialized(
        tree_query,
        query,
        query_inv_norm,
        data,
        inv_norms,
        dim,
        graph,
        trees,
        tree_leaf_budget,
        k,
        epsilon,
        min_distance,
        rng,
        workspace,
        None,
        Single::zero(),
        arithmetic,
    )
}

/// Greedy graph search with a distance of the caller's.
///
/// `distance_to` is to be a function of the point.
pub fn greedy_search_quantized_custom_with_workspace_initialized<
    F: Fn(i32) -> Single,
    M: Fn(&[Single], &[Single], Single) -> Single,
    Q: Fn(i32, Single, Single, Single) -> Single,
    B: Fn(Single, Single, Single) -> Single,
    S,
    C,
>(
    tree_query: &[Single],
    graph: &SearchGraph,
    trees: &[FlatTree],
    tree_leaf_budget: usize,
    k: usize,
    epsilon: Single,
    min_distance: Single,
    rng: &mut FastRng,
    workspace: &mut SearchWorkspace,
    quantized_trees: Option<&[QuantizedFlatTree]>,
    quantized_tree_query: &[i8],
    tree_query_scale: Single,
    distance_to: F,
    arithmetic: &Arithmetic<M, Q, B, S, C>,
) -> (r: (Vec<i32>, Vec<Single>))
    requires
        old(workspace).wf(),
        graph.wf(),
        k == 0 || graph.n_vertices > 0,
        chosen_trees_serve(
            tree_query@,
            trees@,
            contents(quantized_trees),
            quantized_tree_query@,
            graph.n_vertices as int,
        ),
        forall|i: i32| 0 <= i < graph.n_vertices ==> #[trigger] call_requires(distance_to, (i,)),
        calls::determined1(distance_to),
        arithmetic.serves_trees(),
    ensures
        ({
            let (p, end) = custom_search(
                tree_query@,
                *graph,
                trees@,
                tree_leaf_budget as nat,
                k as nat,
                epsilon,
                min_distance,
                *old(rng),
                contents(quantized_trees),
                quantized_tree_query@,
                tree_query_scale,
                distance_to,
                *arithmetic,
            );
            &&& model::yields((p, end), r.0@, r.1@, *final(rng))
            &&& final(workspace).shows(graph.n_vertices, k, p)
        }),
        model::are_results(
            |i: int| calls::image1(distance_to, i as i32),
            graph.n_vertices as int,
            k as nat,
            r.0@,
            r.1@,
        ),
{
    search_quantized(
        tree_query,
        graph,
        trees,
        tree_leaf_budget,
        k,
        epsilon,
        min_distance,
        rng,
        workspace,
        quantized_trees,
        quantized_tree_query,
        tree_query_scale,
        &distance_to,
        &arithmetic.margin,
        &arithmetic.rescale,
        &arithmetic.bound,
        Ghost(
            quest(
                |i: int| calls::image1(distance_to, i as i32),
                arithmetic.bound,
                epsilon,
                min_distance,
                k as nat,
                true,
            ),
        ),
    )
}

/// What a search with a distance of the caller's comes to.
pub open spec fn custom_search<
    F: Fn(i32) -> Single,
    M: Fn(&[Single], &[Single], Single) -> Single,
    Q: Fn(i32, Single, Single, Single) -> Single,
    B: Fn(Single, Single, Single) -> Single,
    S,
    C,
>(
    tree_query: Seq<Single>,
    graph: SearchGraph,
    trees: Seq<FlatTree>,
    tree_leaf_budget: nat,
    k: nat,
    epsilon: Single,
    min_distance: Single,
    rng: FastRng,
    quantized_trees: Option<Seq<QuantizedFlatTree>>,
    quantized_tree_query: Seq<i8>,
    tree_query_scale: Single,
    distance_to: F,
    arithmetic: Arithmetic<M, Q, B, S, C>,
) -> (model::Progress, FastRng) {
    model::finished(
        quest(
            |i: int| calls::image1(distance_to, i as i32),
            arithmetic.bound,
            epsilon,
            min_distance,
            k,
            true,
        ),
        graph,
        chosen_routes(
            tree_query,
            trees,
            arithmetic.margin,
            quantized_trees,
            quantized_tree_query,
            tree_query_scale,
            arithmetic.rescale,
            tree_leaf_budget,
        ),
        rng,
    )
}

/// Sound trees over `n` points lead to these.
pub proof fn flat_routes_lead_within<M: Fn(&[Single], &[Single], Single) -> Single>(
    trees: Seq<FlatTree>,
    margin: M,
    query: Seq<Single>,
    budget: nat,
    dim: int,
    n: int,
)
    requires
        trees_serve(trees, dim, n),
    ensures
        model::lead_within(flat_routes(trees, margin, query, budget), n),
{
    let routes = flat_routes(trees, margin, query, budget);
    assert forall|t: int, r: FastRng| 0 <= t < routes.count implies routing::within(
        (#[trigger] (routes.route)(t, r)).leaves,
        (routes.indices)(t).len() as int,
    ) && forall|i: int|
        0 <= i < (routes.indices)(t).len() ==> #[trigger] (routes.indices)(t)[i] < n by {
        assert(trees[t].wf());
        routing::routing_stays_within(
            trees[t].children@,
            trees[t].margins(margin, query),
            budget,
            r,
            trees[t].indices@.len() as int,
        );
    }
}

/// Sound trees over `n` points, quantized or not, lead to these.
pub proof fn chosen_routes_lead_within<
    M: Fn(&[Single], &[Single], Single) -> Single,
    Q: Fn(i32, Single, Single, Single) -> Single,
>(
    tree_query: Seq<Single>,
    trees: Seq<FlatTree>,
    margin: M,
    quantized_trees: Option<Seq<QuantizedFlatTree>>,
    quantized_tree_query: Seq<i8>,
    tree_query_scale: Single,
    rescale: Q,
    budget: nat,
    n: int,
)
    requires
        chosen_trees_serve(tree_query, trees, quantized_trees, quantized_tree_query, n),
    ensures
        model::lead_within(
            chosen_routes(
                tree_query,
                trees,
                margin,
                quantized_trees,
                quantized_tree_query,
                tree_query_scale,
                rescale,
                budget,
            ),
            n,
        ),
{
    match quantized_trees {
        None => {
            flat_routes_lead_within(trees, margin, tree_query, budget, tree_query.len() as int, n);
        },
        Some(quantized) => {
            let routes = quantized_routes(
                quantized,
                rescale,
                quantized_tree_query,
                tree_query_scale,
                budget,
            );
            assert forall|t: int, r: FastRng| 0 <= t < routes.count implies routing::within(
                (#[trigger] (routes.route)(t, r)).leaves,
                (routes.indices)(t).len() as int,
            ) && forall|i: int|
                0 <= i < (routes.indices)(t).len() ==> #[trigger] (routes.indices)(t)[i] < n by {
                assert(quantized[t].wf());
                routing::routing_stays_within(
                    quantized[t].children@,
                    quantized[t].margins(rescale, quantized_tree_query, tree_query_scale),
                    budget,
                    r,
                    quantized[t].indices@.len() as int,
                );
            }
        },
    }
}

/// A search over vectors is thorough: it looks at all neighbors of every result within its reach,
/// and what it passes on the way is a result if it is near enough. It starts at all points of the
/// leaves that the query is routed to.
pub proof fn vector_searches_are_thorough<
    D: Distance,
    M: Fn(&[Single], &[Single], Single) -> Single,
    Q,
    B: Fn(Single, Single, Single) -> Single,
    S,
    C,
>(
    query: Seq<Single>,
    data: Seq<Single>,
    dim: int,
    graph: SearchGraph,
    trees: Seq<FlatTree>,
    tree_leaf_budget: nat,
    distance: D,
    k: nat,
    epsilon: Single,
    min_distance: Single,
    rng: FastRng,
    arithmetic: Arithmetic<M, Q, B, S, C>,
)
    requires
        graph.wf(),
        k == 0 || graph.n_vertices > 0,
        trees_serve(trees, dim, graph.n_vertices as int),
    ensures
        ({
            let p = vector_search(
                query,
                data,
                dim,
                graph,
                trees,
                tree_leaf_budget,
                distance,
                k,
                epsilon,
                min_distance,
                rng,
                arithmetic,
            ).0;
            let q = quest(
                row_distances(distance, query, data, dim),
                arithmetic.bound,
                epsilon,
                min_distance,
                k,
                true,
            );
            let bound = |furthest: Single|
                calls::image3(arithmetic.bound, furthest, epsilon, min_distance);
            let indices = model::indices_of(p);
            &&& coverage::thorough(
                graph,
                row_distances(distance, query, data, dim),
                bound,
                k,
                true,
                coverage::entry(
                    q,
                    graph,
                    flat_routes(trees, arithmetic.margin, query, tree_leaf_budget),
                    rng,
                ).found.len() == k,
                p.visited,
                indices,
                model::distances_of(p),
            )
            &&& k > 0 ==> indices.len() > 0
            &&& forall|t: int|
                0 <= t < trees.len() ==> coverage::leaves_taken_in(
                        (#[trigger] trees[t]).children@,
                        trees[t].margins(arithmetic.margin, query),
                        tree_leaf_budget,
                        trees[t].indices@,
                        p.visited,
                    )
        }),
{
    let n = graph.n_vertices as int;
    let p = vector_search(
                query,
                data,
                dim,
                graph,
                trees,
                tree_leaf_budget,
                distance,
                k,
                epsilon,
                min_distance,
                rng,
                arithmetic,
            ).0;
    let q = quest(
        row_distances(distance, query, data, dim),
        arithmetic.bound,
        epsilon,
        min_distance,
        k,
        true,
    );
    let bound = |furthest: Single|
        calls::image3(arithmetic.bound, furthest, epsilon, min_distance);
    let routes = flat_routes(trees, arithmetic.margin, query, tree_leaf_budget);
    flat_routes_lead_within(trees, arithmetic.margin, query, tree_leaf_budget, dim, n);
    coverage::searches_are_thorough(q, graph, routes, rng);
    assert(q.bound =~= bound);
    assert forall|t: int| 0 <= t < trees.len() implies coverage::leaves_taken_in(
            (#[trigger] trees[t]).children@,
            trees[t].margins(arithmetic.margin, query),
            tree_leaf_budget,
            trees[t].indices@,
            p.visited,
        ) by {
        assert(coverage::tree_taken_in(routes, t, p.visited));
        let r = choose|r: FastRng|
            coverage::taken_in(
                (routes.indices)(t),
                (#[trigger] (routes.route)(t, r)).leaves,
                p.visited,
            );
        assert(coverage::taken_in(
            trees[t].indices@,
            routing::routed(
                trees[t].children@,
                trees[t].margins(arithmetic.margin, query),
                tree_leaf_budget,
                r,
            ).leaves,
            p.visited,
        ));
    }
}

/// A search over codes is thorough in the same way, and starts at all points of the leaves that the
/// query is routed to in the trees that it uses.
pub proof fn code_searches_are_thorough<
    M: Fn(&[Single], &[Single], Single) -> Single,
    Q: Fn(i32, Single, Single, Single) -> Single,
    B: Fn(Single, Single, Single) -> Single,
    S: Fn(i32, Single, Single) -> Single,
    C: Fn(Single) -> Single,
>(
    tree_query: Seq<Single>,
    query: Seq<i8>,
    query_inv_norm: Single,
    data: Seq<i8>,
    inv_norms: Seq<Single>,
    dim: int,
    graph: SearchGraph,
    trees: Seq<FlatTree>,
    tree_leaf_budget: nat,
    k: nat,
    epsilon: Single,
    min_distance: Single,
    rng: FastRng,
    quantized_trees: Option<Seq<QuantizedFlatTree>>,
    tree_query_scale: Single,
    arithmetic: Arithmetic<M, Q, B, S, C>,
)
    requires
        graph.wf(),
        k == 0 || graph.n_vertices > 0,
        chosen_trees_serve(tree_query, trees, quantized_trees, query, graph.n_vertices as int),
    ensures
        ({
            let p = code_search(
                tree_query,
                query,
                query_inv_norm,
                data,
                inv_norms,
                dim,
                graph,
                trees,
                tree_leaf_budget,
                k,
                epsilon,
                min_distance,
                rng,
                quantized_trees,
                tree_query_scale,
                arithmetic,
            ).0;
            let q = quest(
                code_distances(
                    arithmetic.similarity,
                    arithmetic.one_minus,
                    query,
                    query_inv_norm,
                    data,
                    inv_norms,
                    dim,
                ),
                arithmetic.bound,
                epsilon,
                min_distance,
                k,
                true,
            );
            let bound = |furthest: Single|
                calls::image3(arithmetic.bound, furthest, epsilon, min_distance);
            let indices = model::indices_of(p);
            &&& coverage::thorough(
                graph,
                code_distances(
                    arithmetic.similarity,
                    arithmetic.one_minus,
                    query,
                    query_inv_norm,
                    data,
                    inv_norms,
                    dim,
                ),
                bound,
                k,
                true,
                coverage::entry(
                    q,
                    graph,
                    chosen_routes(
                        tree_query,
                        trees,
                        arithmetic.margin,
                        quantized_trees,
                        query,
                        tree_query_scale,
                        arithmetic.rescale,
                        tree_leaf_budget,
                    ),
                    rng,
                ).found.len() == k,
                p.visited,
                indices,
                model::distances_of(p),
            )
            &&& k > 0 ==> indices.len() > 0
            &&& quantized_trees is None ==> forall|t: int|
                0 <= t < trees.len() ==> coverage::leaves_taken_in(
                        (#[trigger] trees[t]).children@,
                        trees[t].margins(arithmetic.margin, tree_query),
                        tree_leaf_budget,
                        trees[t].indices@,
                        p.visited,
                    )
            &&& quantized_trees matches Some(coded) ==> forall|t: int|
                0 <= t < coded.len() ==> coverage::leaves_taken_in(
                        (#[trigger] coded[t]).children@,
                        coded[t].margins(arithmetic.rescale, query, tree_query_scale),
                        tree_leaf_budget,
                        coded[t].indices@,
                        p.visited,
                    )
        }),
{
    let n = graph.n_vertices as int;
    let p = code_search(
        tree_query,
        query,
        query_inv_norm,
        data,
        inv_norms,
        dim,
        graph,
        trees,
        tree_leaf_budget,
        k,
        epsilon,
        min_distance,
        rng,
        quantized_trees,
        tree_query_scale,
        arithmetic,
    ).0;
    let q = quest(
        code_distances(
            arithmetic.similarity,
            arithmetic.one_minus,
            query,
            query_inv_norm,
            data,
            inv_norms,
            dim,
        ),
        arithmetic.bound,
        epsilon,
        min_distance,
        k,
        true,
    );
    let bound = |furthest: Single|
        calls::image3(arithmetic.bound, furthest, epsilon, min_distance);
    let routes = chosen_routes(
        tree_query,
        trees,
        arithmetic.margin,
        quantized_trees,
        query,
        tree_query_scale,
        arithmetic.rescale,
        tree_leaf_budget,
    );
    chosen_routes_lead_within(
        tree_query,
        trees,
        arithmetic.margin,
        quantized_trees,
        query,
        tree_query_scale,
        arithmetic.rescale,
        tree_leaf_budget,
        n,
    );
    coverage::searches_are_thorough(q, graph, routes, rng);
    assert(q.bound =~= bound);
    if quantized_trees is None {
        assert forall|t: int| 0 <= t < trees.len() implies coverage::leaves_taken_in(
                (#[trigger] trees[t]).children@,
                trees[t].margins(arithmetic.margin, tree_query),
                tree_leaf_budget,
                trees[t].indices@,
                p.visited,
            ) by {
            assert(coverage::tree_taken_in(routes, t, p.visited));
            let r = choose|r: FastRng|
                coverage::taken_in(
                    (routes.indices)(t),
                    (#[trigger] (routes.route)(t, r)).leaves,
                    p.visited,
                );
            assert(coverage::taken_in(
                trees[t].indices@,
                routing::routed(
                    trees[t].children@,
                    trees[t].margins(arithmetic.margin, tree_query),
                    tree_leaf_budget,
                    r,
                ).leaves,
                p.visited,
            ));
        }
    }
    if let Some(coded) = quantized_trees {
        assert forall|t: int| 0 <= t < coded.len() implies coverage::leaves_taken_in(
                (#[trigger] coded[t]).children@,
                coded[t].margins(arithmetic.rescale, query, tree_query_scale),
                tree_leaf_budget,
                coded[t].indices@,
                p.visited,
            ) by {
            assert(coverage::tree_taken_in(routes, t, p.visited));
            let r = choose|r: FastRng|
                coverage::taken_in(
                    (routes.indices)(t),
                    (#[trigger] (routes.route)(t, r)).leaves,
                    p.visited,
                );
            assert(coverage::taken_in(
                coded[t].indices@,
                routing::routed(
                    coded[t].children@,
                    coded[t].margins(arithmetic.rescale, query, tree_query_scale),
                    tree_leaf_budget,
                    r,
                ).leaves,
                p.visited,
            ));
        }
    }
}

/// A search with a distance of the caller's is thorough in the same way.
pub proof fn custom_searches_are_thorough<
    F: Fn(i32) -> Single,
    M: Fn(&[Single], &[Single], Single) -> Single,
    Q: Fn(i32, Single, Single, Single) -> Single,
    B: Fn(Single, Single, Single) -> Single,
    S,
    C,
>(
    tree_query: Seq<Single>,
    graph: SearchGraph,
    trees: Seq<FlatTree>,
    tree_leaf_budget: nat,
    k: nat,
    epsilon: Single,
    min_distance: Single,
    rng: FastRng,
    quantized_trees: Option<Seq<QuantizedFlatTree>>,
    quantized_tree_query: Seq<i8>,
    tree_query_scale: Single,
    distance_to: F,
    arithmetic: Arithmetic<M, Q, B, S, C>,
)
    requires
        graph.wf(),
        k == 0 || graph.n_vertices > 0,
        chosen_trees_serve(
            tree_query,
            trees,
            quantized_trees,
            quantized_tree_query,
            graph.n_vertices as int,
        ),
    ensures
        ({
            let p = custom_search(
                tree_query,
                graph,
                trees,
                tree_leaf_budget,
                k,
                epsilon,
                min_distance,
                rng,
                quantized_trees,
                quantized_tree_query,
                tree_query_scale,
                distance_to,
                arithmetic,
            ).0;
            let q = quest(
                |i: int| calls::image1(distance_to, i as i32),
                arithmetic.bound,
                epsilon,
                min_distance,
                k,
                true,
            );
            let bound = |furthest: Single|
                calls::image3(arithmetic.bound, furthest, epsilon, min_distance);
            let indices = model::indices_of(p);
            &&& coverage::thorough(
                graph,
                |i: int| calls::image1(distance_to, i as i32),
                bound,
                k,
                true,
                coverage::entry(
                    q,
                    graph,
                    chosen_routes(
                        tree_query,
                        trees,
                        arithmetic.margin,
                        quantized_trees,
                        quantized_tree_query,
                        tree_query_scale,
                        arithmetic.rescale,
                        tree_leaf_budget,
                    ),
                    rng,
                ).found.len() == k,
                p.visited,
                indices,
                model::distances_of(p),
            )
            &&& k > 0 ==> indices.len() > 0
            &&& quantized_trees is None ==> forall|t: int|
                0 <= t < trees.len() ==> coverage::leaves_taken_in(
                        (#[trigger] trees[t]).children@,
                        trees[t].margins(arithmetic.margin, tree_query),
                        tree_leaf_budget,
                        trees[t].indices@,
                        p.visited,
                    )
            &&& quantized_trees matches Some(coded) ==> forall|t: int|
                0 <= t < coded.len() ==> coverage::leaves_taken_in(
                        (#[trigger] coded[t]).children@,
                        coded[t].margins(
                            arithmetic.rescale,
                            quantized_tree_query,
                            tree_query_scale,
                        ),
                        tree_leaf_budget,
                        coded[t].indices@,
                        p.visited,
                    )
        }),
{
    let n = graph.n_vertices as int;
    let p = custom_search(
        tree_query,
        graph,
        trees,
        tree_leaf_budget,
        k,
        epsilon,
        min_distance,
        rng,
        quantized_trees,
        quantized_tree_query,
        tree_query_scale,
        distance_to,
        arithmetic,
    ).0;
    let q = quest(
        |i: int| calls::image1(distance_to, i as i32),
        arithmetic.bound,
        epsilon,
        min_distance,
        k,
        true,
    );
    let bound = |furthest: Single|
        calls::image3(arithmetic.bound, furthest, epsilon, min_distance);
    let routes = chosen_routes(
        tree_query,
        trees,
        arithmetic.margin,
        quantized_trees,
        quantized_tree_query,
        tree_query_scale,
        arithmetic.rescale,
        tree_leaf_budget,
    );
    chosen_routes_lead_within(
        tree_query,
        trees,
        arithmetic.margin,
        quantized_trees,
        quantized_tree_query,
        tree_query_scale,
        arithmetic.rescale,
        tree_leaf_budget,
        n,
    );
    coverage::searches_are_thorough(q, graph, routes, rng);
    assert(q.bound =~= bound);
    assert(q.distance =~= (|i: int| calls::image1(distance_to, i as i32)));
    if quantized_trees is None {
        assert forall|t: int| 0 <= t < trees.len() implies coverage::leaves_taken_in(
                (#[trigger] trees[t]).children@,
                trees[t].margins(arithmetic.margin, tree_query),
                tree_leaf_budget,
                trees[t].indices@,
                p.visited,
            ) by {
            assert(coverage::tree_taken_in(routes, t, p.visited));
            let r = choose|r: FastRng|
                coverage::taken_in(
                    (routes.indices)(t),
                    (#[trigger] (routes.route)(t, r)).leaves,
                    p.visited,
                );
            assert(coverage::taken_in(
                trees[t].indices@,
                routing::routed(
                    trees[t].children@,
                    trees[t].margins(arithmetic.margin, tree_query),
                    tree_leaf_budget,
                    r,
                ).leaves,
                p.visited,
            ));
        }
    }
    if let Some(coded) = quantized_trees {
        assert forall|t: int| 0 <= t < coded.len() implies coverage::leaves_taken_in(
                (#[trigger] coded[t]).children@,
                coded[t].margins(arithmetic.rescale, quantized_tree_query, tree_query_scale),
                tree_leaf_budget,
                coded[t].indices@,
                p.visited,
            ) by {
            assert(coverage::tree_taken_in(routes, t, p.visited));
            let r = choose|r: FastRng|
                coverage::taken_in(
                    (routes.indices)(t),
                    (#[trigger] (routes.route)(t, r)).leaves,
                    p.visited,
                );
            assert(coverage::taken_in(
                coded[t].indices@,
                routing::routed(
                    coded[t].children@,
                    coded[t].margins(arithmetic.rescale, quantized_tree_query, tree_query_scale),
                    tree_leaf_budget,
                    r,
                ).leaves,
                p.visited,
            ));
        }
    }
}

} // verus!
