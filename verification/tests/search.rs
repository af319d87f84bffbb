use rinnd::distance::PairSum;
use rinnd::graph::SearchGraph;
use rinnd::rng::FastRng;
use rinnd::search::single_leaf::{
    batch_search, greedy_search, greedy_search_indices_with_workspace,
    greedy_search_quantized_i8_with_workspace, greedy_search_with_workspace,
    greedy_search_with_workspace_stats,
};
use rinnd::search::{greedy, Arithmetic, SearchWorkspace};
use rinnd::single::Single;
use rinnd::tree::{FlatTree, QuantizedFlatTree};

fn of(x: f32) -> Single {
    Single { bits: x.to_bits() }
}

fn to(x: Single) -> f32 {
    f32::from_bits(x.bits)
}

fn row(values: &[f32]) -> Vec<Single> {
    values.iter().map(|&v| of(v)).collect()
}

fn floats(values: &[Single]) -> Vec<f32> {
    values.iter().map(|&v| to(v)).collect()
}

fn add_square(acc: Single, a: Single, b: Single) -> Single {
    let diff = to(a) - to(b);
    of(to(acc) + diff * diff)
}

fn itself(x: Single) -> Single {
    x
}

type Combine = fn(Single, Single, Single) -> Single;
type Finish = fn(Single) -> Single;

fn squared_euclidean() -> PairSum<Combine, Finish> {
    PairSum::new(add_square as Combine, itself as Finish, "sqeuclidean")
}

fn margin(point: &[Single], hyperplane: &[Single], offset: Single) -> Single {
    let dot: f32 = point.iter().zip(hyperplane).map(|(&x, &y)| to(x) * to(y)).sum();
    of(dot + to(offset))
}

fn rescale(dot: i32, scale: Single, query_scale: Single, offset: Single) -> Single {
    of(dot as f32 * to(scale) * to(query_scale) + to(offset))
}

fn bound(max: Single, epsilon: Single, min: Single) -> Single {
    of(to(max) + to(epsilon) * (to(max) - to(min)))
}

fn similarity(dot: i32, x: Single, y: Single) -> Single {
    of(dot as f32 * to(x) * to(y))
}

fn one_minus(s: Single) -> Single {
    of(1.0 - to(s))
}

type Margin = fn(&[Single], &[Single], Single) -> Single;
type Rescale = fn(i32, Single, Single, Single) -> Single;
type Similarity = fn(i32, Single, Single) -> Single;

fn arithmetic() -> Arithmetic<Margin, Rescale, Combine, Similarity, Finish> {
    Arithmetic {
        margin,
        rescale,
        bound,
        similarity,
        one_minus,
    }
}

fn create_simple_graph() -> (Vec<Single>, SearchGraph) {
    // 4 points in 2D arranged in a square
    let data = row(&[
        0.0, 0.0, // 0
        1.0, 0.0, // 1
        0.0, 1.0, // 2
        1.0, 1.0, // 3
    ]);

    // Each point connected to its neighbors
    let neighbors = vec![
        1, 2, // 0 -> 1, 2
        0, 3, // 1 -> 0, 3
        0, 3, // 2 -> 0, 3
        1, 2, // 3 -> 1, 2
    ];

    let graph = SearchGraph::from_dense(&neighbors, 4, 2);

    (data, graph)
}

#[test]
fn test_greedy_search_basic() {
    let (data, graph) = create_simple_graph();
    let distance = squared_euclidean();
    let mut rng = FastRng::new(42);

    // Query near point 0
    let query = row(&[0.1, 0.1]);
    let (indices, distances) = greedy_search(
        &query, &data, 2, &graph, &[], &distance, 2, of(0.1), of(0.0), &mut rng, &arithmetic(),
    );

    assert!(!indices.is_empty());
    assert!(indices.contains(&0) || to(distances[0]) < 1.0);
}

#[test]
fn test_indices_only_matches_full_search() {
    let (data, graph) = create_simple_graph();
    let distance = squared_euclidean();
    let query = row(&[0.1, 0.1]);
    let mut full_rng = FastRng::new(42);
    let mut indices_rng = FastRng::new(42);
    let mut full_workspace = SearchWorkspace::new(graph.n_vertices, 3);
    let mut indices_workspace = SearchWorkspace::new(graph.n_vertices, 3);

    let (expected, _) = greedy_search_with_workspace(
        &query, &data, 2, &graph, &[], &distance, 3, of(0.1), of(0.0),
        &mut full_rng, &mut full_workspace, &arithmetic(),
    );
    let actual = greedy_search_indices_with_workspace(
        &query, &data, 2, &graph, &[], &distance, 3, of(0.1), of(0.0),
        &mut indices_rng, &mut indices_workspace, &arithmetic(),
    );

    assert_eq!(actual, expected);
}

#[test]
fn test_quantized_i8_search_finds_exact_point() {
    let (_, graph) = create_simple_graph();
    let quantized_data = [0i8, 0, 127, 0, 0, 127, 127, 127];
    let inv_norms = row(&[
        0.0,
        1.0 / 127.0,
        1.0 / 127.0,
        1.0 / (2.0f32 * 127.0 * 127.0).sqrt(),
    ]);
    let query = [127i8, 127];
    let query_inv_norm = (2.0f32 * 127.0 * 127.0).sqrt().recip();
    let mut rng = FastRng::new(42);
    let mut workspace = SearchWorkspace::new(graph.n_vertices, 1);

    let (indices, distances) = greedy_search_quantized_i8_with_workspace(
        &row(&[1.0, 1.0]),
        &query,
        of(query_inv_norm),
        &quantized_data,
        &inv_norms,
        2,
        &graph,
        &[],
        1,
        of(0.1),
        of(0.0),
        &mut rng,
        &mut workspace,
        &arithmetic(),
    );

    assert_eq!(indices, vec![3]);
    assert!(to(distances[0]).abs() < 1e-6);
}

#[test]
fn test_greedy_search_exact_point() {
    let (data, graph) = create_simple_graph();
    let distance = squared_euclidean();
    let mut rng = FastRng::new(42);

    // Query exactly at point 3
    let query = row(&[1.0, 1.0]);
    let (indices, distances) = greedy_search(
        &query, &data, 2, &graph, &[], &distance, 1, of(0.1), of(0.0), &mut rng, &arithmetic(),
    );

    assert_eq!(indices.len(), 1);
    assert_eq!(indices[0], 3);
    assert!((to(distances[0]) - 0.0).abs() < 1e-6);
}

#[test]
fn test_greedy_search_returns_k() {
    let (data, graph) = create_simple_graph();
    let distance = squared_euclidean();
    let mut rng = FastRng::new(42);

    let query = row(&[0.5, 0.5]);
    let (indices, distances) = greedy_search(
        &query, &data, 2, &graph, &[], &distance, 4, of(0.1), of(0.0), &mut rng, &arithmetic(),
    );

    assert_eq!(indices.len(), 4);
    assert_eq!(distances.len(), 4);

    let distances = floats(&distances);
    for i in 1..distances.len() {
        assert!(distances[i] >= distances[i - 1]);
    }
}

fn tree() -> FlatTree {
    let mut tree = FlatTree::new(2);
    tree.hyperplanes = row(&[1.0, 0.0, 0.0, 0.0, 0.0, 0.0]);
    tree.offsets = row(&[-0.5, 0.0, 0.0]);
    tree.children = vec![[1, 2], [0, -2], [-2, -4]];
    tree.indices = vec![0, 2, 1, 3];
    tree.n_nodes = 3;
    tree
}

#[test]
fn searches_agree_with_each_other() {
    let (data, graph) = create_simple_graph();
    let distance = squared_euclidean();
    let trees = [tree()];
    let query = row(&[0.9, 0.2]);
    let arithmetic = arithmetic();
    let mut workspace = SearchWorkspace::new(4, 3);

    let (indices, distances) = greedy_search_with_workspace(
        &query, &data, 2, &graph, &trees, &distance, 3, of(0.1), of(0.0),
        &mut FastRng::new(1), &mut workspace, &arithmetic,
    );
    assert_eq!(indices, vec![1, 3, 0]);
    assert!((to(distances[0]) - 0.05).abs() < 1e-6);

    for budget in [1, 2] {
        let (indices, _) = greedy::greedy_search(
            &query, &data, 2, &graph, &trees, budget, &distance, 3, of(0.1), of(0.0),
            &mut FastRng::new(1), &arithmetic,
        );
        assert_eq!(indices, vec![1, 3, 0]);
        let (indices, _) = greedy::greedy_search_with_workspace(
            &query, &data, 2, &graph, &trees, budget, &distance, 3, of(0.1), of(0.0),
            &mut FastRng::new(1), &mut workspace, &arithmetic,
        );
        assert_eq!(indices, vec![1, 3, 0]);
        let indices = greedy::greedy_search_indices_with_workspace(
            &query, &data, 2, &graph, &trees, budget, &distance, 3, of(0.1), of(0.0),
            &mut FastRng::new(1), &mut workspace, &arithmetic,
        );
        assert_eq!(indices, vec![1, 3, 0]);
    }
}

#[test]
fn statistics_account_for_the_work() {
    let (data, graph) = create_simple_graph();
    let distance = squared_euclidean();
    let trees = [tree()];
    let query = row(&[0.9, 0.2]);
    let mut workspace = SearchWorkspace::new(4, 3);
    let (indices, _, stats) = greedy_search_with_workspace_stats(
        &query, &data, 2, &graph, &trees, &distance, 3, of(0.1), of(0.0),
        &mut FastRng::new(1), &mut workspace, &arithmetic(),
    );
    assert_eq!(indices, vec![1, 3, 0]);
    let alone = greedy_search_indices_with_workspace(
        &query, &data, 2, &graph, &trees, &distance, 3, of(0.1), of(0.0),
        &mut FastRng::new(1), &mut workspace.clone(), &arithmetic(),
    );
    assert_eq!(alone, indices);
    assert_eq!(stats.tree_seed_candidates, 2);
    assert_eq!(
        stats.visited_checks,
        stats.visited_already_seen + stats.distance_evaluations,
    );
    assert_eq!(stats.result_push_attempts, stats.seed_pushes);
    assert_eq!(stats.main_loop_iterations, stats.seed_pops);
    assert!(stats.seed_pops <= stats.seed_pushes);
    assert!(stats.bound_updates <= stats.result_push_inserted);
    assert!(stats.result_push_inserted <= stats.result_push_attempts);
    assert!(stats.result_push_attempts <= stats.distance_evaluations);
    assert!(stats.tree_seed_candidates + stats.random_seed_candidates <= stats.seed_pushes);
    assert!(3 <= stats.distance_evaluations && stats.distance_evaluations <= 4);
}

#[test]
fn no_points_are_needed_where_none_are_sought() {
    let graph = SearchGraph::from_dense(&[], 0, 0);
    let distance = squared_euclidean();
    let (indices, distances) = batch_search(
        &[], 0, &[], 2, &graph, &[], &distance, 5, of(0.1), of(0.0), 9, &arithmetic(),
    );
    assert!(indices.is_empty() && distances.is_empty());
    let (indices, _) = greedy::batch_search(
        &row(&[1.0, 2.0]), 1, &[], 2, &graph, &[], 1, &distance, 0, of(0.1), of(0.0), 9,
        &arithmetic(),
    );
    assert!(indices.is_empty());
}

#[test]
fn a_batch_gives_what_single_searches_give() {
    let (data, graph) = create_simple_graph();
    let distance = squared_euclidean();
    let trees = [tree()];
    let arithmetic = arithmetic();
    let queries: Vec<f32> = (0..16).map(|i| (i as f32) * 0.07).collect();
    let (indices, distances) = batch_search(
        &row(&queries), 8, &data, 2, &graph, &trees, &distance, 5, of(0.1), of(0.0), 9,
        &arithmetic,
    );
    let (spilled, _) = greedy::batch_search(
        &row(&queries), 8, &data, 2, &graph, &trees, 2, &distance, 5, of(0.1), of(0.0), 9,
        &arithmetic,
    );
    assert_eq!(indices.len(), 40);
    assert_eq!(distances.len(), 40);
    assert_eq!(spilled.len(), 40);
    for i in 0..8 {
        let query = row(&queries[2 * i..2 * i + 2]);
        let (mut single, _) = greedy_search(
            &query, &data, 2, &graph, &trees, &distance, 5, of(0.1), of(0.0),
            &mut FastRng::new(9 + i as u64), &arithmetic,
        );
        assert_eq!(single.len(), 4);
        single.push(-1);
        assert_eq!(&indices[5 * i..5 * i + 5], single.as_slice());
        assert_eq!(to(distances[5 * i + 4]), f32::INFINITY);
        assert_eq!(&spilled[5 * i..5 * i + 5], single.as_slice());
    }
}

#[test]
fn codes_are_searched_through_quantized_trees() {
    let (_, graph) = create_simple_graph();
    let scale_of = |m: Single| of(to(m) / 127.0);
    let code = |x: Single, s: Single| (to(x) / to(s)).round().clamp(-127.0, 127.0) as i8;
    let quantized = [QuantizedFlatTree::from_owned_flat_tree(tree(), &scale_of, &code)];
    let data = [1i8, 1, 127, 1, 1, 127, 127, 127];
    let inv_norms: Vec<Single> = data
        .chunks(2)
        .map(|c| of(((c[0] as f32).powi(2) + (c[1] as f32).powi(2)).sqrt().recip()))
        .collect();
    let query = [127i8, 1];
    let mut workspace = SearchWorkspace::new(4, 2);
    let (indices, distances) = greedy::greedy_search_quantized_i8_with_workspace_initialized(
        &row(&[1.0, 0.0]), &query, inv_norms[1], &data, &inv_norms, 2, &graph, &[], 1, 2,
        of(0.1), of(0.0), &mut FastRng::new(3), &mut workspace, Some(&quantized),
        of(1.0 / 127.0), &arithmetic(),
    );
    assert_eq!(indices[0], 1);
    assert_eq!(indices.len(), 2);
    assert!(to(distances[0]).abs() < 1e-6);

    let (same, _) = greedy::greedy_search_quantized_i8_with_workspace(
        &row(&[1.0, 0.0]), &query, inv_norms[1], &data, &inv_norms, 2, &graph, &[], 1, 2,
        of(0.1), of(0.0), &mut FastRng::new(3), &mut workspace, &arithmetic(),
    );
    assert_eq!(same[0], 1);

    let by_name = |i: i32| of((i - 2).abs() as f32);
    let (custom, _) = greedy::greedy_search_quantized_custom_with_workspace_initialized(
        &row(&[1.0, 0.0]), &graph, &[], 1, 3, of(10.0), of(0.0), &mut FastRng::new(3),
        &mut workspace, Some(&quantized), &query, of(1.0 / 127.0), by_name, &arithmetic(),
    );
    assert_eq!(custom, vec![2, 1, 3]);
}
