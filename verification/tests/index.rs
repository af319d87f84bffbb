use rinnd::distance::alternatives::DirectNormalizedCosine;
use rinnd::distance::{Metric, PairSum};
use rinnd::graph::SearchGraph;
use rinnd::index::builder::ceil_log2;
use rinnd::index::quantized::{Coding, QueryError};
use rinnd::index::storage::allocated_bytes;
use rinnd::index::widths::{
    resolve_quantized_candidate_width, should_rerank_quantized, validate_quantized_widths,
    WidthError,
};
use rinnd::index::{Construction, NNDescentBuilder, NNDescentIndex, QuantizedI8Index};
use rinnd::layout::LayoutError;
use rinnd::normalize::normalize_rows_inplace;
use rinnd::options::QuantizedI8Encoding;
use rinnd::rng::FastRng;
use rinnd::search::{Arithmetic, SearchWorkspace};
use rinnd::single::Single;
use rinnd::tree::FlatTree;

fn of(x: f32) -> Single {
    Single { bits: x.to_bits() }
}

fn to(x: Single) -> f32 {
    f32::from_bits(x.bits)
}

fn row(values: &[f32]) -> Vec<Single> {
    values.iter().map(|&v| of(v)).collect()
}

fn floats(values: &[Single]) -> Vec<f32> {
    values.iter().map(|&v| to(v)).collect()
}

type Combine = fn(Single, Single, Single) -> Single;
type Finish = fn(Single) -> Single;
type Margin = fn(&[Single], &[Single], Single) -> Single;
type Rescale = fn(i32, Single, Single, Single) -> Single;
type Similarity = fn(i32, Single, Single) -> Single;
type Arithmetics = Arithmetic<Margin, Rescale, Combine, Similarity, Finish>;
type Code = fn(Single, Single) -> i8;
type Inverse = fn(i32) -> Single;
type Codings = Coding<Finish, Finish, Code, Inverse, Finish, Code>;
type Index = NNDescentIndex<PairSum<Combine, Finish>, Finish>;
type Quantized = QuantizedI8Index<PairSum<Combine, Finish>, Finish>;

fn add_square(acc: Single, a: Single, b: Single) -> Single {
    let diff = to(a) - to(b);
    of(to(acc) + diff * diff)
}

fn add_product(acc: Single, a: Single, b: Single) -> Single {
    of(to(acc) + to(a) * to(b))
}

fn itself(x: Single) -> Single {
    x
}

fn root(x: Single) -> Single {
    of(to(x).sqrt())
}

fn one_minus(s: Single) -> Single {
    of(1.0 - to(s))
}

fn cosine_of(s: Single) -> Single {
    DirectNormalizedCosine.from_similarity(s, &one_minus)
}

fn squared_euclidean() -> PairSum<Combine, Finish> {
    PairSum::new(add_square as Combine, itself as Finish, "sqeuclidean")
}

fn direct_cosine() -> PairSum<Combine, Finish> {
    PairSum::new(add_product as Combine, cosine_of as Finish, "direct_normalized_cosine")
}

fn margin(point: &[Single], hyperplane: &[Single], offset: Single) -> Single {
    let dot: f32 = point.iter().zip(hyperplane).map(|(&x, &y)| to(x) * to(y)).sum();
    of(dot + to(offset))
}

fn rescale(dot: i32, scale: Single, query_scale: Single, offset: Single) -> Single {
    of(dot as f32 * to(scale) * to(query_scale) + to(offset))
}

fn bound(max: Single, epsilon: Single, min: Single) -> Single {
    of(to(max) + to(epsilon) * (to(max) - to(min)))
}

fn similarity(dot: i32, x: Single, y: Single) -> Single {
    of(dot as f32 * to(x) * to(y))
}

fn arithmetic() -> Arithmetics {
    Arithmetic {
        margin,
        rescale,
        bound,
        similarity,
        one_minus,
    }
}

fn multiplier(m: Single) -> Single {
    of(127.0 / to(m))
}

fn reciprocal(x: Single) -> Single {
    of(to(x).recip())
}

fn code(x: Single, multiplier: Single) -> i8 {
    (to(x) * to(multiplier)).round().clamp(-127.0, 127.0) as i8
}

fn inverse_root(n: i32) -> Single {
    of((n as f32).sqrt().recip())
}

fn scale(m: Single) -> Single {
    of(to(m) / 127.0)
}

fn plane_code(x: Single, scale: Single) -> i8 {
    (to(x) / to(scale)).round().clamp(-127.0, 127.0) as i8
}

fn coding() -> Codings {
    Coding {
        multiplier,
        reciprocal,
        code,
        inverse_root,
        scale,
        plane_code,
    }
}

/// Grow a subtree over `ids` with planes through the origin of two points; returns its node.
fn grow(
    tree: &mut FlatTree,
    data: &[f32],
    dim: usize,
    ids: Vec<i32>,
    leaf_size: usize,
    rng: &mut FastRng,
) -> i32 {
    let node = tree.n_nodes;
    tree.n_nodes += 1;
    tree.children.push([0, 0]);
    let mut plane = vec![0.0; dim];
    let mut offset = 0.0;
    if ids.len() > leaf_size {
        let i = ids[rng.next_index(ids.len())] as usize;
        let j = ids[rng.next_index(ids.len())] as usize;
        for d in 0..dim {
            let (a, b) = (data[i * dim + d], data[j * dim + d]);
            plane[d] = b - a;
            offset -= (b - a) * (a + b) * 0.5;
        }
    }
    tree.hyperplanes.extend(row(&plane));
    tree.offsets.push(of(offset));
    let (right, left): (Vec<i32>, Vec<i32>) = ids.iter().copied().partition(|&i| {
        let point = row(&data[i as usize * dim..(i as usize + 1) * dim]);
        to(margin(&point, &row(&plane), of(offset))) > 0.0
    });
    if left.is_empty() || right.is_empty() {
        let start = tree.indices.len() as i32;
        tree.indices.extend(&ids);
        tree.children[node] = [-start, -(tree.indices.len() as i32)];
    } else {
        let l = grow(tree, data, dim, left, leaf_size, rng);
        let r = grow(tree, data, dim, right, leaf_size, rng);
        tree.children[node] = [l, r];
    }
    node as i32
}

/// The exact graph, and a forest.
fn construct(
    data: &[f32],
    n: usize,
    dim: usize,
    k: usize,
    n_trees: usize,
    distance: &dyn Fn(&[f32], &[f32]) -> f32,
) -> Construction {
    let mut neighbor_indices = Vec::new();
    let mut neighbor_distances = Vec::new();
    let mut min_distance = f32::INFINITY;
    for i in 0..n {
        let mut near: Vec<(f32, i32)> = (0..n)
            .map(|j| {
                let a = &data[i * dim..(i + 1) * dim];
                (distance(a, &data[j * dim..(j + 1) * dim]), j as i32)
            })
            .collect();
        near.sort_by(|a, b| a.partial_cmp(b).unwrap());
        for &(d, j) in &near[..k] {
            neighbor_indices.push(j);
            neighbor_distances.push(of(d));
            if j != i as i32 {
                min_distance = min_distance.min(d);
            }
        }
    }
    let mut rng = FastRng::new(5);
    let forest = (0..n_trees)
        .map(|_| {
            let mut tree = FlatTree::new(dim);
            grow(&mut tree, data, dim, (0..n as i32).collect(), 12, &mut rng);
            tree
        })
        .collect();
    Construction {
        search_graph: SearchGraph::from_dense(&neighbor_indices, n, k),
        neighbor_indices,
        neighbor_distances,
        forest,
        min_distance: of(min_distance),
    }
}

fn euclid(a: &[f32], b: &[f32]) -> f32 {
    a.iter().zip(b).map(|(x, y)| (x - y) * (x - y)).sum()
}

fn cosine(a: &[f32], b: &[f32]) -> f32 {
    1.0 - a.iter().zip(b).map(|(x, y)| x * y).sum::<f32>().clamp(-1.0, 1.0)
}

fn create_test_data(n: usize, dim: usize) -> Vec<f32> {
    let mut data = Vec::with_capacity(n * dim);
    for i in 0..n {
        for j in 0..dim {
            data.push(((i * dim + j) as f32 * 0.1).sin());
        }
    }
    data
}

fn build_euclidean(data: &[f32], n: usize, dim: usize, n_trees: usize, kept: usize) -> Index {
    let construction = construct(data, n, dim, 10, n_trees, &euclid);
    NNDescentBuilder::new(&row(data), n, dim)
        .n_neighbors(10)
        .n_trees(n_trees)
        .n_search_trees(kept)
        .n_iters(3)
        .verbose(false)
        .build_euclidean(squared_euclidean(), root as Finish, construction)
        .unwrap()
}

#[test]
fn test_builder_basic() {
    let n = 100;
    let dim = 10;
    let data = create_test_data(n, dim);

    let index = build_euclidean(&data, n, dim, 2, 1);

    assert_eq!(index.n_points, n);
    assert_eq!(index.dim, dim);
}

#[test]
fn test_query_basic() {
    let n = 100;
    let dim = 10;
    let data = create_test_data(n, dim);

    let index = build_euclidean(&data, n, dim, 2, 1);

    let query = row(&data[0..dim]);
    let (indices, distances) = index.query(&query, 1, 5, of(0.1), &arithmetic());

    assert_eq!(indices.len(), 5);
    assert_eq!(distances.len(), 5);

    assert!(to(distances[0]) < 1.0);
}

#[test]
fn test_query_multiple() {
    let n = 100;
    let dim = 10;
    let data = create_test_data(n, dim);

    let index = build_euclidean(&data, n, dim, 2, 1);

    let queries = row(&data[0..dim * 3]);
    let (indices, distances) = index.query(&queries, 3, 5, of(0.1), &arithmetic());

    assert_eq!(indices.len(), 15);
    assert_eq!(distances.len(), 15);
}

#[test]
fn test_search_layout_uses_tree_order_and_preserves_original_results() {
    let n = 100;
    let dim = 10;
    let data = create_test_data(n, dim);

    let index = build_euclidean(&data, n, dim, 2, 1);

    assert_eq!(index.vertex_order.len(), n);
    let mut sorted_order = index.vertex_order.clone();
    sorted_order.sort_unstable();
    assert_eq!(sorted_order, (0..n).collect::<Vec<_>>());

    for (new_idx, &old_idx) in index.vertex_order.iter().enumerate() {
        assert_eq!(
            floats(&index.data[new_idx * dim..(new_idx + 1) * dim]),
            &data[old_idx * dim..(old_idx + 1) * dim],
        );
    }

    let tree = index.search_trees.first().expect("search tree");
    assert_eq!(tree.indices, (0..n as i32).collect::<Vec<_>>());

    let exported_graph = index.search_graph_original_order();
    let mut round_trip_graph = exported_graph.clone();
    round_trip_graph.reorder(&index.vertex_order);
    assert_eq!(round_trip_graph.indptr, index.search_graph.indptr);
    assert_eq!(round_trip_graph.indices, index.search_graph.indices);

    let query_id = 37usize;
    let query = row(&data[query_id * dim..(query_id + 1) * dim]);
    let (indices, _) = index.query_one(&query, 10, of(0.1), &arithmetic());
    assert!(indices.contains(&(query_id as i32)));
}

#[test]
fn test_multiple_search_trees_are_retained_and_remapped() {
    let n = 100;
    let dim = 10;
    let data = create_test_data(n, dim);

    let index = build_euclidean(&data, n, dim, 3, 2);

    assert_eq!(index.search_trees.len(), 2);
    for tree in &index.search_trees {
        let mut indices = tree.indices.clone();
        indices.sort_unstable();
        assert_eq!(indices, (0..n as i32).collect::<Vec<_>>());
    }

    let query_id = 37usize;
    let query = row(&data[query_id * dim..(query_id + 1) * dim]);
    let (indices, _) = index.query_one(&query, 10, of(0.1), &arithmetic());
    assert!(indices.contains(&(query_id as i32)));
}

#[test]
fn test_exported_tree_uses_original_input_ids() {
    let n = 100;
    let dim = 10;
    let data = create_test_data(n, dim);
    let index = build_euclidean(&data, n, dim, 2, 1);

    let tree = index.export_search_tree().expect("retained search tree");
    let mut ids = tree.indices;
    ids.sort_unstable();
    assert_eq!(ids, (0..n as i32).collect::<Vec<_>>());
}

#[test]
fn queries_agree_however_they_are_made() {
    let (n, dim) = (100, 10);
    let data = create_test_data(n, dim);
    let index = build_euclidean(&data, n, dim, 2, 2);
    let arithmetic = arithmetic();
    let mut workspace = SearchWorkspace::new(n, 7);
    // More queries than are answered one after the other.
    let (indices, distances) = index.query(&row(&data), n, 7, of(0.1), &arithmetic);
    for i in 0..n {
        assert_eq!(indices[7 * i], i as i32);
        assert_eq!(to(distances[7 * i]), 0.0);
        let near = floats(&distances[7 * i..7 * i + 7]);
        assert!(near.windows(2).all(|pair| pair[0] <= pair[1]));
    }
    // Fewer queries get the first of the answers, and none get none.
    for m in [0, 1, 2, 60] {
        let (fewer, near) = index.query(&row(&data[..m * dim]), m, 7, of(0.1), &arithmetic);
        assert_eq!(fewer, &indices[..7 * m]);
        assert_eq!(near, &distances[..7 * m]);
    }
    let query = row(&data[..dim]);
    let (one, distances_of_one) = index.query_one(&query, 7, of(0.1), &arithmetic);
    assert_eq!(one, &indices[..7]);
    let (again, _) =
        index.query_one_with_workspace(&query, 7, of(0.1), &mut workspace, &arithmetic);
    assert_eq!(again, one);
    let only =
        index.query_one_indices_with_workspace(&query, 7, of(0.1), &mut workspace, &arithmetic);
    assert_eq!(only, one);
    // The correction turns squared distances into distances.
    let second = one[1] as usize;
    let expected = euclid(&data[..dim], &data[second * dim..(second + 1) * dim]).sqrt();
    assert!((to(distances_of_one[1]) - expected).abs() < 1e-5);
    assert!(index.neighbor_graph().is_none());
}

#[test]
fn answers_are_made_up_with_placeholders() {
    let data = create_test_data(4, 2);
    let construction = construct(&data, 4, 2, 2, 0, &euclid);
    let values = row(&data);
    let index: Index = NNDescentBuilder::new(&values, 4, 2)
        .build_with_distance(squared_euclidean(), None, construction)
        .unwrap();
    assert!(index.export_search_tree().is_none());
    assert_eq!(index.vertex_order, vec![0, 1, 2, 3]);
    let (indices, distances) = index.query_one(&values[..2], 6, of(0.1), &arithmetic());
    assert_eq!(indices[0], 0);
    assert_eq!(&indices[4..], &[-1, -1]);
    assert_eq!(to(distances[5]), f32::INFINITY);
}

#[test]
fn a_tree_that_lists_no_permutation_is_refused() {
    let data = create_test_data(4, 2);
    let values = row(&data);
    let build = |indices: Vec<i32>| {
        let mut construction = construct(&data, 4, 2, 2, 1, &euclid);
        let tree = &mut construction.forest[0];
        tree.children = vec![[0, -(indices.len() as i32)]];
        tree.n_nodes = 1;
        tree.hyperplanes.truncate(2);
        tree.offsets.truncate(1);
        tree.indices = indices;
        NNDescentBuilder::new(&values, 4, 2)
            .build_with_distance(squared_euclidean(), None::<Finish>, construction)
            .map(|_| ())
    };
    assert_eq!(build(vec![3, 1, 0, 2]), Ok(()));
    assert_eq!(build(vec![3, 1, 0]), Err(LayoutError::Incomplete));
    assert_eq!(build(vec![3, 1, 0, 4]), Err(LayoutError::OutOfRange));
    assert_eq!(build(vec![3, 1, 0, -1]), Err(LayoutError::OutOfRange));
    assert_eq!(build(vec![3, 1, 0, 1]), Err(LayoutError::Duplicate));
}

#[test]
fn parameters_follow_from_the_builder() {
    let data = row(&create_test_data(100, 2));
    let params = NNDescentBuilder::new(&data, 100, 2).params();
    assert_eq!(params.n_iters, 7);
    assert!(!params.angular);
    let params = NNDescentBuilder::new(&data, 100, 2)
        .metric(Metric::Cosine)
        .n_neighbors(40)
        .n_trees(5)
        .delta(of(0.5))
        .params();
    assert_eq!((params.leaf_size, params.max_candidates), (200, 40));
    assert_eq!((params.n_trees, params.delta), (5, of(0.5)));
    assert!(params.angular);
    let params = NNDescentBuilder::new(&data, 100, 2)
        .metric_str("dot")
        .n_neighbors(100)
        .params();
    assert_eq!((params.leaf_size, params.max_candidates), (256, 60));
    assert!(params.angular);
    let params = NNDescentBuilder::new(&data, 100, 2)
        .leaf_size(7)
        .max_candidates(8)
        .n_iters(9)
        .n_neighbors(3)
        .params();
    assert_eq!((params.leaf_size, params.max_candidates, params.n_iters), (7, 8, 9));
    assert_eq!(NNDescentBuilder::new(&data, 100, 2).n_neighbors(3).params().leaf_size, 60);
}

#[test]
fn doublings_are_counted() {
    let expected = [(0, 0), (1, 0), (2, 1), (3, 2), (4, 2), (5, 3), (1024, 10), (1025, 11)];
    for (n, e) in expected {
        assert_eq!(ceil_log2(n), e);
    }
}

fn add_one_square(acc: Single, x: Single) -> Single {
    of(to(acc) + to(x) * to(x))
}

fn inverse_length(norm_sq: Single) -> Single {
    of(to(norm_sq).sqrt().recip())
}

fn times(x: Single, s: Single) -> Single {
    of(to(x) * to(s))
}

fn normalized_fixture(n: usize, dim: usize) -> Vec<f32> {
    let data: Vec<f32> = (0..n * dim)
        .map(|i| ((i * 37 + 11) as f32 * 0.071).sin() + ((i * 13) as f32 * 0.037).cos() * 0.3)
        .collect();
    let mut data = row(&data);
    normalize_rows_inplace(&mut data, dim, &add_one_square, &inverse_length, &times);
    floats(&data)
}

fn build_cosine(data: &[f32], n: usize, dim: usize) -> Index {
    let construction = construct(data, n, dim, 10, 3, &cosine);
    NNDescentBuilder::new(&row(data), n, dim)
        .n_neighbors(10)
        .n_trees(3)
        .n_search_trees(2)
        .n_iters(3)
        .random_seed(41)
        .build_with_distance(direct_cosine(), None, construction)
        .unwrap()
}

fn make_quantized(
    data: &[f32],
    n: usize,
    dim: usize,
    encoding: QuantizedI8Encoding,
    rerank_width: usize,
    quantize_trees: bool,
) -> Quantized {
    let index = build_cosine(data, n, dim);
    QuantizedI8Index::new(index, 0, rerank_width, encoding, quantize_trees, &coding())
}

fn query_widths(
    index: &Quantized,
    query: &[f32],
    k: usize,
    epsilon: f32,
    candidate_width: usize,
    rerank_width: usize,
) -> (Vec<i32>, Vec<Single>) {
    let mut scratch = Vec::new();
    let mut workspace = SearchWorkspace::new(index.index.n_points, k);
    index.query_one_quantized_widths(
        &row(query),
        k,
        of(epsilon),
        candidate_width,
        rerank_width,
        &mut scratch,
        &mut workspace,
        &coding(),
        &arithmetic(),
    )
}

fn query_default(index: &Quantized, query: &[f32], k: usize, epsilon: f32) -> (Vec<i32>, Vec<Single>) {
    let mut scratch = Vec::new();
    let mut workspace = SearchWorkspace::new(index.index.n_points, k);
    index.query_one_quantized(
        &row(query),
        k,
        of(epsilon),
        &mut scratch,
        &mut workspace,
        &coding(),
        &arithmetic(),
    )
}

fn ascend(distances: &[Single]) -> bool {
    floats(distances).windows(2).all(|pair| pair[0] <= pair[1])
}

#[test]
fn sq8p_storage_and_error_bounds_are_preserved() {
    let (n, dim) = (48, 5);
    let data = normalized_fixture(n, dim);

    let sq8p = make_quantized(&data, n, dim, QuantizedI8Encoding::PerVectorSymmetric, 0, false);
    let sq8p_storage = sq8p.storage_info();
    assert_eq!(sq8p_storage.1, n * dim);
    assert_eq!(sq8p_storage.2, n * std::mem::size_of::<f32>());
    for ((row, codes), &scale) in sq8p
        .index
        .data
        .chunks_exact(dim)
        .zip(sq8p.quantized_data.chunks_exact(dim))
        .zip(&sq8p.inv_norms)
    {
        let scale = to(scale);
        for (&value, &code) in row.iter().zip(codes) {
            assert!((to(value) - code as f32 * scale).abs() <= scale * 0.501 + 1e-7);
        }
    }
}

#[test]
fn retained_quantized_modes_return_sorted_production_results() {
    let (n, dim) = (64, 7);
    let data = normalized_fixture(n, dim);
    let encodings = [
        QuantizedI8Encoding::PerVectorCosine,
        QuantizedI8Encoding::GlobalSymmetric,
        QuantizedI8Encoding::PerVectorSymmetric,
    ];
    let query = &data[9 * dim..10 * dim];
    for encoding in encodings {
        let index = make_quantized(&data, n, dim, encoding, 0, false);
        let default_result = query_default(&index, query, 6, 0.1);
        let explicit_default = query_widths(&index, query, 6, 0.1, 0, 0);
        assert_eq!(default_result, explicit_default, "encoding={encoding:?}");
        assert_eq!(default_result.0.len(), 6);
        assert_eq!(default_result.1.len(), 6);
        assert!(ascend(&default_result.1));
    }
}

#[test]
fn quantized_candidate_and_rerank_widths_are_independent() {
    let (n, dim) = (96, 9);
    let data = normalized_fixture(n, dim);
    let query = &data[13 * dim..14 * dim];
    let index = make_quantized(&data, n, dim, QuantizedI8Encoding::GlobalSymmetric, 0, false);

    let narrow = query_widths(&index, query, 6, 0.08, 6, 0);
    let wide = query_widths(&index, query, 6, 0.08, 18, 0);
    let reranked = query_widths(&index, query, 6, 0.08, 18, 12);
    assert_eq!(narrow.0.len(), 6);
    assert_eq!(wide.0.len(), 6);
    assert_eq!(reranked.0.len(), 6);
    assert!(ascend(&reranked.1));
}

#[test]
fn quantized_width_validation_is_clear_and_legacy_zero_is_accepted() {
    assert!(validate_quantized_widths(10, 0, 5).is_ok());
    assert!(validate_quantized_widths(10, 9, 0).is_err());
    assert!(validate_quantized_widths(10, 20, 21).is_err());
    assert!(validate_quantized_widths(10, 20, 5).is_err());
    assert!(validate_quantized_widths(10, 20, 10).is_ok());
}

#[test]
fn width_faults_are_told_apart() {
    assert_eq!(
        validate_quantized_widths(10, 9, 11),
        Err(WidthError::CandidatesBelowK { candidate_width: 9, k: 10 }),
    );
    assert_eq!(
        validate_quantized_widths(10, 20, 21),
        Err(WidthError::RerankAboveCandidates { rerank_width: 21, candidate_width: 20 }),
    );
    assert_eq!(
        validate_quantized_widths(10, 20, 9),
        Err(WidthError::RerankBelowK { rerank_width: 9, k: 10 }),
    );
    assert_eq!(resolve_quantized_candidate_width(10, 0, 5), 10);
    assert_eq!(resolve_quantized_candidate_width(10, 0, 15), 15);
    assert_eq!(resolve_quantized_candidate_width(10, 20, 15), 20);
    assert!(!should_rerank_quantized(10, 0, 10));
    assert!(should_rerank_quantized(10, 0, 11));
    assert!(should_rerank_quantized(10, 20, 10));
    assert!(!should_rerank_quantized(10, 20, 0));
}

#[test]
fn vectors_are_coded_by_their_encoding() {
    let (n, dim) = (16, 3);
    let data = normalized_fixture(n, dim);
    let peak = data.iter().fold(0.0f32, |m, x| m.max(x.abs()));
    for encoding in [
        QuantizedI8Encoding::PerVectorCosine,
        QuantizedI8Encoding::GlobalSymmetric,
        QuantizedI8Encoding::PerVectorSymmetric,
    ] {
        let index = make_quantized(&data, n, dim, encoding, 0, false);
        for i in 0..n {
            let vector = floats(&index.index.data[i * dim..(i + 1) * dim]);
            let codes = &index.quantized_data[i * dim..(i + 1) * dim];
            let largest = vector.iter().fold(0.0f32, |m, x| m.max(x.abs()));
            let norm: i32 = codes.iter().map(|&c| c as i32 * c as i32).sum();
            let (used, factor) = match encoding {
                QuantizedI8Encoding::PerVectorCosine => (largest, (norm as f32).sqrt().recip()),
                QuantizedI8Encoding::GlobalSymmetric => (peak, (127.0 / peak).recip()),
                QuantizedI8Encoding::PerVectorSymmetric => (largest, (127.0 / largest).recip()),
            };
            for (x, &c) in vector.iter().zip(codes) {
                assert_eq!(c, (x * (127.0 / used)).round() as i8);
            }
            assert_eq!(to(index.inv_norms[i]), factor);
            let mut scratch = vec![1; 9];
            let query = &index.index.data[i * dim..(i + 1) * dim];
            assert_eq!(to(index.quantize_query(query, &mut scratch, &coding())), factor);
            assert_eq!(scratch, codes);
        }
    }
}

#[test]
fn zero_vectors_are_coded_as_zeros() {
    let data = vec![0.0f32; 6];
    let index = make_quantized(&vec![0.0; 33], 11, 3, QuantizedI8Encoding::PerVectorCosine, 0, false);
    let mut scratch = Vec::new();
    let factor = index.quantize_query(&row(&data[..3]), &mut scratch, &coding());
    assert_eq!((to(factor), scratch), (0.0, vec![0, 0, 0]));
    assert_eq!(to(index.tree_query_scale(&row(&data[..3]), &coding())), 0.0);
    assert_eq!(to(index.global_multiplier), 0.0);
}

#[test]
fn quantized_trees_replace_the_others() {
    let (n, dim) = (64, 7);
    let data = normalized_fixture(n, dim);
    let plain = make_quantized(&data, n, dim, QuantizedI8Encoding::PerVectorCosine, 0, false);
    let index = make_quantized(&data, n, dim, QuantizedI8Encoding::PerVectorCosine, 0, true);
    assert!(plain.routed_trees().is_none());
    assert_eq!(index.routed_trees().unwrap().len(), 2);
    assert!(index.index.search_trees.is_empty());
    assert!(index.index.data.is_empty());
    assert_eq!(index.released_fp32_data_bytes, 4 * n * dim);
    let nodes: usize = plain.index.search_trees.iter().map(|t| t.n_nodes).sum();
    assert_eq!(
        index.released_fp32_tree_bytes,
        nodes * (4 * dim + 4 + 8) + 2 * n * 4,
    );

    let query = &data[9 * dim..10 * dim];
    let (indices, distances) = query_default(&index, query, 6, 0.1);
    assert_eq!(indices[0], 9);
    assert!(ascend(&distances));

    assert!(index.ensure_rerank_available(6, 0, 6).is_ok());
    assert!(index.ensure_rerank_available(6, 0, 7).is_err());
    assert!(index.ensure_rerank_available(6, 12, 6).is_err());
    assert!(plain.ensure_rerank_available(6, 12, 6).is_ok());

    let kept = make_quantized(&data, n, dim, QuantizedI8Encoding::PerVectorSymmetric, 12, true);
    assert_eq!(kept.released_fp32_data_bytes, 0);
    let (indices, distances) = query_default(&kept, query, 6, 0.1);
    assert_eq!(indices[0], 9);
    let exact = cosine(query, &data[indices[1] as usize * dim..(indices[1] as usize + 1) * dim]);
    assert!((to(distances[1]) - exact).abs() < 1e-6);
}

#[test]
fn refused_queries_say_why() {
    let (n, dim) = (32, 5);
    let data = normalized_fixture(n, dim);
    let index = make_quantized(&data, n, dim, QuantizedI8Encoding::PerVectorCosine, 0, true);
    let ask = |query: &[f32], k: usize, candidates: usize, rerank: usize| {
        index.query_one_indices_quantized(
            &row(query),
            k,
            of(0.1),
            candidates,
            rerank,
            &mut Vec::new(),
            &mut SearchWorkspace::new(n, k),
            &coding(),
            &arithmetic(),
        )
    };
    let query = &data[5 * dim..6 * dim];
    assert_eq!(
        ask(&query[..4], 4, 3, 0),
        Err(QueryError::Widths(WidthError::CandidatesBelowK { candidate_width: 3, k: 4 })),
    );
    assert_eq!(ask(&query[..4], 4, 8, 4), Err(QueryError::Dimension { query: 4, data: 5 }));
    assert_eq!(ask(query, 4, 8, 4), Err(QueryError::RerankUnavailable));
    let answer = ask(query, 4, 8, 0).unwrap();
    assert_eq!((answer.len(), answer[0]), (4, 5));
}

#[test]
fn several_quantized_queries_are_answered_in_turn() {
    let (n, dim) = (40, 6);
    let data = normalized_fixture(n, dim);
    let index = make_quantized(&data, n, dim, QuantizedI8Encoding::PerVectorSymmetric, 0, false);
    let mut scratch = Vec::new();
    let mut workspace = SearchWorkspace::new(n, 3);
    let queries = row(&data[..7 * dim]);
    let (indices, distances) = index.query(
        &queries, 5, 3, of(0.1), &mut scratch, &mut workspace, &coding(), &arithmetic(),
    );
    assert_eq!((indices.len(), distances.len()), (15, 15));
    for i in 0..5 {
        let query = &data[i * dim..(i + 1) * dim];
        let (expected, _) = query_default(&index, query, 3, 0.1);
        assert_eq!(&indices[3 * i..3 * i + 3], expected.as_slice());
        let (one, _) = index.query_one(
            &row(query), 3, of(0.1), &mut scratch, &mut workspace, &coding(), &arithmetic(),
        );
        assert_eq!(one, expected);
        let only = index.query_one_indices(
            &row(query), 3, of(0.1), &mut scratch, &mut workspace, &coding(), &arithmetic(),
        );
        assert_eq!(only, expected);
    }
    let (none, _) = index.query(
        &queries, 0, 3, of(0.1), &mut scratch, &mut workspace, &coding(), &arithmetic(),
    );
    assert!(none.is_empty());
    // No more than there are.
    let (indices, _) = index.query(
        &queries, 50, 3, of(0.1), &mut scratch, &mut workspace, &coding(), &arithmetic(),
    );
    assert_eq!(indices.len(), 21);
}

#[test]
fn storage_is_accounted_for() {
    let (n, dim) = (32, 5);
    let data = normalized_fixture(n, dim);
    let plain = build_cosine(&data, n, dim);
    assert_eq!(plain.storage_info(), ("fp32", 4 * n * dim, 0, 0));
    let names = [
        (QuantizedI8Encoding::PerVectorCosine, "int8_per_vector_cosine"),
        (QuantizedI8Encoding::GlobalSymmetric, "sq8u_global_symmetric"),
        (QuantizedI8Encoding::PerVectorSymmetric, "sq8p_per_vector_symmetric"),
    ];
    for (encoding, name) in names {
        let index = make_quantized(&data, n, dim, encoding, 0, false);
        assert_eq!(index.storage_info().0, name);
    }
    let nodes: usize = plain.search_trees.iter().map(|t| t.n_nodes).sum();
    let topology = 8 * nodes + 4 * 2 * n;

    let index = make_quantized(&data, n, dim, QuantizedI8Encoding::PerVectorCosine, 0, false);
    let info = index.storage_info();
    assert_eq!(info.3, 4 * (n * dim + 10 * n + nodes * (dim + 1)));
    assert_eq!(index.quantized_tree_storage_info(), (0, 0, 0, 0, 0, 0));
    assert_eq!(index.retained_fp32_tree_topology_bytes(), topology);
    assert_eq!(
        allocated_bytes(info, index.quantized_tree_storage_info(), topology),
        n * dim + 4 * n + info.3 + topology,
    );

    let index = make_quantized(&data, n, dim, QuantizedI8Encoding::PerVectorCosine, 0, true);
    let trees = index.quantized_tree_storage_info();
    assert_eq!(
        trees,
        (nodes * dim, 4 * nodes, 4 * nodes, topology, 0, 4 * nodes * (dim + 1) + topology),
    );
    assert_eq!(index.retained_fp32_tree_topology_bytes(), 0);
    let info = index.storage_info();
    assert_eq!(info.3, 4 * 10 * n);
    assert_eq!(
        allocated_bytes(info, trees, 0),
        n * dim + 4 * n + 40 * n + nodes * (dim + 8) + topology,
    );
}

#[test]
fn custom_distances_are_ranked_again_exactly() {
    let (n, dim) = (40, 4);
    let data = normalized_fixture(n, dim);
    let index = build_cosine(&data, n, dim);
    let query = row(&data[3 * dim..4 * dim]);
    let mut workspace = SearchWorkspace::new(n, 5);
    // A coarse distance: the exact one, rounded.
    let coarse = |i: i32| {
        let vector = floats(&index.data[i as usize * dim..(i as usize + 1) * dim]);
        of((cosine(&data[3 * dim..4 * dim], &vector) * 8.0).round())
    };
    let (indices, distances) = index.query_one_quantized_custom_with_workspace(
        &query, 5, 20, 20, of(1.0), &mut workspace, &[], None, of(1.0), coarse, &arithmetic(),
    );
    assert_eq!(indices[0], 3);
    assert!(ascend(&distances));
    let second = indices[1] as usize;
    let exact = cosine(&data[3 * dim..4 * dim], &data[second * dim..(second + 1) * dim]);
    assert!((to(distances[1]) - exact).abs() < 1e-6);
}
