use rinnd::distance::Metric;
use rinnd::graph::SearchGraph;
use rinnd::heap::checked::{benchmark_heap_push, checked_heap_push_bench};
use rinnd::heap::{BoundedHeap, CandidateHeap};
use rinnd::index::NNDescentBuilder;
use rinnd::layout::{invert, reorder_rows, row_of, LayoutError};
use rinnd::options::{
    parse_jobs, parse_options, plan, tree_count, Correction, JobsError, Kernel,
    OptionError, Options, QuantizedI8Encoding, Workers,
};
use rinnd::single::Single;

fn of(x: f32) -> Single {
    Single { bits: x.to_bits() }
}

fn to(x: Single) -> f32 {
    f32::from_bits(x.bits)
}

fn row(values: &[f32]) -> Vec<Single> {
    values.iter().map(|&v| of(v)).collect()
}

fn floats(values: &[Single]) -> Vec<f32> {
    values.iter().map(|&v| to(v)).collect()
}

#[test]
fn a_bounded_heap_keeps_the_nearest() {
    let mut heap = BoundedHeap::new(3);
    assert_eq!(to(heap.max_distance()), f32::INFINITY);
    assert!(heap.push(of(3.0), 30));
    assert!(heap.push(of(1.0), 10));
    assert!(!heap.is_full());
    assert!(heap.push(of(2.0), 20));
    assert!(heap.is_full());
    assert_eq!(to(heap.max_distance()), 3.0);
    assert!(!heap.push(of(3.0), 31));
    assert!(heap.push(of(0.5), 5));
    assert_eq!(to(heap.max_distance()), 2.0);
    assert_eq!(heap.clone().into_sorted_indices(), vec![5, 10, 20]);
    let (indices, distances) = heap.clone().into_sorted();
    assert_eq!(indices, vec![5, 10, 20]);
    assert_eq!(floats(&distances), vec![0.5, 1.0, 2.0]);
    heap.clear();
    assert!(heap.into_sorted_indices().is_empty());
}

#[test]
fn a_heap_without_room_takes_nothing() {
    let mut heap = BoundedHeap::new(0);
    assert!(!heap.push(of(1.0), 1));
    assert!(heap.into_sorted_indices().is_empty());
}

#[test]
fn a_candidate_heap_gives_the_nearest_first() {
    let mut heap = CandidateHeap::with_capacity(1);
    for (i, d) in [4.0, 2.0, 8.0, 1.0, 2.0].into_iter().enumerate() {
        heap.push(of(d), i as i32);
    }
    assert_eq!(heap.len(), 5);
    let mut order = Vec::new();
    while let Some((_, i)) = heap.pop() {
        order.push(i);
    }
    assert_eq!(order, vec![3, 1, 4, 0, 2]);
    heap.push(of(1.0), 1);
    heap.clear();
    assert_eq!(heap.pop(), None);
}

#[test]
fn checked_pushes_replace_the_worst() {
    let mut priorities = row(&[f32::INFINITY; 4]);
    let mut indices = vec![-1; 4];
    let mut push = |priority: f32, index: i32| {
        checked_heap_push_bench(&mut priorities, &mut indices, of(priority), index);
        (floats(&priorities), indices.clone())
    };
    push(5.0, 50);
    push(3.0, 30);
    push(4.0, 40);
    let (priorities, _) = push(1.0, 10);
    assert_eq!(priorities[0], 5.0);
    // Neither what is as bad nor what is there already.
    push(5.0, 51);
    let (_, indices) = push(2.0, 30);
    assert!(indices.contains(&50) && indices.contains(&30));
    let (priorities, indices) = push(2.0, 20);
    assert_eq!(priorities[0], 4.0);
    let mut sorted = indices.clone();
    sorted.sort_unstable();
    assert_eq!(sorted, vec![10, 20, 30, 40]);
    for i in 1..4 {
        assert!(priorities[(i - 1) / 2] >= priorities[i]);
    }
}

#[test]
fn pushes_are_counted_twice_per_edge_and_iteration() {
    let indices = [1, 2, 0, -1, 1, 0];
    let priorities: Vec<f32> = (0..36).map(|i| ((i * 7) % 11) as f32).collect();
    assert_eq!(benchmark_heap_push(3, 2, 2, 3, &indices, &row(&priorities)), 30);
    assert_eq!(benchmark_heap_push(3, 2, 2, 0, &indices, &[]), 0);
    // Nothing is pushed where there are placeholders only.
    assert_eq!(benchmark_heap_push(3, 1, 0, 4, &[-1; 3], &[]), 0);
    // Entries behind the last vertex are left alone.
    assert_eq!(benchmark_heap_push(2, 1, 1, 1, &[1, 0, 7, 9], &row(&priorities)), 4);
}

#[test]
fn graphs_are_made_of_rows_without_placeholders() {
    let graph = SearchGraph::from_dense(&[1, -1, 0, 2, -1, -1], 3, 2);
    assert_eq!(graph.indptr, vec![0, 1, 3, 3]);
    assert_eq!(graph.indices, vec![1, 0, 2]);
    assert_eq!(graph.neighbors(1), &[0, 2]);
    assert!(graph.neighbors(2).is_empty());
}

#[test]
fn reordering_a_graph_and_back_changes_nothing() {
    let graph = SearchGraph::from_dense(&[1, 2, 0, 3, 0, 3, 1, -1], 4, 2);
    let order = [2, 0, 3, 1];
    let mut moved = graph.clone();
    moved.reorder(&order);
    // Vertex 2 comes first, and its neighbors 0 and 3 are now at 1 and 2.
    assert_eq!(moved.neighbors(0), &[1, 2]);
    moved.reorder(&invert(&order, 4).unwrap());
    assert_eq!(moved.indptr, graph.indptr);
    assert_eq!(moved.indices, graph.indices);
}

#[test]
fn orders_are_inverted_or_refused() {
    assert_eq!(invert(&[2, 0, 1], 3), Ok(vec![1, 2, 0]));
    assert_eq!(invert(&[], 0), Ok(vec![]));
    assert_eq!(invert(&[0, 1], 3), Err(LayoutError::Incomplete));
    assert_eq!(invert(&[0, 1, 3], 3), Err(LayoutError::OutOfRange));
    assert_eq!(invert(&[0, 1, 1], 3), Err(LayoutError::Duplicate));
}

#[test]
fn rows_are_moved_whole() {
    let data = [1, 2, 3, 4, 5, 6];
    assert_eq!(row_of(&data, 3, 2, 1), &[3, 4]);
    assert_eq!(reorder_rows(&data, 3, 2, &[2, 0, 1]), vec![5, 6, 1, 2, 3, 4]);
}

#[test]
fn metrics_are_found_by_their_names() {
    assert_eq!(Metric::from_str("euclidean"), Some(Metric::Euclidean));
    assert_eq!(Metric::from_str("cosine"), Some(Metric::Cosine));
    assert_eq!(Metric::from_str("inner_product"), Some(Metric::InnerProduct));
    assert_eq!(Metric::from_str("symmetric_kl"), Some(Metric::SymmetricKL));
    assert_eq!(Metric::from_str("cosin"), None);
    assert_eq!(Metric::from_str(""), None);
    assert!(Metric::TSSS.is_angular());
    assert!(!Metric::Hamming.is_angular());
}

fn parse(
    metric: &str,
    normalize: bool,
    mode: &str,
    trees: &str,
    candidates: usize,
    rerank: usize,
) -> Result<Options, OptionError> {
    parse_options(metric, normalize, mode, trees, candidates, rerank)
}

#[test]
fn options_are_refused_in_order() {
    assert_eq!(
        parse("nothing", false, "log", "none", 5, 6),
        Err(OptionError::RerankWidthAboveCandidateWidth),
    );
    assert!(parse("cosine", false, "log", "none", 0, 6).is_ok());
    assert_eq!(parse("nothing", false, "what", "none", 0, 0), Err(OptionError::UnknownMetric));
    assert_eq!(
        parse("cosine", true, "what", "which", 0, 0),
        Err(OptionError::UnknownCosineDistanceMode),
    );
    assert_eq!(
        parse("cosine", true, "log", "which", 0, 0),
        Err(OptionError::UnknownTreeQuantization),
    );
    assert_eq!(
        parse("cosine", true, "direct", "int8", 0, 0),
        Err(OptionError::TreeQuantizationNeedsQuantizedMode),
    );
    assert_eq!(
        parse("cosine", true, "sq8u", "int8", 0, 0),
        Err(OptionError::TreeQuantizationNeedsVectorScales),
    );
    assert_eq!(
        parse("cosine", false, "direct", "none", 0, 0),
        Err(OptionError::DirectModeNeedsNormalizedCosine),
    );
    assert_eq!(
        parse("euclidean", true, "sq8p", "none", 0, 0),
        Err(OptionError::DirectModeNeedsNormalizedCosine),
    );
}

#[test]
fn accepted_options_are_planned() {
    let options = parse("cosine", true, "sq8p", "int8", 0, 0).unwrap();
    assert!(options.normalize_cosine && options.direct_cosine && options.quantize_trees);
    let coded = plan(options);
    assert_eq!(coded.kernel, Kernel::DirectNormalizedCosine);
    assert_eq!(coded.correction, Correction::Identity);
    assert_eq!(coded.encoding, Some(QuantizedI8Encoding::PerVectorSymmetric));

    let planned = |metric: &str, normalize: bool, mode: &str| {
        let p = plan(parse(metric, normalize, mode, "none", 0, 0).unwrap());
        assert_eq!(p.encoding, None);
        (p.kernel, p.correction)
    };
    assert_eq!(planned("l2", true, "log"), (Kernel::SquaredEuclidean, Correction::Root));
    assert_eq!(
        planned("sqeuclidean", false, "log"),
        (Kernel::SquaredEuclidean, Correction::Identity),
    );
    assert_eq!(
        planned("cosine", true, "direct"),
        (Kernel::DirectNormalizedCosine, Correction::Identity),
    );
    assert_eq!(
        planned("cosine", true, "log"),
        (Kernel::AlternativeDot, Correction::AlternativeCosine),
    );
    assert_eq!(
        planned("cosine", false, "log"),
        (Kernel::AlternativeCosine, Correction::AlternativeCosine),
    );
    assert_eq!(
        planned("dot", false, "log"),
        (Kernel::AlternativeDot, Correction::AlternativeCosine),
    );
    assert_eq!(
        planned("inner_product", false, "log"),
        (Kernel::AlternativeInnerProduct, Correction::AlternativeInnerProduct),
    );
    assert_eq!(
        planned("jaccard", false, "log"),
        (Kernel::Direct(Metric::Jaccard), Correction::Identity),
    );
}

#[test]
fn eight_trees_are_the_default() {
    assert_eq!(tree_count(None), 8);
    assert_eq!(tree_count(Some(3)), 3);
    assert_eq!(tree_count(Some(0)), 0);
    assert_eq!(NNDescentBuilder::new(&[], 0, 1).n_trees, 8);
}

#[test]
fn jobs_are_shared_counted_or_refused() {
    assert_eq!(parse_jobs(None), Ok(Workers::Shared));
    assert_eq!(parse_jobs(Some(-1)), Ok(Workers::AllCores));
    assert_eq!(parse_jobs(Some(4)), Ok(Workers::Exactly(4)));
    assert_eq!(parse_jobs(Some(0)), Err(JobsError));
    assert_eq!(parse_jobs(Some(-2)), Err(JobsError));
}
