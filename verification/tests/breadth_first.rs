use rayon::ThreadPoolBuilder;
use rinnd::rng::FastRng;
use rinnd::single::Single;
use rinnd::tree::benchmark::build_breadth_first_leaf_forest_batched;
use rinnd::tree::breadth_first::{
    batched_dot_products, child_seed, tie_side, MAX_TREE_BATCH_WIDTH,
};
use rinnd::tree::build_breadth_first_leaf_forest;
use rinnd::tree::split::{
    make_angular_split, make_euclidean_split, make_split, pick_pair, Bisection, Split,
};

fn of(x: f32) -> Single {
    Single { bits: x.to_bits() }
}

fn to(x: Single) -> f32 {
    f32::from_bits(x.bits)
}

fn row(values: &[f32]) -> Vec<Single> {
    values.iter().map(|&v| of(v)).collect()
}

fn add_product(acc: Single, x: Single, y: Single) -> Single {
    of(to(acc) + to(x) * to(y))
}

fn add_offset(dot: Single, offset: Single) -> Single {
    of(to(dot) + to(offset))
}

fn length(v: &[Single]) -> Single {
    of(v.iter().map(|&x| to(x) * to(x)).sum::<f32>().sqrt())
}

fn direction(first: Single, norm1: Single, second: Single, norm2: Single) -> Single {
    of(to(second) / to(norm2) - to(first) / to(norm1))
}

fn shrink(value: Single, norm: Single) -> Single {
    of(to(value) / to(norm))
}

fn angular_split(point1: &[Single], point2: &[Single]) -> Option<Split> {
    make_angular_split(point1, point2, &length, &direction, &shrink)
}

fn euclidean_split(point1: &[Single], point2: &[Single]) -> Option<Split> {
    let bisection = Bisection {
        difference: |a: Single, b: Single| of(to(b) - to(a)),
        add_square: |acc: Single, v: Single| of(to(acc) + to(v) * to(v)),
        add_midpoint: |acc: Single, v: Single, a: Single, b: Single| {
            of(to(acc) + to(v) * (to(a) + to(b)) * 0.5)
        },
        root: |x: Single| of(to(x).sqrt()),
        inverse: |x: Single| of(to(x).recip()),
        times: |a: Single, b: Single| of(to(a) * to(b)),
        negate: |x: Single| of(-to(x)),
    };
    make_euclidean_split(point1, point2, &bisection)
}

fn forest(
    data: &[f32],
    n_points: usize,
    dim: usize,
    n_trees: usize,
    leaf_size: usize,
    rng: &mut FastRng,
    angular: bool,
    max_depth: usize,
    batch_width: usize,
) -> Vec<Vec<i32>> {
    build_breadth_first_leaf_forest(
        &row(data),
        n_points,
        dim,
        n_trees,
        leaf_size,
        rng,
        angular,
        max_depth,
        batch_width,
        &angular_split,
        &euclidean_split,
        &add_product,
        &add_offset,
    )
}

fn assert_point_multiplicity(leaves: &[Vec<i32>], n_points: usize, n_trees: usize) {
    let mut counts = vec![0; n_points];
    for point in leaves.iter().flatten() {
        counts[*point as usize] += 1;
    }
    assert_eq!(counts, vec![n_trees; n_points]);
}

fn data(n_points: usize, dim: usize) -> Vec<f32> {
    (0..n_points * dim)
        .map(|index| ((index as f32) * 0.017).sin())
        .collect()
}

fn build_with_threads(threads: usize, batch_width: usize) -> Vec<Vec<i32>> {
    let data = data(128, 16);
    ThreadPoolBuilder::new()
        .num_threads(threads)
        .build()
        .unwrap()
        .install(|| {
            forest(&data, 128, 16, 4, 12, &mut FastRng::new(42), true, 20, batch_width)
        })
}

#[test]
fn every_tree_contains_each_point_once() {
    let leaves = build_with_threads(4, 4);
    assert!(leaves
        .iter()
        .all(|leaf| !leaf.is_empty() && leaf.len() <= 12));
    assert_point_multiplicity(&leaves, 128, 4);
}

#[test]
fn output_is_independent_of_threads_and_batch_width() {
    let expected = build_with_threads(1, 1);
    assert_eq!(build_with_threads(4, 1), expected);
    assert_eq!(build_with_threads(4, 2), expected);
    assert_eq!(build_with_threads(4, 4), expected);
}

#[test]
fn batched_dot_matches_individual_dot_products() {
    let point: Vec<f32> = (0..37).map(|index| ((index as f32) * 0.13).sin()).collect();
    let planes: Vec<Vec<f32>> = (0..4)
        .map(|plane| {
            (0..37)
                .map(|index| (((plane * 37 + index) as f32) * 0.07).cos())
                .collect()
        })
        .collect();
    let rows: Vec<Vec<Single>> = planes.iter().map(|plane| row(plane)).collect();
    let mut references: [Option<&[Single]>; MAX_TREE_BATCH_WIDTH] = [None; MAX_TREE_BATCH_WIDTH];
    for (slot, plane) in rows.iter().enumerate() {
        references[slot] = Some(plane.as_slice());
    }

    let batched = batched_dot_products(&row(&point), &references, planes.len(), &add_product);
    assert_eq!(batched.len(), MAX_TREE_BATCH_WIDTH);
    for (slot, plane) in planes.iter().enumerate() {
        let expected: f32 = point.iter().zip(plane).map(|(x, y)| x * y).sum();
        assert!((to(batched[slot]) - expected).abs() <= 1e-5);
    }
    assert!(batched[planes.len()..].iter().all(|&sum| to(sum) == 0.0));
}

#[test]
fn handles_euclidean_and_degenerate_data() {
    for angular in [false, true] {
        let data = vec![0.0; 64 * 9];
        let mut rng = FastRng::new(23);
        let leaves = forest(&data, 64, 9, 3, 8, &mut rng, angular, 10, 3);
        assert_point_multiplicity(&leaves, 64, 3);
    }
}

#[test]
fn depth_limit_emits_oversized_terminal_leaves() {
    let data: Vec<f32> = (0..128 * 7)
        .map(|index| ((index as f32) * 0.19).sin())
        .collect();
    let mut rng = FastRng::new(29);
    let leaves = forest(&data, 128, 7, 2, 4, &mut rng, true, 1, 2);

    assert_point_multiplicity(&leaves, 128, 2);
    assert!(leaves.iter().any(|leaf| leaf.len() > 4));
}

#[test]
fn a_seed_stands_for_a_generator() {
    let data = data(96, 5);
    let expected = forest(&data, 96, 5, 5, 10, &mut FastRng::new(7), false, 30, 2);
    let leaves = build_breadth_first_leaf_forest_batched(
        &row(&data),
        96,
        5,
        5,
        10,
        7,
        false,
        30,
        3,
        &angular_split,
        &euclidean_split,
        &add_product,
        &add_offset,
    );
    assert_eq!(leaves, expected);
    assert_point_multiplicity(&leaves, 96, 5);
    assert!(leaves.len() > 5);
}

#[test]
fn pairs_are_different_points() {
    for seed in 0..50 {
        let (first, second) = pick_pair(seed, 3);
        assert!(first < 3 && second < 3 && first != second);
    }
    assert_eq!(pick_pair(5, 1), (0, 0));
}

#[test]
fn a_euclidean_split_lies_midway() {
    let split = euclidean_split(&row(&[0.0, 0.0]), &row(&[4.0, 0.0])).unwrap();
    assert_eq!(split.hyperplane, row(&[1.0, 0.0]));
    assert_eq!(to(split.offset), -2.0);
    assert!(euclidean_split(&row(&[1.0]), &row(&[1.0])).is_none());
}

#[test]
fn an_angular_split_lies_between_directions() {
    let split = angular_split(&row(&[3.0, 0.0]), &row(&[0.0, 2.0])).unwrap();
    let expected = 0.5f32.sqrt();
    assert!((to(split.hyperplane[0]) + expected).abs() < 1e-6);
    assert!((to(split.hyperplane[1]) - expected).abs() < 1e-6);
    assert_eq!(to(split.offset), 0.0);
    assert!(angular_split(&row(&[0.0, 0.0]), &row(&[1.0, 0.0])).is_none());
    assert!(angular_split(&row(&[2.0, 0.0]), &row(&[1.0, 0.0])).is_none());
}

#[test]
fn splits_are_laid_between_points_of_a_node() {
    let data = row(&[0.0, 8.0, 100.0]);
    let split = make_split(&data, 3, 1, &[0, 1], 3, false, &angular_split, &euclidean_split);
    assert_eq!(to(split.unwrap().offset).abs(), 4.0);
    assert!(make_split(&data, 3, 1, &[2], 3, false, &angular_split, &euclidean_split).is_none());
}

#[test]
fn children_and_ties_are_mixed_from_seeds() {
    assert_ne!(child_seed(1, false), child_seed(1, true));
    assert_ne!(child_seed(1, false), child_seed(2, false));
    let sides: Vec<u8> = (0..64).map(|point| tie_side(9, point)).collect();
    assert!(sides.iter().all(|&side| side <= 1));
    assert!(sides.contains(&0) && sides.contains(&1));
}
