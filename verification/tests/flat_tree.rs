use rinnd::distance::quantized::quantized_i8_dot;
use rinnd::rng::FastRng;
use rinnd::single::Single;
use rinnd::tree::flat_tree::select_side;
use rinnd::tree::{FlatTree, QuantizedFlatTree};

fn of(x: f32) -> Single {
    Single { bits: x.to_bits() }
}

fn to(x: Single) -> f32 {
    f32::from_bits(x.bits)
}

fn row(values: &[f32]) -> Vec<Single> {
    values.iter().map(|&v| of(v)).collect()
}

fn margin(point: &[Single], hyperplane: &[Single], offset: Single) -> Single {
    let dot: f32 = point.iter().zip(hyperplane).map(|(&x, &y)| to(x) * to(y)).sum();
    of(dot + to(offset))
}

fn rescale(dot: i32, scale: Single, query_scale: Single, offset: Single) -> Single {
    of(dot as f32 * to(scale) * to(query_scale) + to(offset))
}

fn scale_of(max_abs: Single) -> Single {
    of(to(max_abs) / 127.0)
}

fn code(x: Single, scale: Single) -> i8 {
    (to(x) / to(scale)).round().clamp(-127.0, 127.0) as i8
}

fn create_test_tree() -> FlatTree {
    // A tree with 3 nodes: 1 internal and 2 leaves
    let dim = 2;
    let mut tree = FlatTree::new(dim);

    // Root node (0): hyperplane [1, 0], offset 0
    tree.hyperplanes.extend_from_slice(&row(&[1.0, 0.0]));
    tree.offsets.push(of(0.0));
    tree.children.push([1, 2]);

    // Left leaf (node 1): points 0, 1
    tree.hyperplanes.extend_from_slice(&row(&[0.0, 0.0]));
    tree.offsets.push(of(0.0));
    tree.children.push([-0, -2]);

    // Right leaf (node 2): points 2, 3
    tree.hyperplanes.extend_from_slice(&row(&[0.0, 0.0]));
    tree.offsets.push(of(0.0));
    tree.children.push([-2, -4]);

    tree.indices = vec![0, 1, 2, 3];
    tree.n_nodes = 3;

    tree
}

#[test]
fn test_search_left() {
    let tree = create_test_tree();
    let mut rng = FastRng::new(42);

    let point = row(&[-1.0, 0.0]);
    let (start, end) = tree.search(&point, &mut rng, &margin);

    assert_eq!(start, 0);
    assert_eq!(end, 2);
}

#[test]
fn test_search_right() {
    let tree = create_test_tree();
    let mut rng = FastRng::new(42);

    let point = row(&[1.0, 0.0]);
    let (start, end) = tree.search(&point, &mut rng, &margin);

    assert_eq!(start, 2);
    assert_eq!(end, 4);
    assert_eq!(tree.search_angular(&point, &mut rng, &margin), (2, 4));
}

#[test]
fn test_get_leaf_indices() {
    let tree = create_test_tree();
    let mut rng = FastRng::new(42);

    let point = row(&[1.0, 0.0]);
    let indices = tree.get_leaf_indices(&point, &mut rng, &margin);

    assert_eq!(indices, &[2, 3]);
}

#[test]
fn test_get_all_leaves() {
    let tree = create_test_tree();
    let leaves = tree.get_all_leaves();

    assert_eq!(leaves.len(), 2);
    assert!(leaves.contains(&(0, 2)));
    assert!(leaves.contains(&(2, 4)));
}

#[test]
fn test_remap_indices_preserves_leaf_ranges() {
    let mut tree = create_test_tree();
    let children = tree.children.clone();

    tree.remap_indices(&[2, 0, 3, 1]);

    assert_eq!(tree.indices, vec![2, 0, 3, 1]);
    assert_eq!(tree.children, children);
    assert_eq!(tree.get_all_leaves(), vec![(0, 2), (2, 4)]);
}

#[test]
fn test_spill_search_leaf_budget() {
    let tree = create_test_tree();
    let mut rng = FastRng::new(42);
    let mut frontier = Vec::new();
    let mut leaves = Vec::new();

    let evaluations =
        tree.search_leaves(&row(&[1.0, 0.0]), &mut rng, 2, &mut frontier, &mut leaves, &margin);

    assert_eq!(evaluations, 1);
    assert_eq!(leaves, vec![(2, 4), (0, 2)]);
}

#[test]
fn test_quantized_margin_reconstruction_sign_and_odd_dimension() {
    let mut tree = FlatTree::new(5);
    tree.hyperplanes = row(&[0.25, -0.5, 0.75, -1.0, 0.125]);
    tree.offsets = row(&[0.2]);
    tree.children = vec![[-0, -0]];
    tree.n_nodes = 1;
    let quantized = QuantizedFlatTree::from_flat_tree(&tree, &scale_of, &code);
    let query = [64, -32, 16, -8, 4];
    let query_scale = 0.01;
    let expected = quantized_i8_dot(&quantized.hyperplanes, &query) as f32
        * to(quantized.scales[0])
        * query_scale
        + 0.2;
    assert_eq!(to(quantized.margin(0, &query, of(query_scale), &rescale)), expected);
    assert!(to(quantized.margin(0, &query, of(query_scale), &rescale)) > 0.0);
}

#[test]
fn test_quantized_tree_preserves_topology_and_leaves() {
    let tree = create_test_tree();
    let quantized = QuantizedFlatTree::from_flat_tree(&tree, &scale_of, &code);
    assert_eq!(quantized.children, tree.children);
    assert_eq!(quantized.indices, tree.indices);
    assert_eq!(quantized.dim, tree.dim);
    assert_eq!(quantized.n_nodes, tree.n_nodes);
}

#[test]
fn test_owned_quantization_matches_borrowed_quantization() {
    let tree = create_test_tree();
    let borrowed = QuantizedFlatTree::from_flat_tree(&tree, &scale_of, &code);
    let owned = QuantizedFlatTree::from_owned_flat_tree(tree, &scale_of, &code);
    assert_eq!(owned.hyperplanes, borrowed.hyperplanes);
    assert_eq!(owned.scales, borrowed.scales);
    assert_eq!(owned.offsets, borrowed.offsets);
    assert_eq!(owned.children, borrowed.children);
    assert_eq!(owned.indices, borrowed.indices);
    assert_eq!(owned.dim, borrowed.dim);
    assert_eq!(owned.n_nodes, borrowed.n_nodes);
}

fn angular_plane(data: &[f32], dim: usize, ids: &[i32], rng: &mut FastRng) -> Vec<f32> {
    let a = rng.next_index(ids.len());
    let mut b = rng.next_index(ids.len());
    while a == b {
        b = rng.next_index(ids.len());
    }
    let (i, j) = (ids[a] as usize, ids[b] as usize);
    let plane: Vec<f32> = (0..dim).map(|d| data[j * dim + d] - data[i * dim + d]).collect();
    let norm = plane.iter().map(|x| x * x).sum::<f32>().sqrt();
    plane.iter().map(|x| x / norm).collect()
}

/// Grow a subtree over `ids`; returns its node.
fn grow(
    tree: &mut FlatTree,
    data: &[f32],
    dim: usize,
    ids: Vec<i32>,
    leaf_size: usize,
    depth: usize,
    rng: &mut FastRng,
) -> i32 {
    let node = tree.n_nodes;
    tree.n_nodes += 1;
    tree.offsets.push(of(0.0));
    tree.children.push([0, 0]);
    let plane = if ids.len() <= leaf_size || depth == 0 {
        vec![0.0; dim]
    } else {
        angular_plane(data, dim, &ids, rng)
    };
    tree.hyperplanes.extend(row(&plane));
    let (right, left): (Vec<i32>, Vec<i32>) = ids.iter().copied().partition(|&i| {
        let point = &data[i as usize * dim..(i as usize + 1) * dim];
        point.iter().zip(&plane).map(|(x, y)| x * y).sum::<f32>() > 0.0
    });
    if left.is_empty() || right.is_empty() {
        let start = tree.indices.len() as i32;
        tree.indices.extend(&ids);
        tree.children[node] = [-start, -(tree.indices.len() as i32)];
    } else {
        let l = grow(tree, data, dim, left, leaf_size, depth - 1, rng);
        let r = grow(tree, data, dim, right, leaf_size, depth - 1, rng);
        tree.children[node] = [l, r];
    }
    node as i32
}

#[test]
fn test_generated_angular_tree_quantized_routing_fidelity() {
    let (n, dim) = (512, 17);
    let mut data: Vec<f32> = (0..n * dim)
        .map(|i| {
            ((i * 37 + 11) as f32 * 0.017).sin() + 0.31 * ((i * 13 + 5) as f32 * 0.029).cos()
        })
        .collect();
    for row in data.chunks_exact_mut(dim) {
        let norm = row.iter().map(|x| x * x).sum::<f32>().sqrt();
        for value in row {
            *value /= norm;
        }
    }
    let mut build_rng = FastRng::new(73);
    let mut tree = FlatTree::new(dim);
    grow(&mut tree, &data, dim, (0..n as i32).collect(), 24, 200, &mut build_rng);
    let quantized = QuantizedFlatTree::from_flat_tree(&tree, &scale_of, &code);
    let mut identical = 0usize;
    let mut overlap_sum = 0.0f32;
    for query_id in 0..128 {
        let query = &data[query_id * dim..(query_id + 1) * dim];
        let max_abs = query.iter().fold(0.0f32, |value, &x| value.max(x.abs()));
        let scale = max_abs / 127.0;
        let codes: Vec<i8> = query
            .iter()
            .map(|&x| (x / scale).round().clamp(-127.0, 127.0) as i8)
            .collect();
        let mut fp_rng = FastRng::new(991);
        let mut q_rng = FastRng::new(991);
        let mut fp_frontier = Vec::new();
        let mut q_frontier = Vec::new();
        let mut fp_leaves = Vec::new();
        let mut q_leaves = Vec::new();
        tree.search_leaves(
            &row(query),
            &mut fp_rng,
            3,
            &mut fp_frontier,
            &mut fp_leaves,
            &margin,
        );
        quantized.search_leaves(
            &codes,
            of(scale),
            &mut q_rng,
            3,
            &mut q_frontier,
            &mut q_leaves,
            &rescale,
        );
        if fp_leaves == q_leaves {
            identical += 1;
        }
        let common = fp_leaves
            .iter()
            .filter(|leaf| q_leaves.contains(leaf))
            .count();
        overlap_sum += common as f32 / fp_leaves.len() as f32;
    }
    let identity = identical as f32 / 128.0;
    let overlap = overlap_sum / 128.0;
    println!("quantized RP routing fidelity: identity={identity:.6}, overlap={overlap:.6}");
    assert!(identity >= 0.95, "identity={identity}");
    assert!(overlap >= 0.98, "overlap={overlap}");
}

#[test]
fn leaves_are_found_nearest_first() {
    // Four leaves: the first coordinate decides at the root, the second on the left and the third
    // on the right.
    let mut tree = FlatTree::new(3);
    let planes = [[1.0, 0.0, 0.0], [0.0, 1.0, 0.0], [0.0, 0.0, 1.0]];
    for plane in planes {
        tree.hyperplanes.extend_from_slice(&row(&plane));
    }
    tree.hyperplanes.extend_from_slice(&row(&[0.0; 12]));
    tree.offsets = row(&[0.0; 7]);
    tree.children = vec![[1, 2], [3, 4], [5, 6], [-0, -1], [-1, -2], [-2, -3], [-3, -4]];
    tree.indices = vec![0, 1, 2, 3];
    tree.n_nodes = 7;
    let find = |point: &[f32], budget: usize| {
        let mut leaves = Vec::new();
        let (mut rng, mut frontier) = (FastRng::new(42), Vec::new());
        tree.search_leaves(&row(point), &mut rng, budget, &mut frontier, &mut leaves, &margin);
        leaves.iter().map(|&(first, _)| first).collect::<Vec<usize>>()
    };
    // To leave the own half costs 2, to change sides within it 3, within the other one 1.
    assert_eq!(find(&[-2.0, -3.0, 1.0], 9), vec![0, 3, 2, 1]);
    assert_eq!(find(&[-2.0, -3.0, 1.0], 3), vec![0, 3, 2]);
    assert_eq!(find(&[-2.0, -1.0, 4.0], 9), vec![0, 1, 3, 2]);
    for budget in 0..6 {
        let all = find(&[0.5, -0.25, -0.75], 9);
        assert_eq!(all, vec![2, 0, 1, 3]);
        assert_eq!(find(&[0.5, -0.25, -0.75], budget), &all[..budget.min(4)]);
    }
}

#[test]
fn a_budget_of_zero_visits_no_leaf() {
    let tree = create_test_tree();
    let mut rng = FastRng::new(42);
    let (mut frontier, mut leaves) = (Vec::new(), vec![(9, 9)]);
    let point = row(&[-1.0, 0.0]);
    assert_eq!(tree.search_leaves(&point, &mut rng, 0, &mut frontier, &mut leaves, &margin), 0);
    assert!(leaves.is_empty());
    tree.search_leaves(&point, &mut rng, 9, &mut frontier, &mut leaves, &margin);
    assert_eq!(leaves, vec![(0, 2), (2, 4)]);
}

#[test]
fn sides_are_taken_by_the_sign_of_the_margin() {
    let add_product = |acc: Single, x: Single, y: Single| of(to(acc) + to(x) * to(y));
    let mut rng = FastRng::new(1);
    let plane = row(&[1.0, -1.0]);
    assert_eq!(select_side(&plane, of(0.0), &row(&[2.0, 1.0]), &mut rng, &add_product), 1);
    assert_eq!(select_side(&plane, of(0.0), &row(&[1.0, 2.0]), &mut rng, &add_product), 0);
    assert_eq!(select_side(&plane, of(1.5), &row(&[1.0, 2.0]), &mut rng, &add_product), 1);
    // A point on the hyperplane is sent either way, as the generator falls.
    let sides: Vec<usize> = (0..64)
        .map(|_| select_side(&plane, of(0.0), &row(&[1.0, 1.0]), &mut rng, &add_product))
        .collect();
    assert!(sides.contains(&0) && sides.contains(&1));
}

#[test]
fn quantized_trees_report_their_bytes() {
    let quantized = QuantizedFlatTree::from_owned_flat_tree(create_test_tree(), &scale_of, &code);
    assert_eq!(quantized.hyperplanes, vec![127, 0, 0, 0, 0, 0]);
    assert_eq!(quantized.code_bytes(), 6);
    assert_eq!(quantized.scale_bytes(), 12);
    assert_eq!(quantized.offset_bytes(), 12);
    let copy = quantized.clone();
    assert_eq!(copy.hyperplanes, quantized.hyperplanes);
}
