//! Entry points for measuring forest construction.

use crate::calls;
use crate::rng::FastRng;
use crate::single::Single;
use crate::tree::breadth_first;
use crate::tree::breadth_first::{build_breadth_first_leaf_forest, MAX_TREE_BATCH_WIDTH};
use crate::tree::growth;
use crate::tree::split;
use crate::tree::split::Split;
use vstd::prelude::*;

verus! {

/// Build a forest breadth first, from a seed.
pub fn build_breadth_first_leaf_forest_batched<
    A: Fn(&[Single], &[Single]) -> Option<Split>,
    E: Fn(&[Single], &[Single]) -> Option<Split>,
    P: Fn(Single, Single, Single) -> Single + Sync,
    O: Fn(Single, Single) -> Single + Sync,
>(
    data: &[Single],
    n_points: usize,
    dim: usize,
    n_trees: usize,
    leaf_size: usize,
    seed: u64,
    angular: bool,
    max_depth: usize,
    tree_batch_width: usize,
    angular_split: &A,
    euclidean_split: &E,
    add_product: &P,
    add_offset: &O,
) -> (leaves: Vec<Vec<i32>>)
    requires
        data@.len() == n_points * dim,
        n_points <= i32::MAX,
        1 <= tree_batch_width <= MAX_TREE_BATCH_WIDTH,
        split::divides(*angular_split),
        split::divides(*euclidean_split),
        calls::maps3(*add_product),
        calls::maps2(*add_offset),
    ensures
        leaves@.map_values(|leaf: Vec<i32>| leaf@) == growth::forest(
            breadth_first::rules_for(
                data@,
                dim as int,
                leaf_size,
                angular,
                max_depth,
                *angular_split,
                *euclidean_split,
                *add_product,
                *add_offset,
            ),
            n_points as nat,
            breadth_first::seeds_from(FastRng { state: seed }, n_trees as nat),
        ),
{
    let mut rng = FastRng::new(seed);
    build_breadth_first_leaf_forest(
        data,
        n_points,
        dim,
        n_trees,
        leaf_size,
        &mut rng,
        angular,
        max_depth,
        tree_batch_width,
        angular_split,
        euclidean_split,
        add_product,
        add_offset,
    )
}

} // verus!
