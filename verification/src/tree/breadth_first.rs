//! Breadth-first random projection forest construction for graph-only indexes.
//!
//! Trees are grown in batches, a level of all trees of a batch at a time: the points are routed
//! in parallel, each through all trees, and the trees are rearranged in parallel. What a tree
//! grows to does not depend on the batch that it is in.

use crate::calls;
use crate::distance::quantized;
use crate::layout;
use crate::parallel::{par_map, par_update};
use crate::rng;
use crate::rng::{mix64, FastRng};
use crate::single::Single;
use crate::tree::growth;
use crate::tree::growth::{FrontierNode, LEFT_SALT, RIGHT_SALT};
use crate::tree::split;
use crate::tree::split::{make_split, Split};
use vstd::prelude::*;
use vstd::slice::{slice_subrange, slice_to_vec};

verus! {

/// Marks a point that is in no node of the frontier.
pub const NO_NODE: usize = usize::MAX;

/// The largest number of trees in a batch.
pub const MAX_TREE_BATCH_WIDTH: usize = 8;

/// A tree that is growing.
struct TreeState {
    permutation: Vec<i32>,
    assignments: Vec<usize>,
    frontier: Vec<FrontierNode>,
    splits: Vec<Option<Split>>,
    leaves: Vec<Vec<i32>>,
}

impl View for TreeState {
    type V = growth::Growing;

    closed spec fn view(&self) -> growth::Growing {
        growth::Growing {
            permutation: self.permutation@,
            frontier: self.frontier@,
            leaves: self.leaves@.map_values(|leaf: Vec<i32>| leaf@),
        }
    }
}

/// The seed of a child node.
pub fn child_seed(seed: u64, right: bool) -> (r: u64)
    ensures
        r == growth::seed_below(seed, right),
{
    if right {
        mix64(seed ^ RIGHT_SALT)
    } else {
        mix64(seed ^ LEFT_SALT)
    }
}

/// The side of a point that lies on its node's hyperplane: 0 for left, 1 for right.
pub fn tie_side(seed: u64, point_index: usize) -> (side: u8)
    ensures
        side == if growth::tie_goes_right(seed, point_index as int) {
            1u8
        } else {
            0
        },
{
    let bits: u64 = mix64(seed ^ (point_index as u64));
    assert(bits & 1 == bits % 2) by (bit_vector);
    (bits & 1) as u8
}

/// The side of a point by its margin, 0 for left, 1 for right.
fn side_by(margin: Single, seed: u64, point_index: usize) -> (side: u8)
    ensures
        side == if if margin.ties() {
            growth::tie_goes_right(seed, point_index as int)
        } else {
            margin.at_least(Single::spec_zero())
        } {
            1u8
        } else {
            0
        },
{
    if margin.is_tie() {
        tie_side(seed, point_index)
    } else if margin.ge(Single::zero()) {
        1
    } else {
        0
    }
}

/// Put all points of a range of the permutation into one node.
fn assign(
    assignments: &mut Vec<usize>,
    permutation: &Vec<i32>,
    start: usize,
    end: usize,
    node: usize,
)
    requires
        start <= end <= permutation@.len(),
        growth::holds_each_once(permutation@, old(assignments)@.len() as int),
    ensures
        final(assignments)@.len() == old(assignments)@.len(),
        forall|j: int|
            0 <= j < permutation@.len() ==> final(assignments)@[#[trigger] permutation@[j] as int]
                == if start <= j < end {
                node
            } else {
                old(assignments)@[permutation@[j] as int]
            },
{
    let mut i: usize = start;
    while i < end
        invariant
            start <= i <= end <= permutation@.len(),
            growth::holds_each_once(permutation@, old(assignments)@.len() as int),
            assignments@.len() == old(assignments)@.len(),
            forall|j: int|
                0 <= j < permutation@.len() ==> assignments@[#[trigger] permutation@[j] as int]
                    == if start <= j < i {
                    node
                } else {
                    old(assignments)@[permutation@[j] as int]
                },
        decreases end - i,
    {
        assert(0 <= permutation@[i as int] < permutation@.len());
        assignments.set(permutation[i] as usize, node);
        i = i + 1;
    }
}

/// Put the points of a range that go right behind the others; returns where they start.
fn partition(
    permutation: &mut Vec<i32>,
    sides: &Vec<Vec<u8>>,
    tree_slot: usize,
    start: usize,
    end: usize,
    Ghost(goes_right): Ghost<spec_fn(int) -> bool>,
) -> (left: usize)
    requires
        start <= end <= old(permutation)@.len(),
        growth::holds_each_once(old(permutation)@, sides@.len() as int),
        forall|p: int| 0 <= p < sides@.len() ==> tree_slot < (#[trigger] sides@[p])@.len(),
        forall|j: int|
            start <= j < end ==> sides@[#[trigger] old(permutation)@[j] as int]@[tree_slot as int]
                == if goes_right(old(permutation)@[j] as int) {
                1u8
            } else {
                0
            },
    ensures
        (final(permutation)@, left as int) == growth::partitioned(
            old(permutation)@,
            goes_right,
            start as int,
            end as int,
        ),
{
    let mut left: usize = start;
    let mut right: usize = end;
    let ghost target = growth::partitioned(
        permutation@,
        goes_right,
        start as int,
        end as int,
    );
    while left < right
        invariant
            start <= left <= right <= end <= permutation@.len(),
            growth::holds_each_once(permutation@, sides@.len() as int),
            forall|p: int| 0 <= p < sides@.len() ==> tree_slot < (#[trigger] sides@[p])@.len(),
            forall|j: int|
                left <= j < right ==> sides@[#[trigger] permutation@[j] as int]@[tree_slot as int]
                    == if goes_right(permutation@[j] as int) {
                    1u8
                } else {
                    0
                },
            growth::partitioned(permutation@, goes_right, left as int, right as int) == target,
        decreases right - left,
    {
        assert(0 <= permutation@[left as int] < sides@.len());
        let point: usize = permutation[left] as usize;
        assert(tree_slot < sides@[point as int]@.len());
        if sides[point][tree_slot] == 0 {
            left = left + 1;
        } else {
            right = right - 1;
            let a: i32 = permutation[left];
            let b: i32 = permutation[right];
            permutation.set(left, b);
            permutation.set(right, a);
        }
    }
    left
}

/// Position `j` is in a node from the `i`-th on.
spec fn waits(frontier: Seq<FrontierNode>, i: int, j: int) -> bool {
    exists|b: int|
        i <= b < frontier.len() && (#[trigger] frontier[b]).start <= j < frontier[b].end
}

/// Every point that waits no longer knows its node among `next`, if it is in one.
spec fn assigned(
    permutation: Seq<i32>,
    assignments: Seq<usize>,
    frontier: Seq<FrontierNode>,
    next: Seq<FrontierNode>,
    i: int,
) -> bool {
    &&& forall|a: int, j: int|
        0 <= a < next.len() && next[a].start <= j < next[a].end
            ==> assignments[#[trigger] permutation[j] as int] == a && (#[trigger] next[a]).start
            <= j
    &&& forall|j: int|
        0 <= j < permutation.len() && !waits(frontier, i, j) ==> {
            let a = assignments[#[trigger] permutation[j] as int];
            a == NO_NODE || (a < next.len() && next[a as int].start <= j < next[a as int].end)
        }
}

/// The nodes that come of node `node` when it is divided at `left`, or becomes a leaf.
spec fn heirs(next: Seq<FrontierNode>, node: FrontierNode, left: Option<int>) -> Seq<
    FrontierNode,
> {
    match left {
        Some(left) => next.push(growth::left_of(node, left)).push(growth::right_of(node, left)),
        None => next,
    }
}

/// The node among `next` that position `j` of a divided node belongs to.
spec fn heir_at(next: Seq<FrontierNode>, left: Option<int>, j: int) -> usize {
    match left {
        Some(left) => if j < left {
            next.len() as usize
        } else {
            (next.len() + 1) as usize
        },
        None => NO_NODE,
    }
}

proof fn assigning_goes_on(
    before: Seq<i32>,
    held: Seq<usize>,
    permutation: Seq<i32>,
    assignments: Seq<usize>,
    frontier: Seq<FrontierNode>,
    next: Seq<FrontierNode>,
    i: int,
    left: Option<int>,
)
    requires
        0 <= i < frontier.len(),
        before.len() == permutation.len(),
        frontier[i].start <= frontier[i].end <= before.len(),
        next.len() + 1 < NO_NODE,
        assigned(before, held, frontier, next, i),
        left matches Some(left) ==> frontier[i].start < left < frontier[i].end,
        forall|a: int| 0 <= a < next.len() ==> (#[trigger] next[a]).end <= frontier[i].start,
        forall|j: int|
            0 <= j < before.len() && !(frontier[i].start <= j < frontier[i].end)
                ==> #[trigger] permutation[j] == before[j],
        forall|j: int|
            0 <= j < before.len() ==> assignments[#[trigger] permutation[j] as int] == if (
            frontier[i].start <= j < frontier[i].end) {
                heir_at(next, left, j)
            } else {
                held[permutation[j] as int]
            },
    ensures
        assigned(
            permutation,
            assignments,
            frontier,
            heirs(next, frontier[i], left),
            i + 1,
        ),
{
    let node = frontier[i];
    let after = heirs(next, node, left);
    assert forall|a: int, j: int|
        0 <= a < after.len() && after[a].start <= j < after[a].end implies assignments[
    #[trigger] permutation[j] as int] == a && (#[trigger] after[a]).start <= j by {
        if a < next.len() {
            assert(after[a] == next[a]);
            assert(next[a].end <= node.start);
            assert(permutation[j] == before[j]);
            assert(held[before[j] as int] == a && next[a].start <= j);
        }
    }
    assert forall|j: int| 0 <= j < permutation.len() && !waits(frontier, i + 1, j) implies {
        let a = assignments[#[trigger] permutation[j] as int];
        a == NO_NODE || (a < after.len() && after[a as int].start <= j < after[a as int].end)
    } by {
        if !(node.start <= j < node.end) {
            assert(!waits(frontier, i, j)) by {
                if waits(frontier, i, j) {
                    let b = choose|b: int|
                        i <= b < frontier.len() && (#[trigger] frontier[b]).start <= j
                            < frontier[b].end;
                    assert(b != i);
                    assert(frontier[b].start <= j < frontier[b].end);
                }
            }
            assert(permutation[j] == before[j]);
            let a = held[before[j] as int];
            if a != NO_NODE {
                assert(after[a as int] == next[a as int]);
            }
        }
    }
}

impl TreeState {
    /// The tree is sound at a level, and every point knows the node that it is in, if any.
    spec fn wf(&self, n: int, level: int) -> bool {
        &&& growth::sound(self@, n, level)
        &&& self.assignments@.len() == n
        &&& n <= i32::MAX
        &&& forall|i: int, j: int|
            0 <= i < self.frontier@.len() && self.frontier@[i].start <= j < self.frontier@[i].end
                ==> self.assignments@[#[trigger] self.permutation@[j] as int] == i && (
            #[trigger] self.frontier@[i]).start <= j
        &&& forall|j: int|
            0 <= j < n ==> {
                let a = self.assignments@[#[trigger] self.permutation@[j] as int];
                a == NO_NODE || (a < self.frontier@.len() && self.frontier@[a as int].start <= j
                    < self.frontier@[a as int].end)
            }
    }

    /// The splits are those that the rules give for the frontier.
    spec fn prepared(&self, rules: growth::Rules, dim: int) -> bool {
        &&& self.splits@.len() == self.frontier@.len()
        &&& forall|i: int|
            0 <= i < self.splits@.len() ==> split::contents(#[trigger] self.splits@[i])
                == growth::split_of(rules, self.permutation@, self.frontier@[i])
        &&& forall|i: int|
            0 <= i < self.splits@.len() ==> ((#[trigger] self.splits@[i]) matches Some(s)
                ==> s.hyperplane@.len() == dim)
    }

    /// `side` is the side of a point, if it is in a node that is divided.
    spec fn is_side(&self, rules: growth::Rules, p: int, side: u8) -> bool {
        let a = self.assignments@[p];
        a != NO_NODE ==> (growth::split_of(
            rules,
            self.permutation@,
            self.frontier@[a as int],
        ) matches Some(plane) ==> side == if growth::is_right(
            rules,
            self.frontier@[a as int],
            plane,
            p,
        ) {
            1u8
        } else {
            0
        })
    }

    /// The sides of this tree's points are in `sides`, at `tree_slot`.
    spec fn sided(&self, rules: growth::Rules, sides: Seq<Vec<u8>>, tree_slot: int) -> bool {
        forall|p: int|
            0 <= p < sides.len() ==> self.is_side(rules, p, (#[trigger] sides[p])@[tree_slot])
    }

    /// Create a tree whose only node holds all points.
    fn new(n_points: usize, seed: u64) -> (r: TreeState)
        requires
            n_points <= i32::MAX,
        ensures
            r.wf(n_points as int, 0),
            r@ == growth::planted(n_points as nat, seed),
    {
        let mut permutation: Vec<i32> = Vec::with_capacity(n_points);
        let mut i: usize = 0;
        while i < n_points
            invariant
                i <= n_points,
                n_points <= i32::MAX,
                permutation@.len() == i,
                forall|j: int| 0 <= j < i ==> #[trigger] permutation@[j] == j,
            decreases n_points - i,
        {
            permutation.push(i as i32);
            i = i + 1;
        }
        let r = TreeState {
            permutation,
            assignments: vec![0usize; n_points],
            frontier: vec![FrontierNode { start: 0, end: n_points, depth: 0, seed }],
            splits: Vec::new(),
            leaves: Vec::new(),
        };
        proof {
            assert(r.permutation@ =~= growth::planted(n_points as nat, seed).permutation);
            assert(r@ =~= growth::planted(n_points as nat, seed));
        }
        r
    }

    /// Choose the splits of the level; returns whether there are any.
    fn prepare_level<
        A: Fn(&[Single], &[Single]) -> Option<Split>,
        E: Fn(&[Single], &[Single]) -> Option<Split>,
    >(
        &mut self,
        data: &[Single],
        n_points: usize,
        dim: usize,
        leaf_size: usize,
        angular: bool,
        max_depth: usize,
        angular_split: &A,
        euclidean_split: &E,
        Ghost(rules): Ghost<growth::Rules>,
        Ghost(level): Ghost<int>,
    ) -> (any: bool)
        requires
            old(self).wf(n_points as int, level),
            data@.len() == n_points * dim,
            split::divides(*angular_split),
            split::divides(*euclidean_split),
            rules.leaf_size == leaf_size,
            rules.max_depth == max_depth,
            rules.split == (|points: Seq<i32>, seed: u64|
                split::hyperplane_for(
                    data@,
                    dim as int,
                    points,
                    seed,
                    angular,
                    *angular_split,
                    *euclidean_split,
                )),
        ensures
            final(self).wf(n_points as int, level),
            final(self)@ == old(self)@,
            final(self).prepared(rules, dim as int),
            any == growth::any_split(rules, old(self)@),
    {
        let mut splits: Vec<Option<Split>> = Vec::with_capacity(self.frontier.len());
        let mut any: bool = false;
        let mut i: usize = 0;
        while i < self.frontier.len()
            invariant
                i <= self.frontier@.len(),
                *self == *old(self),
                self.wf(n_points as int, level),
                data@.len() == n_points * dim,
                split::divides(*angular_split),
                split::divides(*euclidean_split),
                rules.leaf_size == leaf_size,
                rules.max_depth == max_depth,
                rules.split == (|points: Seq<i32>, seed: u64|
                    split::hyperplane_for(
                        data@,
                        dim as int,
                        points,
                        seed,
                        angular,
                        *angular_split,
                        *euclidean_split,
                    )),
                splits@.len() == i,
                forall|j: int|
                    0 <= j < i ==> split::contents(#[trigger] splits@[j]) == growth::split_of(
                        rules,
                        self.permutation@,
                        self.frontier@[j],
                    ),
                forall|j: int|
                    0 <= j < i ==> ((#[trigger] splits@[j]) matches Some(s) ==> s.hyperplane@.len()
                        == dim),
                any == exists|j: int|
                    0 <= j < i && #[trigger] growth::split_of(
                        rules,
                        self.permutation@,
                        self.frontier@[j],
                    ) is Some,
            decreases self.frontier@.len() - i,
        {
            let node: FrontierNode = self.frontier[i];
            assert(node.start <= node.end <= n_points);
            let chosen: Option<Split> = if node.end - node.start <= leaf_size || node.depth
                >= max_depth {
                None
            } else {
                let points = slice_subrange(self.permutation.as_slice(), node.start, node.end);
                make_split(
                    data,
                    n_points,
                    dim,
                    points,
                    node.seed,
                    angular,
                    angular_split,
                    euclidean_split,
                )
            };
            assert(split::contents(chosen) == growth::split_of(
                rules,
                self.permutation@,
                self.frontier@[i as int],
            ));
            any = any || chosen.is_some();
            splits.push(chosen);
            i = i + 1;
        }
        self.splits = splits;
        assert(self@ =~= old(self)@);
        any
    }

    /// Divide the nodes of the level by the sides of their points. `sides[point][tree_slot]` is
    /// the side of a point in this tree.
    fn finish_level(
        &mut self,
        tree_slot: usize,
        sides: &Vec<Vec<u8>>,
        Ghost(rules): Ghost<growth::Rules>,
        Ghost(dim): Ghost<int>,
        Ghost(level): Ghost<int>,
    )
        requires
            old(self).wf(sides@.len() as int, level),
            old(self).prepared(rules, dim),
            level < rules.max_depth,
            forall|p: int| 0 <= p < sides@.len() ==> tree_slot < (#[trigger] sides@[p])@.len(),
            old(self).sided(rules, sides@, tree_slot as int),
        ensures
            final(self).wf(sides@.len() as int, level + 1),
            final(self)@ == growth::leveled(rules, old(self)@),
    {
        let ghost s = self@;
        let ghost n = sides@.len() as int;
        let mut next_frontier: Vec<FrontierNode> = Vec::new();
        let mut i: usize = 0;
        let count: usize = self.frontier.len();
        let ghost frontier = self.frontier@;
        proof {
            growth::level_is_sound(rules, s, n, level, 0);
            assert(self.leaves@.map_values(|leaf: Vec<i32>| leaf@) =~= s.leaves);
            assert forall|j: int|
                0 <= j < n && !waits(frontier, 0, j) implies self.assignments@[
            #[trigger] self.permutation@[j] as int] == NO_NODE by {
                let a = self.assignments@[self.permutation@[j] as int];
                if a != NO_NODE {
                    assert(frontier[a as int].start <= j < frontier[a as int].end);
                }
            }
        }
        while i < count
            invariant
                i <= count,
                count == frontier.len(),
                n == sides@.len(),
                self.frontier@ == frontier,
                s == old(self)@,
                s.frontier == frontier,
                growth::sound(s, n, level),
                n <= i32::MAX,
                level < rules.max_depth,
                self.splits == old(self).splits,
                old(self).prepared(rules, dim),
                old(self).wf(n, level),
                old(self).sided(rules, sides@, tree_slot as int),
                forall|p: int| 0 <= p < sides@.len() ==> tree_slot < (#[trigger] sides@[p])@.len(),
                growth::midway(rules, s, n, level, i as int),
                (growth::Growing {
                    permutation: self.permutation@,
                    frontier: next_frontier@,
                    leaves: self.leaves@.map_values(|leaf: Vec<i32>| leaf@),
                }) == growth::advanced(rules, s, i as nat),
                self.assignments@.len() == n,
                assigned(
                    self.permutation@,
                    self.assignments@,
                    frontier,
                    next_frontier@,
                    i as int,
                ),
                n == 0 ==> next_frontier@.len() == 0,
            decreases count - i,
        {
            let node: FrontierNode = self.frontier[i];
            let ghost t = growth::advanced(rules, s, i as nat);
            let ghost held = self.assignments@;
            let ghost before = self.permutation@;
            let ghost next = next_frontier@;
            let ghost mut cut: Option<int> = None;
            proof {
                growth::level_is_sound(rules, s, n, level, i + 1);
                assert(node.start <= node.end <= n);
                assert(frontier[i as int] == node);
                assert(split::contents(old(self).splits@[i as int]) == growth::split_of(
                    rules,
                    s.permutation,
                    node,
                ));
            }
            if self.splits[i].is_none() {
                self.leaves.push(
                    slice_to_vec(
                        slice_subrange(self.permutation.as_slice(), node.start, node.end),
                    ),
                );
                assign(&mut self.assignments, &self.permutation, node.start, node.end, NO_NODE);
            } else {
                let ghost plane = split::contents(old(self).splits@[i as int]).unwrap();
                let ghost goes_right = growth::sides_at(rules, node, plane);
                proof {
                    assert forall|j: int| node.start <= j < node.end implies sides@[
                    #[trigger] self.permutation@[j] as int]@[tree_slot as int]
                        == if goes_right(self.permutation@[j] as int) {
                        1u8
                    } else {
                        0
                    } by {
                        assert(frontier[i as int].start <= j);
                        assert(self.permutation@[j] == s.permutation[j]);
                        assert(old(self).permutation@[j] == s.permutation[j]);
                        assert(0 <= s.permutation[j] < n);
                        assert(old(self).assignments@[s.permutation[j] as int] == i);
                        assert(old(self).is_side(
                            rules,
                            s.permutation[j] as int,
                            sides@[s.permutation[j] as int]@[tree_slot as int],
                        ));
                    }
                    growth::partition_divides(
                        self.permutation@,
                        goes_right,
                        node.start as int,
                        node.end as int,
                    );
                }
                let left: usize = partition(
                    &mut self.permutation,
                    sides,
                    tree_slot,
                    node.start,
                    node.end,
                    Ghost(goes_right),
                );
                assert(growth::holds_each_once(self.permutation@, n));
                if left == node.start || left == node.end {
                    self.leaves.push(
                        slice_to_vec(
                            slice_subrange(self.permutation.as_slice(), node.start, node.end),
                        ),
                    );
                    assign(&mut self.assignments, &self.permutation, node.start, node.end, NO_NODE);
                } else {
                    proof {
                        cut = Some(left as int);
                    }
                    let left_index: usize = next_frontier.len();
                    next_frontier.push(
                        FrontierNode {
                            start: node.start,
                            end: left,
                            depth: node.depth + 1,
                            seed: child_seed(node.seed, false),
                        },
                    );
                    let right_index: usize = next_frontier.len();
                    next_frontier.push(
                        FrontierNode {
                            start: left,
                            end: node.end,
                            depth: node.depth + 1,
                            seed: child_seed(node.seed, true),
                        },
                    );
                    assign(&mut self.assignments, &self.permutation, node.start, left, left_index);
                    assign(&mut self.assignments, &self.permutation, left, node.end, right_index);
                }
            }
            proof {
                assert(self.leaves@.map_values(|leaf: Vec<i32>| leaf@) =~= growth::advanced(
                    rules,
                    s,
                    (i + 1) as nat,
                ).leaves);
                assert(next_frontier@ =~= heirs(next, node, cut));
                if n > 0 {
                    growth::rows_are_few(next, n, level + 1);
                }
                assigning_goes_on(
                    before,
                    held,
                    self.permutation@,
                    self.assignments@,
                    frontier,
                    next,
                    i as int,
                    cut,
                );
            }
            i = i + 1;
        }
        assert forall|j: int| !waits(frontier, count as int, j) by {}
        self.frontier = next_frontier;
        self.splits = Vec::new();
        assert(self@ =~= growth::leveled(rules, s));
    }

    /// A tree with a node that is divided is above the depth limit.
    proof fn depth_is_level(self, rules: growth::Rules, n: int, level: int)
        requires
            self.wf(n, level),
            growth::any_split(rules, self@),
        ensures
            level < rules.max_depth,
    {
        let i = choose|i: int|
            0 <= i < self@.frontier.len() && #[trigger] growth::split_of(
                rules,
                self@.permutation,
                self@.frontier[i],
            ) is Some;
        assert(self@.frontier[i].depth == level);
    }

    /// Add the leaves of the tree to others.
    fn append_leaves(&self, others: &mut Vec<Vec<i32>>)
        ensures
            final(others)@.map_values(|leaf: Vec<i32>| leaf@) == old(others)@.map_values(
                |leaf: Vec<i32>| leaf@,
            ) + self@.leaves,
    {
        let ghost had = others@.map_values(|leaf: Vec<i32>| leaf@);
        let mut i: usize = 0;
        assert(had + self@.leaves.take(0) =~= had);
        while i < self.leaves.len()
            invariant
                i <= self.leaves@.len(),
                others@.map_values(|leaf: Vec<i32>| leaf@) == had + self@.leaves.take(i as int),
            decreases self.leaves@.len() - i,
        {
            let ghost now = others@.map_values(|leaf: Vec<i32>| leaf@);
            others.push(slice_to_vec(self.leaves[i].as_slice()));
            i = i + 1;
            assert(others@.map_values(|leaf: Vec<i32>| leaf@) =~= now.push(
                self@.leaves[i - 1],
            ));
            assert(others@.map_values(|leaf: Vec<i32>| leaf@) =~= had + self@.leaves.take(
                i as int,
            ));
        }
        assert(self@.leaves.take(i as int) =~= self@.leaves);
    }

    /// Make every node of the frontier a leaf.
    fn finish_terminal_level(&mut self)
        requires
            exists|n: int, level: int| old(self).wf(n, level),
        ensures
            final(self)@ == (growth::Growing {
                permutation: old(self)@.permutation,
                frontier: Seq::empty(),
                leaves: growth::ended(old(self)@),
            }),
    {
        let ghost (n, level) = choose|n: int, level: int| self.wf(n, level);
        let ghost s = self@;
        let mut i: usize = 0;
        while i < self.frontier.len()
            invariant
                i <= self.frontier@.len(),
                self.frontier == old(self).frontier,
                self.permutation == old(self).permutation,
                s == old(self)@,
                old(self).wf(n, level),
                self.leaves@.map_values(|leaf: Vec<i32>| leaf@) =~= s.leaves
                    + s.frontier.take(i as int).map_values(
                    |node: FrontierNode| growth::points_of(s.permutation, node),
                ),
            decreases self.frontier@.len() - i,
        {
            let node: FrontierNode = self.frontier[i];
            let ghost leaves = self.leaves@.map_values(|leaf: Vec<i32>| leaf@);
            assert(node.start <= node.end <= n);
            self.leaves.push(
                slice_to_vec(slice_subrange(self.permutation.as_slice(), node.start, node.end)),
            );
            proof {
                let points = |node: FrontierNode| growth::points_of(s.permutation, node);
                assert(self.leaves@.map_values(|leaf: Vec<i32>| leaf@) =~= leaves.push(
                    growth::points_of(s.permutation, node),
                ));
                assert(s.leaves + s.frontier.take(i + 1).map_values(points) =~= (s.leaves
                    + s.frontier.take(i as int).map_values(points)).push(
                    growth::points_of(s.permutation, node),
                ));
            }
            i = i + 1;
        }
        assert(s.frontier.take(i as int) =~= s.frontier);
        self.frontier = Vec::new();
        self.splits = Vec::new();
        assert(self@ =~= growth::Growing {
            permutation: s.permutation,
            frontier: Seq::empty(),
            leaves: growth::ended(s),
        });
    }
}

/// The margins of points at hyperplanes: their dot products, with the offsets added.
pub open spec fn margins_of<
    P: Fn(Single, Single, Single) -> Single,
    O: Fn(Single, Single) -> Single,
>(data: Seq<Single>, dim: int, add_product: P, add_offset: O) -> spec_fn(
    int,
    (Seq<Single>, Single),
) -> Single {
    |point: int, plane: (Seq<Single>, Single)|
        calls::image2(
            add_offset,
            quantized::paired(add_product, layout::row(data, dim, point), plane.0),
            plane.1,
        )
}

/// The rules by which the trees over `data` grow.
pub open spec fn rules_for<
    A: Fn(&[Single], &[Single]) -> Option<Split>,
    E: Fn(&[Single], &[Single]) -> Option<Split>,
    P: Fn(Single, Single, Single) -> Single,
    O: Fn(Single, Single) -> Single,
>(
    data: Seq<Single>,
    dim: int,
    leaf_size: usize,
    angular: bool,
    max_depth: usize,
    angular_split: A,
    euclidean_split: E,
    add_product: P,
    add_offset: O,
) -> growth::Rules {
    growth::Rules {
        split: |points: Seq<i32>, seed: u64|
            split::hyperplane_for(
                data,
                dim,
                points,
                seed,
                angular,
                angular_split,
                euclidean_split,
            ),
        margin: margins_of(data, dim, add_product, add_offset),
        leaf_size,
        max_depth,
    }
}

/// The dot product of a point and a hyperplane, or zero where there is none.
pub open spec fn product_with<P: Fn(Single, Single, Single) -> Single>(
    add_product: P,
    point: Seq<Single>,
    hyperplane: Option<&[Single]>,
) -> Single {
    match hyperplane {
        Some(hyperplane) => quantized::paired(add_product, point, hyperplane@),
        None => Single::spec_zero(),
    }
}

/// The dot products of a point and the first `width` hyperplanes, a dimension of all of them at a
/// time; zero where there is no hyperplane, and behind the first `width`.
///
/// `add_product(acc, x, y)` is to be `acc + x * y`.
pub fn batched_dot_products<P: Fn(Single, Single, Single) -> Single>(
    point: &[Single],
    hyperplanes: &[Option<&[Single]>],
    width: usize,
    add_product: &P,
) -> (sums: Vec<Single>)
    requires
        width <= hyperplanes@.len(),
        forall|slot: int|
            0 <= slot < width ==> ((#[trigger] hyperplanes@[slot]) matches Some(hyperplane)
                ==> hyperplane@.len() == point@.len()),
        calls::maps3(*add_product),
    ensures
        sums@.len() == hyperplanes@.len(),
        forall|slot: int|
            0 <= slot < width ==> #[trigger] sums@[slot] == product_with(
                *add_product,
                point@,
                hyperplanes@[slot],
            ),
        forall|slot: int|
            width <= slot < sums@.len() ==> #[trigger] sums@[slot] == Single::spec_zero(),
{
    let mut sums: Vec<Single> = vec![Single::zero();hyperplanes.len()];
    let mut dimension: usize = 0;
    while dimension < point.len()
        invariant
            dimension <= point@.len(),
            width <= hyperplanes@.len(),
            forall|slot: int|
                0 <= slot < width ==> ((#[trigger] hyperplanes@[slot]) matches Some(hyperplane)
                    ==> hyperplane@.len() == point@.len()),
            calls::maps3(*add_product),
            sums@.len() == hyperplanes@.len(),
            forall|slot: int|
                0 <= slot < width ==> #[trigger] sums@[slot] == partial_product(
                    *add_product,
                    point@,
                    hyperplanes@[slot],
                    dimension as int,
                ),
            forall|slot: int|
                width <= slot < sums@.len() ==> #[trigger] sums@[slot] == Single::spec_zero(),
        decreases point@.len() - dimension,
    {
        let value: Single = point[dimension];
        let mut slot: usize = 0;
        while slot < width
            invariant
                slot <= width,
                dimension < point@.len(),
                value == point@[dimension as int],
                width <= hyperplanes@.len(),
                forall|slot: int|
                    0 <= slot < width ==> ((#[trigger] hyperplanes@[slot]) matches Some(hyperplane)
                        ==> hyperplane@.len() == point@.len()),
                calls::maps3(*add_product),
                sums@.len() == hyperplanes@.len(),
                forall|j: int|
                    0 <= j < width ==> #[trigger] sums@[j] == partial_product(
                        *add_product,
                        point@,
                        hyperplanes@[j],
                        if j < slot {
                            dimension + 1
                        } else {
                            dimension as int
                        },
                    ),
                forall|j: int|
                    width <= j < sums@.len() ==> #[trigger] sums@[j] == Single::spec_zero(),
            decreases width - slot,
        {
            if let Some(hyperplane) = hyperplanes[slot] {
                proof {
                    assert(hyperplanes@[slot as int] == Some(hyperplane));
                    assert(point@.take(dimension + 1).drop_last() =~= point@.take(
                        dimension as int,
                    ));
                    assert(hyperplane@.take(dimension + 1).drop_last() =~= hyperplane@.take(
                        dimension as int,
                    ));
                }
                let sum: Single = add_product(sums[slot], value, hyperplane[dimension]);
                sums.set(slot, sum);
            }
            slot = slot + 1;
        }
        dimension = dimension + 1;
    }
    proof {
        assert forall|slot: int| 0 <= slot < width implies #[trigger] sums@[slot] == product_with(
            *add_product,
            point@,
            hyperplanes@[slot],
        ) by {
            if let Some(hyperplane) = hyperplanes@[slot] {
                assert(point@.take(dimension as int) =~= point@);
                assert(hyperplane@.take(dimension as int) =~= hyperplane@);
            }
        }
    }
    sums
}

/// The part of a dot product over the first dimensions.
spec fn partial_product<P: Fn(Single, Single, Single) -> Single>(
    add_product: P,
    point: Seq<Single>,
    hyperplane: Option<&[Single]>,
    dimensions: int,
) -> Single {
    match hyperplane {
        Some(hyperplane) => quantized::paired(
            add_product,
            point.take(dimensions),
            hyperplane@.take(dimensions),
        ),
        None => Single::spec_zero(),
    }
}

impl TreeState {
    /// The hyperplane that a point is routed by, if it is in a node that is divided.
    fn hyperplane_at(
        &self,
        n_points: usize,
        point_index: usize,
        Ghost(rules): Ghost<growth::Rules>,
        Ghost(dim): Ghost<int>,
        Ghost(level): Ghost<int>,
    ) -> (r: Option<&[Single]>)
        requires
            self.wf(n_points as int, level),
            self.prepared(rules, dim),
            point_index < n_points,
        ensures
            routes_by(*self, point_index as int, r, dim),
    {
        proof {
            growth::each_once_is_onto(self.permutation@, n_points as int, point_index as int);
            let j = choose|j: int|
                0 <= j < n_points && #[trigger] self.permutation@[j] == point_index;
            assert(self.assignments@[self.permutation@[j] as int] == NO_NODE
                || self.assignments@[point_index as int] < self.frontier@.len());
        }
        let node_index: usize = self.assignments[point_index];
        if node_index == NO_NODE {
            return None;
        }
        match &self.splits[node_index] {
            Some(split) => {
                assert(self.splits@[node_index as int] == Some(*split));
                Some(split.hyperplane.as_slice())
            },
            None => None,
        }
    }
}

/// The sides of a point in all trees of a batch.
fn point_sides<P: Fn(Single, Single, Single) -> Single, O: Fn(Single, Single) -> Single>(
    data: &[Single],
    n_points: usize,
    dim: usize,
    point_index: usize,
    trees: &Vec<TreeState>,
    add_product: &P,
    add_offset: &O,
    Ghost(rules): Ghost<growth::Rules>,
    Ghost(level): Ghost<int>,
) -> (sides: Vec<u8>)
    requires
        data@.len() == n_points * dim,
        point_index < n_points,
        calls::maps3(*add_product),
        calls::maps2(*add_offset),
        rules.margin == margins_of(data@, dim as int, *add_product, *add_offset),
        forall|t: int|
            0 <= t < trees@.len() ==> (#[trigger] trees@[t]).wf(n_points as int, level)
                && trees@[t].prepared(rules, dim as int),
    ensures
        sides@.len() == trees@.len(),
        forall|t: int|
            0 <= t < trees@.len() ==> (#[trigger] trees@[t]).is_side(
                rules,
                point_index as int,
                sides@[t],
            ),
{
    let point = layout::row_of(data, n_points, dim, point_index);
    let mut hyperplanes: Vec<Option<&[Single]>> = Vec::with_capacity(trees.len());
    let mut tree_slot: usize = 0;
    while tree_slot < trees.len()
        invariant
            tree_slot <= trees@.len(),
            hyperplanes@.len() == tree_slot,
            point_index < n_points,
            forall|t: int|
                0 <= t < trees@.len() ==> (#[trigger] trees@[t]).wf(n_points as int, level)
                    && trees@[t].prepared(rules, dim as int),
            forall|t: int|
                0 <= t < tree_slot ==> routes_by(
                    trees@[t],
                    point_index as int,
                    #[trigger] hyperplanes@[t],
                    dim as int,
                ),
        decreases trees@.len() - tree_slot,
    {
        assert(trees@[tree_slot as int].wf(n_points as int, level));
        let hyperplane = trees[tree_slot].hyperplane_at(
            n_points,
            point_index,
            Ghost(rules),
            Ghost(dim as int),
            Ghost(level),
        );
        hyperplanes.push(hyperplane);
        tree_slot = tree_slot + 1;
    }
    let products: Vec<Single> = batched_dot_products(
        point,
        hyperplanes.as_slice(),
        trees.len(),
        add_product,
    );
    let mut sides: Vec<u8> = Vec::with_capacity(trees.len());
    let mut tree_slot: usize = 0;
    while tree_slot < trees.len()
        invariant
            tree_slot <= trees@.len(),
            sides@.len() == tree_slot,
            hyperplanes@.len() == trees@.len(),
            products@.len() == trees@.len(),
            point_index < n_points,
            point@ == layout::row(data@, dim as int, point_index as int),
            calls::maps2(*add_offset),
            rules.margin == margins_of(data@, dim as int, *add_product, *add_offset),
            forall|t: int|
                0 <= t < trees@.len() ==> (#[trigger] trees@[t]).wf(n_points as int, level)
                    && trees@[t].prepared(rules, dim as int),
            forall|t: int|
                0 <= t < trees@.len() ==> routes_by(
                    trees@[t],
                    point_index as int,
                    #[trigger] hyperplanes@[t],
                    dim as int,
                ),
            forall|t: int|
                0 <= t < trees@.len() ==> #[trigger] products@[t] == product_with(
                    *add_product,
                    point@,
                    hyperplanes@[t],
                ),
            forall|t: int|
                0 <= t < tree_slot ==> (#[trigger] trees@[t]).is_side(
                    rules,
                    point_index as int,
                    sides@[t],
                ),
        decreases trees@.len() - tree_slot,
    {
        let tree = &trees[tree_slot];
        proof {
            assert(trees@[tree_slot as int].wf(n_points as int, level));
            assert(routes_by(
                trees@[tree_slot as int],
                point_index as int,
                hyperplanes@[tree_slot as int],
                dim as int,
            ));
        }
        let node_index: usize = tree.assignments[point_index];
        let mut side: u8 = 0;
        if node_index != NO_NODE {
            assert(split::contents(tree.splits@[node_index as int]) == growth::split_of(
                rules,
                tree.permutation@,
                tree.frontier@[node_index as int],
            ));
            if let Some(split) = &tree.splits[node_index] {
                assert(tree.splits@[node_index as int] == Some(*split));
                let m: Single = add_offset(products[tree_slot], split.offset);
                side = side_by(m, tree.frontier[node_index].seed, point_index);
            }
        }
        sides.push(side);
        assert(trees@[tree_slot as int].is_side(
            rules,
            point_index as int,
            sides@[tree_slot as int],
        ));
        tree_slot = tree_slot + 1;
    }
    sides
}

/// `hyperplane` is what a point is routed by in a tree, if it is in a node that is divided.
spec fn routes_by(tree: TreeState, p: int, hyperplane: Option<&[Single]>, dim: int) -> bool {
    let a = tree.assignments@[p];
    &&& a != NO_NODE ==> a < tree.splits@.len()
    &&& match hyperplane {
        Some(hyperplane) => hyperplane@.len() == dim && a != NO_NODE && (
        tree.splits@[a as int] matches Some(split) && split.hyperplane@ == hyperplane@),
        None => a == NO_NODE || tree.splits@[a as int] is None,
    }
}

/// Grow a batch of trees, one per seed.
fn grow_batch<
    A: Fn(&[Single], &[Single]) -> Option<Split>,
    E: Fn(&[Single], &[Single]) -> Option<Split>,
    P: Fn(Single, Single, Single) -> Single + Sync,
    O: Fn(Single, Single) -> Single + Sync,
>(
    data: &[Single],
    n_points: usize,
    dim: usize,
    seeds: &[u64],
    leaf_size: usize,
    angular: bool,
    max_depth: usize,
    angular_split: &A,
    euclidean_split: &E,
    add_product: &P,
    add_offset: &O,
) -> (trees: Vec<TreeState>)
    requires
        data@.len() == n_points * dim,
        n_points <= i32::MAX,
        split::divides(*angular_split),
        split::divides(*euclidean_split),
        calls::maps3(*add_product),
        calls::maps2(*add_offset),
    ensures
        trees@.len() == seeds@.len(),
        forall|t: int|
            0 <= t < trees@.len() ==> (#[trigger] trees@[t])@.leaves == growth::tree(
                rules_for(
                    data@,
                    dim as int,
                    leaf_size,
                    angular,
                    max_depth,
                    *angular_split,
                    *euclidean_split,
                    *add_product,
                    *add_offset,
                ),
                n_points as nat,
                seeds@[t],
            ),
{
    let ghost rules = rules_for(
        data@,
        dim as int,
        leaf_size,
        angular,
        max_depth,
        *angular_split,
        *euclidean_split,
        *add_product,
        *add_offset,
    );
    let ghost n = n_points as nat;
    let mut trees: Vec<TreeState> = Vec::with_capacity(seeds.len());
    let mut i: usize = 0;
    while i < seeds.len()
        invariant
            i <= seeds@.len(),
            n_points <= i32::MAX,
            n == n_points,
            trees@.len() == i,
            forall|t: int|
                0 <= t < i ==> (#[trigger] trees@[t]).wf(n_points as int, 0) && trees@[t]@
                    == growth::planted(n, seeds@[t]),
        decreases seeds@.len() - i,
    {
        trees.push(TreeState::new(n_points, seeds[i]));
        i = i + 1;
    }
    let ghost mut level: int = 0;
    loop
        invariant_except_break
            forall|t: int|
                0 <= t < trees@.len() ==> (#[trigger] trees@[t]).wf(n_points as int, level)
                    && growth::grown(rules, trees@[t]@, level) == growth::tree(
                    rules,
                    n,
                    seeds@[t],
                ),
        invariant
            0 <= level <= max_depth,
            n == n_points,
            n_points <= i32::MAX,
            data@.len() == n_points * dim,
            split::divides(*angular_split),
            split::divides(*euclidean_split),
            calls::maps3(*add_product),
            calls::maps2(*add_offset),
            rules == rules_for(
                data@,
                dim as int,
                leaf_size,
                angular,
                max_depth,
                *angular_split,
                *euclidean_split,
                *add_product,
                *add_offset,
            ),
            trees@.len() == seeds@.len(),
        ensures
            forall|t: int|
                0 <= t < trees@.len() ==> (#[trigger] trees@[t])@.leaves == growth::tree(
                    rules,
                    n,
                    seeds@[t],
                ),
        decreases max_depth - level,
    {
        let ghost before = trees@;
        let mut any_splits: bool = false;
        let mut t: usize = 0;
        while t < trees.len()
            invariant
                t <= trees@.len(),
                trees@.len() == before.len(),
                data@.len() == n_points * dim,
                split::divides(*angular_split),
                split::divides(*euclidean_split),
                rules == rules_for(
                    data@,
                    dim as int,
                    leaf_size,
                    angular,
                    max_depth,
                    *angular_split,
                    *euclidean_split,
                    *add_product,
                    *add_offset,
                ),
                forall|u: int|
                    0 <= u < trees@.len() ==> (#[trigger] trees@[u]).wf(n_points as int, level)
                        && trees@[u]@ == before[u]@,
                forall|u: int|
                    0 <= u < t ==> (#[trigger] trees@[u]).prepared(rules, dim as int),
                any_splits == exists|u: int|
                    0 <= u < t && #[trigger] growth::any_split(rules, before[u]@),
            decreases trees@.len() - t,
        {
            assert(trees@[t as int].wf(n_points as int, level));
            let ghost now = trees@;
            let any: bool = trees[t].prepare_level(
                data,
                n_points,
                dim,
                leaf_size,
                angular,
                max_depth,
                angular_split,
                euclidean_split,
                Ghost(rules),
                Ghost(level),
            );
            assert(any == growth::any_split(rules, before[t as int]@));
            any_splits = any_splits || any;
            assert forall|u: int| 0 <= u < trees@.len() implies (#[trigger] trees@[u]).wf(
                n_points as int,
                level,
            ) && trees@[u]@ == before[u]@ by {
                assert(now[u].wf(n_points as int, level));
            }
            t = t + 1;
        }
        if !any_splits {
            let mut t: usize = 0;
            while t < trees.len()
                invariant
                    t <= trees@.len(),
                    trees@.len() == before.len(),
                    trees@.len() == seeds@.len(),
                    forall|u: int|
                        0 <= u < before.len() ==> !#[trigger] growth::any_split(rules, before[u]@),
                    forall|u: int|
                        0 <= u < before.len() ==> growth::grown(
                            rules,
                            (#[trigger] before[u])@,
                            level,
                        ) == growth::tree(rules, n, seeds@[u]),
                    forall|u: int|
                        t <= u < trees@.len() ==> (#[trigger] trees@[u]).wf(
                            n_points as int,
                            level,
                        ) && trees@[u]@ == before[u]@,
                    forall|u: int|
                        0 <= u < t ==> (#[trigger] trees@[u])@.leaves == growth::tree(
                            rules,
                            n,
                            seeds@[u],
                        ),
                decreases trees@.len() - t,
            {
                assert(trees@[t as int].wf(n_points as int, level));
                assert(!growth::any_split(rules, before[t as int]@));
                let ghost now = trees@;
                trees[t].finish_terminal_level();
                assert forall|u: int| 0 <= u < t + 1 implies (#[trigger] trees@[u])@.leaves
                    == growth::tree(rules, n, seeds@[u]) by {
                    if u < t {
                        assert(trees@[u] == now[u]);
                    }
                }
                t = t + 1;
            }
            break;
        }
        proof {
            // Only a node above the depth limit is divided.
            let u = choose|u: int|
                0 <= u < trees@.len() && #[trigger] growth::any_split(rules, before[u]@);
            before[u].depth_is_level(rules, n_points as int, level);
        }
        let width: usize = trees.len();
        let law: Ghost<growth::Rules> = Ghost(rules);
        let route = |p: usize| -> (row: Vec<u8>)
            requires
                p < n_points,
            ensures
                row@.len() == trees@.len(),
                forall|t: int|
                    0 <= t < trees@.len() ==> (#[trigger] trees@[t]).is_side(
                        law@,
                        p as int,
                        row@[t],
                    ),
            {
                point_sides(
                    data,
                    n_points,
                    dim,
                    p,
                    &trees,
                    add_product,
                    add_offset,
                    law,
                    Ghost(level),
                )
            };
        let sides: Vec<Vec<u8>> = par_map(n_points, route);
        proof {
            assert forall|p: int| 0 <= p < n_points implies (#[trigger] sides@[p])@.len()
                == trees@.len() by {
                assert(call_ensures(route, (p as usize,), sides@[p as usize as int]));
            }
            assert forall|t: int| 0 <= t < trees@.len() implies (#[trigger] trees@[t]).sided(
                rules,
                sides@,
                t,
            ) by {
                assert forall|p: int| 0 <= p < sides@.len() implies trees@[t].is_side(
                    rules,
                    p,
                    (#[trigger] sides@[p])@[t],
                ) by {
                    assert(call_ensures(route, (p as usize,), sides@[p as usize as int]));
                }
            }
        }
        let ghost prepared = trees@;
        let finish = |tree_slot: usize, tree: TreeState| -> (r: TreeState)
            requires
                tree_slot < width,
                tree.wf(n_points as int, level),
                tree.prepared(law@, dim as int),
                tree.sided(law@, sides@, tree_slot as int),
            ensures
                r.wf(n_points as int, level + 1),
                r@ == growth::leveled(law@, tree@),
            {
                let mut tree = tree;
                tree.finish_level(
                    tree_slot,
                    &sides,
                    law,
                    Ghost(dim as int),
                    Ghost(level),
                );
                tree
            };
        trees = par_update(trees, finish);
        proof {
            assert forall|t: int| 0 <= t < trees@.len() implies (#[trigger] trees@[t]).wf(
                n_points as int,
                level + 1,
            ) && growth::grown(rules, trees@[t]@, level + 1) == growth::tree(
                rules,
                n,
                seeds@[t],
            ) by {
                assert(call_ensures(
                    finish,
                    (t as usize, prepared[t as usize as int]),
                    trees@[t as usize as int],
                ));
                assert(prepared[t].wf(n_points as int, level));
                if !growth::any_split(rules, before[t]@) {
                    growth::undivided_level_ends(rules, before[t]@, level);
                }
            }
            level = level + 1;
        }
    }
    trees
}

/// The margin of a point is the sum of the products of all dimensions, with the offset added; and
/// trees grow to the leaf size and the depth that are given.
pub proof fn margins_take_every_dimension<
    A: Fn(&[Single], &[Single]) -> Option<Split>,
    E: Fn(&[Single], &[Single]) -> Option<Split>,
    P: Fn(Single, Single, Single) -> Single,
    O: Fn(Single, Single) -> Single,
>(
    data: Seq<Single>,
    dim: int,
    leaf_size: usize,
    angular: bool,
    max_depth: usize,
    angular_split: A,
    euclidean_split: E,
    add_product: P,
    add_offset: O,
    n: int,
    point: int,
    plane: (Seq<Single>, Single),
)
    requires
        0 <= dim,
        data.len() == n * dim,
        0 <= point < n,
        plane.0.len() == dim,
    ensures
        ({
            let rules = rules_for(
                data,
                dim,
                leaf_size,
                angular,
                max_depth,
                angular_split,
                euclidean_split,
                add_product,
                add_offset,
            );
            &&& rules.leaf_size == leaf_size
            &&& rules.max_depth == max_depth
            &&& (rules.margin)(point, plane) == calls::image2(
                add_offset,
                data.subrange(point * dim, point * dim + dim).zip_with(plane.0).fold_left(
                    Single::spec_zero(),
                    |acc: Single, pair: (Single, Single)|
                        calls::image3(add_product, acc, pair.0, pair.1),
                ),
                plane.1,
            )
        }),
{
    layout::row_fits(point, n, dim);
    quantized::pairs_take_every_dimension(add_product, layout::row(data, dim, point), plane.0);
}

/// The hyperplane of a node lies between two different points of it.
pub proof fn hyperplanes_lie_between_points<
    A: Fn(&[Single], &[Single]) -> Option<Split>,
    E: Fn(&[Single], &[Single]) -> Option<Split>,
    P: Fn(Single, Single, Single) -> Single,
    O: Fn(Single, Single) -> Single,
>(
    data: Seq<Single>,
    dim: int,
    leaf_size: usize,
    angular: bool,
    max_depth: usize,
    angular_split: A,
    euclidean_split: E,
    add_product: P,
    add_offset: O,
    points: Seq<i32>,
    seed: u64,
) -> (picked: (int, int))
    requires
        1 < points.len() <= usize::MAX,
    ensures
        0 <= picked.0 < points.len(),
        0 <= picked.1 < points.len(),
        picked.0 != picked.1,
        (rules_for(
            data,
            dim,
            leaf_size,
            angular,
            max_depth,
            angular_split,
            euclidean_split,
            add_product,
            add_offset,
        ).split)(points, seed) == laid_between(
            data,
            dim,
            points[picked.0],
            points[picked.1],
            angular,
            angular_split,
            euclidean_split,
        ),
{
    split::picks_differ(seed, points.len() as int);
    split::picked(seed, points.len() as int)
}

/// The hyperplane that the split functions lay between two points, if any.
pub open spec fn laid_between<
    A: Fn(&[Single], &[Single]) -> Option<Split>,
    E: Fn(&[Single], &[Single]) -> Option<Split>,
>(
    data: Seq<Single>,
    dim: int,
    i: i32,
    j: i32,
    angular: bool,
    angular_split: A,
    euclidean_split: E,
) -> Option<(Seq<Single>, Single)> {
    let p = data.subrange(i * dim, i * dim + dim);
    let q = data.subrange(j * dim, j * dim + dim);
    if angular {
        split::between(angular_split, p, q)
    } else {
        split::between(euclidean_split, p, q)
    }
}

/// The seeds that a generator draws for `n` trees.
pub open spec fn seeds_from(rng: FastRng, n: nat) -> Seq<u64> {
    Seq::new(n, |i: int| rng::mixed(rng.after(i as nat).state))
}

/// Every tree has a draw of its own for its seed: the first tree the first, and the others those
/// that follow.
pub proof fn seeds_are_drawn_in_turn(rng: FastRng, n: nat)
    ensures
        seeds_from(rng, 0) == Seq::<u64>::empty(),
        seeds_from(rng, n + 1) == seq![rng::mixed(rng.state)] + seeds_from(rng.stepped(), n),
{
    assert forall|i: int| 0 <= i < n implies #[trigger] rng.stepped().after(i as nat) == rng.after(
        (i + 1) as nat,
    ) by {
        assert(rng.after((i + 1) as nat) == rng.stepped().after(i as nat));
    }
    assert(seeds_from(rng, n + 1) =~= seq![rng::mixed(rng.state)] + seeds_from(rng.stepped(), n));
}

/// Build graph-initialization leaves by routing batches of trees breadth first.
///
/// Returns the leaves of all trees, one tree after the other; what they are does not depend on
/// `tree_batch_width`. `angular_split` and `euclidean_split` are to lay a hyperplane between two
/// points, `add_product(acc, x, y)` is to be `acc + x * y`, and `add_offset(dot, offset)` their sum.
pub fn build_breadth_first_leaf_forest<
    A: Fn(&[Single], &[Single]) -> Option<Split>,
    E: Fn(&[Single], &[Single]) -> Option<Split>,
    P: Fn(Single, Single, Single) -> Single + Sync,
    O: Fn(Single, Single) -> Single + Sync,
>(
    data: &[Single],
    n_points: usize,
    dim: usize,
    n_trees: usize,
    leaf_size: usize,
    rng: &mut FastRng,
    angular: bool,
    max_depth: usize,
    tree_batch_width: usize,
    angular_split: &A,
    euclidean_split: &E,
    add_product: &P,
    add_offset: &O,
) -> (leaves: Vec<Vec<i32>>)
    requires
        data@.len() == n_points * dim,
        n_points <= i32::MAX,
        1 <= tree_batch_width <= MAX_TREE_BATCH_WIDTH,
        split::divides(*angular_split),
        split::divides(*euclidean_split),
        calls::maps3(*add_product),
        calls::maps2(*add_offset),
    ensures
        leaves@.map_values(|leaf: Vec<i32>| leaf@) == growth::forest(
            rules_for(
                data@,
                dim as int,
                leaf_size,
                angular,
                max_depth,
                *angular_split,
                *euclidean_split,
                *add_product,
                *add_offset,
            ),
            n_points as nat,
            seeds_from(*old(rng), n_trees as nat),
        ),
        *final(rng) == old(rng).after(n_trees as nat),
{
    let ghost rules = rules_for(
        data@,
        dim as int,
        leaf_size,
        angular,
        max_depth,
        *angular_split,
        *euclidean_split,
        *add_product,
        *add_offset,
    );
    let ghost start = *rng;
    let ghost n = n_points as nat;
    let mut seeds: Vec<u64> = Vec::with_capacity(n_trees);
    let mut i: usize = 0;
    while i < n_trees
        invariant
            i <= n_trees,
            *rng == start.after(i as nat),
            seeds@ == seeds_from(start, i as nat),
        decreases n_trees - i,
    {
        proof {
            start.after_steps(i as nat);
        }
        seeds.push(rng.next_u64());
        i = i + 1;
        assert(seeds@ =~= seeds_from(start, i as nat));
    }
    let mut forest_leaves: Vec<Vec<i32>> = Vec::new();
    let mut done: usize = 0;
    proof {
        assert(seeds@.take(0) =~= Seq::empty());
        assert(forest_leaves@.map_values(|leaf: Vec<i32>| leaf@) =~= Seq::empty());
    }
    while done < n_trees
        invariant
            done <= n_trees,
            seeds@.len() == n_trees,
            n == n_points,
            data@.len() == n_points * dim,
            n_points <= i32::MAX,
            1 <= tree_batch_width <= MAX_TREE_BATCH_WIDTH,
            split::divides(*angular_split),
            split::divides(*euclidean_split),
            calls::maps3(*add_product),
            calls::maps2(*add_offset),
            rules == rules_for(
                data@,
                dim as int,
                leaf_size,
                angular,
                max_depth,
                *angular_split,
                *euclidean_split,
                *add_product,
                *add_offset,
            ),
            forest_leaves@.map_values(|leaf: Vec<i32>| leaf@) == growth::forest(
                rules,
                n,
                seeds@.take(done as int),
            ),
        decreases n_trees - done,
    {
        let batch_end: usize = if n_trees - done < tree_batch_width {
            n_trees
        } else {
            done + tree_batch_width
        };
        let batch = slice_subrange(seeds.as_slice(), done, batch_end);
        let trees = grow_batch(
            data,
            n_points,
            dim,
            batch,
            leaf_size,
            angular,
            max_depth,
            angular_split,
            euclidean_split,
            add_product,
            add_offset,
        );
        let mut t: usize = 0;
        while t < trees.len()
            invariant
                t <= trees@.len(),
                trees@.len() == batch@.len(),
                batch@ == seeds@.subrange(done as int, batch_end as int),
                done <= batch_end <= seeds@.len(),
                forall|t: int|
                    0 <= t < trees@.len() ==> (#[trigger] trees@[t])@.leaves == growth::tree(
                        rules,
                        n,
                        batch@[t],
                    ),
                forest_leaves@.map_values(|leaf: Vec<i32>| leaf@) == growth::forest(
                    rules,
                    n,
                    seeds@.take(done + t),
                ),
            decreases trees@.len() - t,
        {
            let ghost had = forest_leaves@.map_values(|leaf: Vec<i32>| leaf@);
            let ghost mut more: Seq<Seq<i32>> = trees@[t as int]@.leaves;
            trees[t].append_leaves(&mut forest_leaves);
            proof {
                assert(seeds@.take(done + t + 1).drop_last() =~= seeds@.take(done + t));
                assert(seeds@.take(done + t + 1).last() == batch@[t as int]);
                assert(forest_leaves@.map_values(|leaf: Vec<i32>| leaf@) == had + more);
            }
            t = t + 1;
        }
        assert(done + t == batch_end);
        done = batch_end;
    }
    assert(seeds@.take(n_trees as int) =~= seeds@);
    forest_leaves
}

} // verus!
