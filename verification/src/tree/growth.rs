//! How a random projection tree grows, level by level.

use crate::heap::order;
use crate::layout;
use crate::rng;
use crate::single::Single;
use vstd::multiset::Multiset;
use vstd::prelude::*;

verus! {

/// Mixed into the seed of the left child.
pub const LEFT_SALT: u64 = 0x94d0_49bb_1331_11eb;

/// Mixed into the seed of the right child.
pub const RIGHT_SALT: u64 = 0xd1b5_4a32_d192_ed03;

/// A node that may still be divided: a range of the permutation, its depth, and its seed.
#[derive(Clone, Copy, PartialEq, Eq, Structural, Debug)]
pub struct FrontierNode {
    /// Where the range starts.
    pub start: usize,
    /// Where the range ends.
    pub end: usize,
    /// The number of divisions above the node.
    pub depth: usize,
    /// The seed of the node's choices.
    pub seed: u64,
}

/// What decides how a tree grows.
pub struct Rules {
    /// The hyperplane that divides some points under a seed, if any.
    pub split: spec_fn(Seq<i32>, u64) -> Option<(Seq<Single>, Single)>,
    /// The margin of a point at a hyperplane.
    pub margin: spec_fn(int, (Seq<Single>, Single)) -> Single,
    /// A node with no more points is not divided.
    pub leaf_size: usize,
    /// A node at this depth is not divided.
    pub max_depth: usize,
}

/// A tree that is growing: all points, arranged so that every node's are a range; the nodes that
/// may still be divided, from left to right; and the leaves so far.
#[verifier::ext_equal]
pub struct Growing {
    /// The points.
    pub permutation: Seq<i32>,
    /// The nodes that may still be divided.
    pub frontier: Seq<FrontierNode>,
    /// The leaves.
    pub leaves: Seq<Seq<i32>>,
}

/// The seed of a child node.
pub open spec fn seed_below(seed: u64, right: bool) -> u64 {
    if right {
        rng::mixed(seed ^ RIGHT_SALT)
    } else {
        rng::mixed(seed ^ LEFT_SALT)
    }
}

/// A point on the hyperplane goes to the right.
pub open spec fn tie_goes_right(seed: u64, point: int) -> bool {
    rng::mixed(seed ^ (point as u64)) % 2 == 1
}

/// The two children of a node have different seeds, and so have the children of different nodes on
/// the same side.
pub proof fn children_have_seeds_of_their_own(seed: u64, other: u64)
    ensures
        seed_below(seed, true) != seed_below(seed, false),
        seed != other ==> seed_below(seed, true) != seed_below(other, true),
        seed != other ==> seed_below(seed, false) != seed_below(other, false),
{
    assert(seed ^ 0xd1b5_4a32_d192_ed03u64 != seed ^ 0x94d0_49bb_1331_11ebu64) by (bit_vector);
    assert(seed ^ RIGHT_SALT == other ^ RIGHT_SALT ==> seed == other) by (bit_vector);
    assert(seed ^ LEFT_SALT == other ^ LEFT_SALT ==> seed == other) by (bit_vector);
    if seed_below(seed, true) == seed_below(seed, false) {
        rng::mixing_tells_apart(seed ^ RIGHT_SALT, seed ^ LEFT_SALT);
    }
    if seed_below(seed, true) == seed_below(other, true) {
        rng::mixing_tells_apart(seed ^ RIGHT_SALT, other ^ RIGHT_SALT);
    }
    if seed_below(seed, false) == seed_below(other, false) {
        rng::mixing_tells_apart(seed ^ LEFT_SALT, other ^ LEFT_SALT);
    }
}

/// A point on a node's hyperplane goes to the side that a coin shows, which is tossed for that node
/// and that point alone.
pub proof fn ties_are_tossed_for(seed: u64, point: u64)
    ensures
        tie_goes_right(seed, point as int) == (rng::FastRng { state: seed ^ point }).tossed(),
{
}

/// A point goes to the right of a node's hyperplane.
pub open spec fn is_right(
    rules: Rules,
    node: FrontierNode,
    plane: (Seq<Single>, Single),
    point: int,
) -> bool {
    let margin = (rules.margin)(point, plane);
    if margin.ties() {
        tie_goes_right(node.seed, point)
    } else {
        margin.at_least(Single::spec_zero())
    }
}

/// The points of a node.
pub open spec fn points_of(permutation: Seq<i32>, node: FrontierNode) -> Seq<i32> {
    permutation.subrange(node.start as int, node.end as int)
}

/// The hyperplane that divides a node, if any.
pub open spec fn split_of(rules: Rules, permutation: Seq<i32>, node: FrontierNode) -> Option<
    (Seq<Single>, Single),
> {
    if node.end - node.start <= rules.leaf_size || node.depth >= rules.max_depth {
        None
    } else {
        (rules.split)(points_of(permutation, node), node.seed)
    }
}

/// Some node is divided.
pub open spec fn any_split(rules: Rules, s: Growing) -> bool {
    exists|i: int|
        0 <= i < s.frontier.len() && #[trigger] split_of(
            rules,
            s.permutation,
            s.frontier[i],
        ) is Some
}

/// The range from `left` to `right` with the points that go right behind the others, and where
/// they start.
pub open spec fn partitioned(
    permutation: Seq<i32>,
    goes_right: spec_fn(int) -> bool,
    left: int,
    right: int,
) -> (Seq<i32>, int)
    decreases right - left,
{
    if left >= right {
        (permutation, left)
    } else if goes_right(permutation[left] as int) {
        partitioned(order::swapped(permutation, left, right - 1), goes_right, left, right - 1)
    } else {
        partitioned(permutation, goes_right, left + 1, right)
    }
}

/// The sides of the points of a node.
pub open spec fn sides_at(
    rules: Rules,
    node: FrontierNode,
    plane: (Seq<Single>, Single),
) -> spec_fn(int) -> bool {
    |point: int| is_right(rules, node, plane, point)
}

/// A tree on its way through a level, after one more node: the node is divided, or becomes a leaf
/// where it is not to be divided or all its points are on one side.
pub open spec fn with_node(
    rules: Rules,
    t: Growing,
    node: FrontierNode,
    split: Option<(Seq<Single>, Single)>,
) -> Growing {
    match split {
        None => Growing { leaves: t.leaves.push(points_of(t.permutation, node)), ..t },
        Some(plane) => {
            let (permutation, left) = partitioned(
                t.permutation,
                sides_at(rules, node, plane),
                node.start as int,
                node.end as int,
            );
            if left == node.start || left == node.end {
                Growing {
                    permutation,
                    frontier: t.frontier,
                    leaves: t.leaves.push(points_of(permutation, node)),
                }
            } else {
                Growing {
                    permutation,
                    frontier: t.frontier.push(left_of(node, left)).push(right_of(node, left)),
                    leaves: t.leaves,
                }
            }
        },
    }
}

/// The left child of a node that is divided at `left`.
pub open spec fn left_of(node: FrontierNode, left: int) -> FrontierNode {
    FrontierNode {
        start: node.start,
        end: left as usize,
        depth: (node.depth + 1) as usize,
        seed: seed_below(node.seed, false),
    }
}

/// The right child of a node that is divided at `left`.
pub open spec fn right_of(node: FrontierNode, left: int) -> FrontierNode {
    FrontierNode {
        start: left as usize,
        end: node.end,
        depth: (node.depth + 1) as usize,
        seed: seed_below(node.seed, true),
    }
}

/// A tree on its way through a level, after the first `i` nodes.
pub open spec fn advanced(rules: Rules, s: Growing, i: nat) -> Growing
    decreases i,
{
    if i == 0 {
        Growing { permutation: s.permutation, frontier: Seq::empty(), leaves: s.leaves }
    } else {
        let node = s.frontier[i - 1];
        with_node(
            rules,
            advanced(rules, s, (i - 1) as nat),
            node,
            split_of(rules, s.permutation, node),
        )
    }
}

/// A tree after a level.
pub open spec fn leveled(rules: Rules, s: Growing) -> Growing {
    advanced(rules, s, s.frontier.len())
}

/// The leaves of a tree that ends here: what it has, and every node of the frontier.
pub open spec fn ended(s: Growing) -> Seq<Seq<i32>> {
    s.leaves + s.frontier.map_values(|node: FrontierNode| points_of(s.permutation, node))
}

/// The leaves that a tree grows to from the given level on.
pub open spec fn grown(rules: Rules, s: Growing, level: int) -> Seq<Seq<i32>>
    decreases rules.max_depth - level,
{
    if level < rules.max_depth && any_split(rules, s) {
        grown(rules, leveled(rules, s), level + 1)
    } else {
        ended(s)
    }
}

/// A tree before its first level.
pub open spec fn planted(n: nat, seed: u64) -> Growing {
    Growing {
        permutation: Seq::new(n, |i: int| i as i32),
        frontier: seq![FrontierNode { start: 0, end: n as usize, depth: 0, seed }],
        leaves: Seq::empty(),
    }
}

/// The leaves of the tree that grows from a seed.
pub open spec fn tree(rules: Rules, n: nat, seed: u64) -> Seq<Seq<i32>> {
    grown(rules, planted(n, seed), 0)
}

/// The leaves of the trees that grow from some seeds, one tree after the other.
pub open spec fn forest(rules: Rules, n: nat, seeds: Seq<u64>) -> Seq<Seq<i32>>
    decreases seeds.len(),
{
    if seeds.len() == 0 {
        Seq::empty()
    } else {
        forest(rules, n, seeds.drop_last()) + tree(rules, n, seeds.last())
    }
}

/// Each of the points below `n` occurs once.
pub open spec fn holds_each_once(permutation: Seq<i32>, n: int) -> bool {
    &&& permutation.len() == n
    &&& forall|i: int| 0 <= i < n ==> 0 <= #[trigger] permutation[i] < n
    &&& forall|i: int, j: int|
        0 <= i < j < n ==> #[trigger] permutation[i] != #[trigger] permutation[j]
}

/// Where each point occurs once, each occurs.
pub proof fn each_once_is_onto(permutation: Seq<i32>, n: int, point: int)
    requires
        holds_each_once(permutation, n),
        n <= i32::MAX,
        0 <= point < n,
    ensures
        exists|j: int| 0 <= j < n && #[trigger] permutation[j] == point,
{
    let wide = permutation.map_values(|p: i32| p as usize);
    assert forall|i: int, j: int| 0 <= i < j < n implies #[trigger] wide[i] != #[trigger] wide[j] by {
        assert(permutation[i] != permutation[j]);
        assert(0 <= permutation[i] && 0 <= permutation[j]);
    }
    assert forall|i: int| 0 <= i < n implies #[trigger] wide[i] < n by {
        assert(0 <= permutation[i] < n);
    }
    layout::permutation_is_onto(wide, n, point);
    let j = choose|j: int| 0 <= j < n && #[trigger] wide[j] == point;
    assert(0 <= permutation[j] < n);
    assert(permutation[j] == point);
}

/// The nodes are ranges, from left to right, all of one depth; none is empty where there are
/// points.
pub open spec fn in_rows(frontier: Seq<FrontierNode>, n: int, level: int) -> bool {
    &&& forall|i: int|
        0 <= i < frontier.len() ==> {
            &&& (#[trigger] frontier[i]).start <= frontier[i].end <= n
            &&& n > 0 ==> frontier[i].start < frontier[i].end
            &&& frontier[i].depth == level
        }
    &&& forall|i: int, j: int|
        0 <= i < j < frontier.len() ==> (#[trigger] frontier[i]).end <= (
        #[trigger] frontier[j]).start
}

/// What holds of a tree at the start of each level.
pub open spec fn sound(s: Growing, n: int, level: int) -> bool {
    &&& holds_each_once(s.permutation, n)
    &&& in_rows(s.frontier, n, level)
}

/// Where there are points, there are no more nodes than points.
pub proof fn rows_are_few(frontier: Seq<FrontierNode>, n: int, level: int)
    requires
        in_rows(frontier, n, level),
        n > 0,
    ensures
        frontier.len() <= n,
{
    if frontier.len() > 0 {
        rows_start_late(frontier, n, level, frontier.len() - 1);
    }
}

proof fn rows_start_late(frontier: Seq<FrontierNode>, n: int, level: int, i: int)
    requires
        in_rows(frontier, n, level),
        n > 0,
        0 <= i < frontier.len(),
    ensures
        frontier[i].start >= i,
    decreases i,
{
    if i > 0 {
        rows_start_late(frontier, n, level, i - 1);
        assert(frontier[i - 1].end <= frontier[i].start);
        assert(frontier[i - 1].start < frontier[i - 1].end);
    }
}

/// What a partition does: it keeps the points outside of the range where they are and those inside
/// of it inside, and puts those that go right last.
pub proof fn partition_divides(
    permutation: Seq<i32>,
    goes_right: spec_fn(int) -> bool,
    left: int,
    right: int,
)
    requires
        0 <= left <= right <= permutation.len(),
    ensures
        ({
            let (p, middle) = partitioned(permutation, goes_right, left, right);
            &&& p.len() == permutation.len()
            &&& left <= middle <= right
            &&& forall|j: int|
                0 <= j < p.len() && !(left <= j < right) ==> #[trigger] p[j] == permutation[j]
            &&& forall|j: int| left <= j < middle ==> !goes_right(#[trigger] p[j] as int)
            &&& forall|j: int| middle <= j < right ==> goes_right(#[trigger] p[j] as int)
            &&& p.subrange(left, right).to_multiset() == permutation.subrange(
                left,
                right,
            ).to_multiset()
            &&& forall|n: int|
                #![trigger holds_each_once(p, n)]
                holds_each_once(permutation, n) ==> holds_each_once(p, n)
        }),
    decreases right - left,
{
    broadcast use vstd::multiset::group_multiset_axioms;

    if left < right {
        if goes_right(permutation[left] as int) {
            let swapped = order::swapped(permutation, left, right - 1);
            partition_divides(swapped, goes_right, left, right - 1);
            let (p, middle) = partitioned(permutation, goes_right, left, right);
            assert(p[right - 1] == swapped[right - 1]);
            let before = permutation.subrange(left, right);
            let between = swapped.subrange(left, right);
            let after = p.subrange(left, right);
            order::swap_multiset(before, 0, right - 1 - left);
            assert(between =~= order::swapped(before, 0, right - 1 - left));
            assert(between =~= swapped.subrange(left, right - 1).push(swapped[right - 1]));
            assert(after =~= p.subrange(left, right - 1).push(swapped[right - 1]));
            swapped.subrange(left, right - 1).to_multiset_ensures();
            p.subrange(left, right - 1).to_multiset_ensures();
            assert forall|n: int|
                #![trigger holds_each_once(p, n)]
                holds_each_once(permutation, n) implies holds_each_once(p, n) by {
                assert(holds_each_once(swapped, n));
            }
        } else {
            partition_divides(permutation, goes_right, left + 1, right);
            let (p, middle) = partitioned(permutation, goes_right, left, right);
            let here = seq![permutation[left]];
            let before = permutation.subrange(left + 1, right);
            let after = p.subrange(left + 1, right);
            assert(permutation.subrange(left, right) =~= here + before);
            assert(p.subrange(left, right) =~= here + after);
            vstd::seq_lib::lemma_multiset_commutative(here, before);
            vstd::seq_lib::lemma_multiset_commutative(here, after);
        }
    }
}

/// The nodes of `s` from the `i`-th on are still as they were, and what is before them is done.
pub open spec fn midway(rules: Rules, s: Growing, n: int, level: int, i: int) -> bool {
    let t = advanced(rules, s, i as nat);
    &&& holds_each_once(t.permutation, n)
    &&& in_rows(t.frontier, n, level + 1)
    &&& forall|a: int, b: int|
        0 <= a < t.frontier.len() && i <= b < s.frontier.len() ==> (#[trigger] t.frontier[a]).end
            <= (#[trigger] s.frontier[b]).start
    &&& forall|b: int, j: int|
        i <= b < s.frontier.len() && s.frontier[b].start <= j < s.frontier[b].end ==> (
        #[trigger] t.permutation[j]) == s.permutation[j] && (#[trigger] s.frontier[b]).start <= j
}

/// A level takes a sound tree to a sound tree, node by node.
pub proof fn level_is_sound(rules: Rules, s: Growing, n: int, level: int, i: int)
    requires
        sound(s, n, level),
        n <= i32::MAX,
        0 <= i <= s.frontier.len(),
        level < rules.max_depth,
    ensures
        midway(rules, s, n, level, i),
    decreases i,
{
    if i > 0 {
        level_is_sound(rules, s, n, level, i - 1);
        let t = advanced(rules, s, (i - 1) as nat);
        let node = s.frontier[i - 1];
        let u = advanced(rules, s, i as nat);
        match split_of(rules, s.permutation, node) {
            None => {},
            Some(plane) => {
                partition_divides(
                    t.permutation,
                    sides_at(rules, node, plane),
                    node.start as int,
                    node.end as int,
                );
                assert(holds_each_once(u.permutation, n));
            },
        }
        assert forall|b: int, j: int|
            i <= b < s.frontier.len() && s.frontier[b].start <= j < s.frontier[b].end implies (
        #[trigger] u.permutation[j]) == s.permutation[j] && (#[trigger] s.frontier[b]).start
            <= j by {
            assert(s.frontier[i - 1].end <= s.frontier[b].start);
            assert(t.permutation[j] == s.permutation[j]);
        }
        assert forall|a: int, b: int|
            0 <= a < u.frontier.len() && i <= b < s.frontier.len() implies (
        #[trigger] u.frontier[a]).end <= (#[trigger] s.frontier[b]).start by {
            assert(s.frontier[i - 1].end <= s.frontier[b].start);
            if a < t.frontier.len() {
                assert(u.frontier[a] == t.frontier[a]);
            }
        }
        assert(in_rows(u.frontier, n, level + 1)) by {
            assert forall|a: int| 0 <= a < u.frontier.len() implies {
                &&& (#[trigger] u.frontier[a]).start <= u.frontier[a].end <= n
                &&& n > 0 ==> u.frontier[a].start < u.frontier[a].end
                &&& u.frontier[a].depth == level + 1
            } by {
                if a < t.frontier.len() {
                    assert(u.frontier[a] == t.frontier[a]);
                }
            }
            assert forall|a: int, b: int| 0 <= a < b < u.frontier.len() implies (
            #[trigger] u.frontier[a]).end <= (#[trigger] u.frontier[b]).start by {
                if b < t.frontier.len() {
                    assert(u.frontier[a] == t.frontier[a]);
                    assert(u.frontier[b] == t.frontier[b]);
                } else if a < t.frontier.len() {
                    assert(u.frontier[a] == t.frontier[a]);
                    assert(t.frontier[a].end <= s.frontier[i - 1].start);
                }
            }
        }
    }
}

proof fn undivided_nodes_become_leaves(rules: Rules, s: Growing, i: int)
    requires
        !any_split(rules, s),
        0 <= i <= s.frontier.len(),
    ensures
        advanced(rules, s, i as nat) == (Growing {
            permutation: s.permutation,
            frontier: Seq::empty(),
            leaves: s.leaves + s.frontier.take(i).map_values(
                |node: FrontierNode| points_of(s.permutation, node),
            ),
        }),
    decreases i,
{
    let ranges = |node: FrontierNode| points_of(s.permutation, node);
    if i > 0 {
        undivided_nodes_become_leaves(rules, s, i - 1);
        assert(split_of(rules, s.permutation, s.frontier[i - 1]) is None);
        assert(s.leaves + s.frontier.take(i).map_values(ranges) =~= (s.leaves + s.frontier.take(
            i - 1,
        ).map_values(ranges)).push(points_of(s.permutation, s.frontier[i - 1])));
    } else {
        assert(s.leaves + s.frontier.take(0).map_values(ranges) =~= s.leaves);
    }
}

/// Where no node is divided, a level does what ending does.
pub proof fn undivided_level_ends(rules: Rules, s: Growing, level: int)
    requires
        !any_split(rules, s),
    ensures
        grown(rules, leveled(rules, s), level + 1) == grown(rules, s, level),
{
    undivided_nodes_become_leaves(rules, s, s.frontier.len() as int);
    let t = leveled(rules, s);
    assert(s.frontier.take(s.frontier.len() as int) =~= s.frontier);
    assert(ended(t) =~= ended(s));
    assert(!any_split(rules, t));
}

/// All points of some leaves.
pub open spec fn tally(leaves: Seq<Seq<i32>>) -> Multiset<i32>
    decreases leaves.len(),
{
    if leaves.len() == 0 {
        Multiset::empty()
    } else {
        tally(leaves.drop_last()).add(leaves.last().to_multiset())
    }
}

proof fn tally_adds(a: Seq<Seq<i32>>, b: Seq<Seq<i32>>)
    ensures
        tally(a + b) == tally(a).add(tally(b)),
    decreases b.len(),
{
    broadcast use vstd::multiset::group_multiset_axioms;

    if b.len() == 0 {
        assert(a + b =~= a);
        assert(tally(a).add(tally(b)) =~= tally(a));
    } else {
        tally_adds(a, b.drop_last());
        assert((a + b).drop_last() =~= a + b.drop_last());
        assert(tally(a + b) =~= tally(a).add(tally(b)));
    }
}

/// The points of some nodes.
pub open spec fn ranges(permutation: Seq<i32>, frontier: Seq<FrontierNode>) -> Seq<Seq<i32>> {
    frontier.map_values(|node: FrontierNode| points_of(permutation, node))
}

proof fn tally_pushes(leaves: Seq<Seq<i32>>, leaf: Seq<i32>)
    ensures
        tally(leaves.push(leaf)) == tally(leaves).add(leaf.to_multiset()),
{
    assert(leaves.push(leaf).drop_last() =~= leaves);
}

/// A level loses no point and adds none: what the done nodes hold, with what the others hold, stays
/// the same.
proof fn level_keeps_points(rules: Rules, s: Growing, n: int, level: int, i: int)
    requires
        sound(s, n, level),
        n <= i32::MAX,
        0 <= i <= s.frontier.len(),
        level < rules.max_depth,
    ensures
        tally(ended(advanced(rules, s, i as nat))).add(
            tally(ranges(s.permutation, s.frontier.skip(i))),
        ) == tally(ended(s)),
    decreases i,
{
    broadcast use vstd::multiset::group_multiset_axioms;

    let u = advanced(rules, s, i as nat);
    if i == 0 {
        assert(s.frontier.skip(0) =~= s.frontier);
        tally_adds(s.leaves, ranges(s.permutation, s.frontier));
        assert(ended(s) =~= s.leaves + ranges(s.permutation, s.frontier));
        assert(ended(u) =~= s.leaves);
    } else {
        level_keeps_points(rules, s, n, level, i - 1);
        level_is_sound(rules, s, n, level, i - 1);
        let t = advanced(rules, s, (i - 1) as nat);
        let node = s.frontier[i - 1];
        let here = points_of(s.permutation, node);
        assert(points_of(t.permutation, node) =~= here) by {
            assert forall|j: int| node.start <= j < node.end implies t.permutation[j]
                == s.permutation[j] by {
                assert(s.frontier[i - 1].start <= j);
            }
        }
        // The node's points leave what is still to be done.
        let rest = ranges(s.permutation, s.frontier.skip(i));
        assert(ranges(s.permutation, s.frontier.skip(i - 1)) =~= seq![here] + rest);
        tally_adds(seq![here], rest);
        assert(tally(seq![here]) =~= here.to_multiset()) by {
            assert(seq![here].drop_last() =~= Seq::empty());
            reveal_with_fuel(tally, 2);
        }
        // They come to what is done.
        let done = ranges(t.permutation, t.frontier);
        tally_adds(t.leaves, done);
        assert(ended(t) =~= t.leaves + done);
        match split_of(rules, s.permutation, node) {
            None => {
                assert(ended(u) =~= t.leaves.push(here) + done);
                tally_adds(t.leaves.push(here), done);
                tally_pushes(t.leaves, here);
            },
            Some(plane) => {
                let sides = sides_at(rules, node, plane);
                let (p, left) = partitioned(
                    t.permutation,
                    sides,
                    node.start as int,
                    node.end as int,
                );
                partition_divides(t.permutation, sides, node.start as int, node.end as int);
                assert(ranges(p, t.frontier) =~= done) by {
                    assert forall|a: int| 0 <= a < t.frontier.len() implies ranges(
                        p,
                        t.frontier,
                    )[a] == done[a] by {
                        assert(t.frontier[a].end <= s.frontier[i - 1].start);
                        assert(points_of(p, t.frontier[a]) =~= points_of(
                            t.permutation,
                            t.frontier[a],
                        ));
                    }
                }
                let now = points_of(p, node);
                assert(now.to_multiset() == here.to_multiset());
                if left == node.start || left == node.end {
                    assert(ended(u) =~= t.leaves.push(now) + done);
                    tally_adds(t.leaves.push(now), done);
                    tally_pushes(t.leaves, now);
                } else {
                    let a = points_of(p, left_of(node, left));
                    let b = points_of(p, right_of(node, left));
                    assert(now =~= a + b);
                    vstd::seq_lib::lemma_multiset_commutative(a, b);
                    assert(ended(u) =~= (t.leaves + done).push(a).push(b));
                    tally_pushes(t.leaves + done, a);
                    tally_pushes((t.leaves + done).push(a), b);
                }
            },
        }
        assert(tally(ended(u)).add(tally(rest)) =~= tally(ended(s)));
    }
}

proof fn growing_keeps_points(rules: Rules, s: Growing, n: int, level: int)
    requires
        sound(s, n, level),
        n <= i32::MAX,
    ensures
        tally(grown(rules, s, level)) == tally(ended(s)),
    decreases rules.max_depth - level,
{
    broadcast use vstd::multiset::group_multiset_axioms;

    if level < rules.max_depth && any_split(rules, s) {
        let count = s.frontier.len() as int;
        level_is_sound(rules, s, n, level, count);
        level_keeps_points(rules, s, n, level, count);
        let t = leveled(rules, s);
        assert(ranges(s.permutation, s.frontier.skip(count)) =~= Seq::empty());
        assert(tally(ended(t)) =~= tally(ended(s)));
        growing_keeps_points(rules, t, n, level + 1);
    }
}

proof fn each_once_counts_one(permutation: Seq<i32>, n: int, point: i32)
    requires
        holds_each_once(permutation, n),
        forall|i: int| 0 <= i < n ==> #[trigger] permutation[i] == i,
    ensures
        permutation.to_multiset().count(point) == if 0 <= point < n {
            1nat
        } else {
            0
        },
{
    permutation.to_multiset_ensures();
    permutation.lemma_multiset_has_no_duplicates();
    if 0 <= point < n {
        assert(permutation[point as int] == point);
        assert(permutation.contains(point));
        assert(permutation.to_multiset().count(point) > 0);
        assert(permutation.to_multiset().contains(point));
    } else {
        assert(!permutation.contains(point));
    }
}

/// Every tree contains each point exactly once.
pub proof fn tree_holds_each_point_once(rules: Rules, n: nat, seed: u64, point: i32)
    requires
        n <= i32::MAX,
    ensures
        tally(tree(rules, n, seed)).count(point) == if 0 <= point < n {
            1nat
        } else {
            0
        },
{
    broadcast use vstd::multiset::group_multiset_axioms;

    let s = planted(n, seed);
    assert(sound(s, n as int, 0));
    growing_keeps_points(rules, s, n as int, 0);
    assert(ended(s) =~= seq![s.permutation]) by {
        assert(points_of(s.permutation, s.frontier[0]) =~= s.permutation);
    }
    assert(tally(seq![s.permutation]) =~= s.permutation.to_multiset()) by {
        assert(seq![s.permutation].drop_last() =~= Seq::empty());
        reveal_with_fuel(tally, 2);
    }
    each_once_counts_one(s.permutation, n as int, point);
}

/// A forest contains each point once per tree.
pub proof fn forest_holds_each_point_once_per_tree(
    rules: Rules,
    n: nat,
    seeds: Seq<u64>,
    point: i32,
)
    requires
        n <= i32::MAX,
    ensures
        tally(forest(rules, n, seeds)).count(point) == if 0 <= point < n {
            seeds.len()
        } else {
            0
        },
    decreases seeds.len(),
{
    broadcast use vstd::multiset::group_multiset_axioms;

    if seeds.len() > 0 {
        forest_holds_each_point_once_per_tree(rules, n, seeds.drop_last(), point);
        tree_holds_each_point_once(rules, n, seeds.last(), point);
        tally_adds(forest(rules, n, seeds.drop_last()), tree(rules, n, seeds.last()));
    }
}

/// Some points are not divided: they are few, or at the depth limit, or there is no hyperplane
/// between them, or all of them are on one side of it.
pub open spec fn stops(rules: Rules, points: Seq<i32>, seed: u64, depth: int) -> bool {
    ||| points.len() <= rules.leaf_size
    ||| depth >= rules.max_depth
    ||| match (rules.split)(points, seed) {
        None => true,
        Some(plane) => {
            let node = FrontierNode { start: 0, end: 0, depth: 0, seed };
            ||| forall|i: int|
                0 <= i < points.len() ==> is_right(rules, node, plane, #[trigger] points[i] as int)
            ||| forall|i: int|
                0 <= i < points.len() ==> !is_right(rules, node, plane, #[trigger] points[i] as int)
        },
    }
}

/// A leaf is what its points, in some arrangement, stop at.
pub open spec fn is_warranted(rules: Rules, leaf: Seq<i32>) -> bool {
    exists|points: Seq<i32>, seed: u64, depth: int| #[trigger]
        stops(rules, points, seed, depth) && points.to_multiset() == leaf.to_multiset()
}

/// Every leaf is warranted, and none is empty where there are points.
pub open spec fn warranted(rules: Rules, leaves: Seq<Seq<i32>>, n: int) -> bool {
    forall|i: int|
        0 <= i < leaves.len() ==> is_warranted(rules, #[trigger] leaves[i]) && (n > 0
            ==> leaves[i].len() > 0)
}

proof fn level_is_warranted(rules: Rules, s: Growing, n: int, level: int, i: int)
    requires
        sound(s, n, level),
        n <= i32::MAX,
        0 <= i <= s.frontier.len(),
        level < rules.max_depth,
        warranted(rules, s.leaves, n),
    ensures
        warranted(rules, advanced(rules, s, i as nat).leaves, n),
    decreases i,
{
    if i > 0 {
        level_is_warranted(rules, s, n, level, i - 1);
        level_is_sound(rules, s, n, level, i - 1);
        let t = advanced(rules, s, (i - 1) as nat);
        let u = advanced(rules, s, i as nat);
        let node = s.frontier[i - 1];
        let here = points_of(s.permutation, node);
        assert(points_of(t.permutation, node) =~= here) by {
            assert forall|j: int| node.start <= j < node.end implies t.permutation[j]
                == s.permutation[j] by {
                assert(s.frontier[i - 1].start <= j);
            }
        }
        match split_of(rules, s.permutation, node) {
            None => {
                assert(stops(rules, here, node.seed, level));
                assert(is_warranted(rules, here));
            },
            Some(plane) => {
                let sides = sides_at(rules, node, plane);
                let (p, left) = partitioned(
                    t.permutation,
                    sides,
                    node.start as int,
                    node.end as int,
                );
                partition_divides(t.permutation, sides, node.start as int, node.end as int);
                let now = points_of(p, node);
                if left == node.start || left == node.end {
                    let other = FrontierNode { start: 0, end: 0, depth: 0, seed: node.seed };
                    here.to_multiset_ensures();
                    now.to_multiset_ensures();
                    assert forall|j: int| 0 <= j < here.len() implies is_right(
                        rules,
                        other,
                        plane,
                        #[trigger] here[j] as int,
                    ) == (left == node.start) by {
                        assert(here.contains(here[j]));
                        assert(here.to_multiset().count(here[j]) > 0);
                        assert(now.contains(here[j]));
                        let l = choose|l: int| 0 <= l < now.len() && now[l] == here[j];
                        assert(p[node.start + l] == here[j]);
                        assert(sides(p[node.start + l] as int) == is_right(
                            rules,
                            other,
                            plane,
                            here[j] as int,
                        ));
                    }
                    assert(stops(rules, here, node.seed, level));
                    assert(is_warranted(rules, now));
                }
            },
        }
        assert forall|j: int| 0 <= j < u.leaves.len() implies is_warranted(
            rules,
            #[trigger] u.leaves[j],
        ) && (n > 0 ==> u.leaves[j].len() > 0) by {
            if j < t.leaves.len() {
                assert(u.leaves[j] == t.leaves[j]);
            }
        }
    }
}

proof fn growing_is_warranted(rules: Rules, s: Growing, n: int, level: int)
    requires
        sound(s, n, level),
        n <= i32::MAX,
        warranted(rules, s.leaves, n),
    ensures
        warranted(rules, grown(rules, s, level), n),
    decreases rules.max_depth - level,
{
    if level < rules.max_depth && any_split(rules, s) {
        let count = s.frontier.len() as int;
        level_is_sound(rules, s, n, level, count);
        level_is_warranted(rules, s, n, level, count);
        growing_is_warranted(rules, leveled(rules, s), n, level + 1);
    } else {
        let all = ended(s);
        assert forall|i: int| 0 <= i < all.len() implies is_warranted(rules, #[trigger] all[i]) && (
        n > 0 ==> all[i].len() > 0) by {
            if i < s.leaves.len() {
                assert(all[i] == s.leaves[i]);
            } else {
                let node = s.frontier[i - s.leaves.len()];
                assert(all[i] == points_of(s.permutation, node));
                assert(split_of(rules, s.permutation, node) is None);
                assert(stops(rules, all[i], node.seed, level));
            }
        }
    }
}

/// A leaf of a tree is no larger than the leaf size, unless it lies at the depth limit or its
/// points cannot be divided; and none is empty where there are points.
pub proof fn tree_leaves_are_warranted(rules: Rules, n: nat, seed: u64)
    requires
        n <= i32::MAX,
    ensures
        warranted(rules, tree(rules, n, seed), n as int),
{
    let s = planted(n, seed);
    assert(sound(s, n as int, 0));
    growing_is_warranted(rules, s, n as int, 0);
}

} // verus!
