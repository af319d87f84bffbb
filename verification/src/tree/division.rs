//! What a grown tree divides its points by.
//!
//! The leaves of a tree are the ends of a hierarchy of divisions. Each division lays a hyperplane
//! between two points of its node, and the points go to its two sides by their margins.

use crate::single::Single;
use crate::tree::growth;
use crate::tree::growth::{FrontierNode, Growing, Rules};
use vstd::multiset::Multiset;
use vstd::prelude::*;

verus! {

/// A hierarchy of divisions.
pub enum Division {
    /// A leaf, with its points.
    Leaf { points: Seq<i32> },
    /// A hyperplane, and what lies to its left and to its right.
    Fork { plane: (Seq<Single>, Single), left: Box<Division>, right: Box<Division> },
}

/// The points of a hierarchy.
pub open spec fn members(d: Division) -> Multiset<i32>
    decreases d,
{
    match d {
        Division::Leaf { points } => points.to_multiset(),
        Division::Fork { left, right, .. } => members(*left).add(members(*right)),
    }
}

/// The leaves of a hierarchy.
pub open spec fn leaves_of(d: Division) -> Multiset<Seq<i32>>
    decreases d,
{
    match d {
        Division::Leaf { points } => Multiset::singleton(points),
        Division::Fork { left, right, .. } => leaves_of(*left).add(leaves_of(*right)),
    }
}

/// No point has a margin of zero or more at a hyperplane, ties aside.
pub open spec fn on_the_left(
    rules: Rules,
    plane: (Seq<Single>, Single),
    points: Multiset<i32>,
) -> bool {
    forall|p: i32| #[trigger]
        points.contains(p) ==> (rules.margin)(p as int, plane).ties() || !(rules.margin)(
            p as int,
            plane,
        ).at_least(Single::spec_zero())
}

/// Every point has a margin of zero or more at a hyperplane, ties aside.
pub open spec fn on_the_right(
    rules: Rules,
    plane: (Seq<Single>, Single),
    points: Multiset<i32>,
) -> bool {
    forall|p: i32| #[trigger]
        points.contains(p) ==> (rules.margin)(p as int, plane).ties() || (rules.margin)(
            p as int,
            plane,
        ).at_least(Single::spec_zero())
}

/// What is laid between the points, in some arrangement and under some seed.
pub open spec fn lies_between(
    rules: Rules,
    plane: Option<(Seq<Single>, Single)>,
    points: Multiset<i32>,
) -> bool {
    exists|arrangement: Seq<i32>, seed: u64| #[trigger]
        (rules.split)(arrangement, seed) == plane && arrangement.to_multiset() == points
}

/// The points lie on one side of a hyperplane that is laid between them.
pub open spec fn one_sided(rules: Rules, points: Multiset<i32>) -> bool {
    exists|plane: (Seq<Single>, Single)|
        #![trigger on_the_left(rules, plane, points)]
        #![trigger on_the_right(rules, plane, points)]
        lies_between(rules, Some(plane), points) && (on_the_left(rules, plane, points)
            || on_the_right(rules, plane, points))
}

/// Some points are not divided at a depth: they are no more than a leaf may have, or at the depth
/// limit, or there is no hyperplane between them, or all of them are on one side of it.
pub open spec fn undivided(rules: Rules, points: Multiset<i32>, depth: int) -> bool {
    ||| points.len() <= rules.leaf_size
    ||| depth >= rules.max_depth
    ||| lies_between(rules, None, points)
    ||| one_sided(rules, points)
}

/// Every division of a hierarchy is one of more points than a leaf may have, above the depth limit,
/// by a hyperplane that is laid between its points, with those of negative margin to the left of it
/// and those of positive margin to the right, and some on either side; and every leaf is not to be
/// divided.
pub open spec fn divides(rules: Rules, d: Division, depth: int) -> bool
    decreases d,
{
    match d {
        Division::Leaf { points } => undivided(rules, points.to_multiset(), depth),
        Division::Fork { plane, left, right } => {
            &&& members(d).len() > rules.leaf_size
            &&& depth < rules.max_depth
            &&& lies_between(rules, Some(plane), members(d))
            &&& members(*left).len() > 0
            &&& members(*right).len() > 0
            &&& on_the_left(rules, plane, members(*left))
            &&& on_the_right(rules, plane, members(*right))
            &&& divides(rules, *left, depth + 1)
            &&& divides(rules, *right, depth + 1)
        },
    }
}

/// Each hierarchy divides the points of its node.
spec fn stand_for(
    rules: Rules,
    permutation: Seq<i32>,
    nodes: Seq<FrontierNode>,
    ds: Seq<Division>,
    depth: int,
) -> bool {
    &&& ds.len() == nodes.len()
    &&& forall|i: int|
        0 <= i < nodes.len() ==> {
            &&& members(#[trigger] ds[i]) == growth::points_of(
                permutation,
                nodes[i],
            ).to_multiset()
            &&& divides(rules, ds[i], depth)
        }
}

/// The leaves of some hierarchies.
pub open spec fn all_leaves(ds: Seq<Division>) -> Multiset<Seq<i32>>
    decreases ds.len(),
{
    if ds.len() == 0 {
        Multiset::empty()
    } else {
        all_leaves(ds.drop_last()).add(leaves_of(ds.last()))
    }
}

proof fn leaves_of_more(d: Division, ds: Seq<Division>)
    ensures
        all_leaves(seq![d] + ds) == leaves_of(d).add(all_leaves(ds)),
    decreases ds.len(),
{
    broadcast use vstd::multiset::group_multiset_axioms;

    let all = seq![d] + ds;
    if ds.len() == 0 {
        assert(all.drop_last() =~= Seq::empty());
        assert(all_leaves(all.drop_last()) =~= Multiset::empty());
        assert(all_leaves(all) =~= leaves_of(d).add(all_leaves(ds)));
    } else {
        leaves_of_more(d, ds.drop_last());
        assert(all.drop_last() =~= seq![d] + ds.drop_last());
        assert(all_leaves(all) =~= leaves_of(d).add(all_leaves(ds)));
    }
}

/// What ends at a level is hierarchies of leaves alone.
proof fn ending_divides(rules: Rules, s: Growing, level: int, i: int) -> (ds: Seq<Division>)
    requires
        0 <= i <= s.frontier.len(),
        forall|j: int|
            0 <= j < s.frontier.len() ==> (#[trigger] s.frontier[j]).depth == level,
        level >= rules.max_depth || !growth::any_split(rules, s),
        forall|j: int|
            0 <= j < s.frontier.len() ==> (#[trigger] s.frontier[j]).start <= s.frontier[j].end
                <= s.permutation.len(),
    ensures
        stand_for(rules, s.permutation, s.frontier.take(i), ds, level),
        all_leaves(ds) == s.frontier.take(i).map_values(
            |node: FrontierNode| growth::points_of(s.permutation, node),
        ).to_multiset(),
    decreases i,
{
    broadcast use vstd::multiset::group_multiset_axioms;
    broadcast use vstd::seq_lib::group_to_multiset_ensures;

    let ranges = |node: FrontierNode| growth::points_of(s.permutation, node);
    if i == 0 {
        assert(s.frontier.take(0).map_values(ranges) =~= Seq::empty());
        assert(all_leaves(Seq::empty()) =~= s.frontier.take(0).map_values(ranges).to_multiset());
        Seq::empty()
    } else {
        let before = ending_divides(rules, s, level, i - 1);
        let node = s.frontier[i - 1];
        let points = growth::points_of(s.permutation, node);
        let d = Division::Leaf { points };
        points.to_multiset_ensures();
        assert(undivided(rules, points.to_multiset(), level)) by {
            if level < rules.max_depth && points.len() > rules.leaf_size {
                assert(growth::split_of(rules, s.permutation, node) is None);
                assert((rules.split)(points, node.seed) == None::<(Seq<Single>, Single)>);
                assert(lies_between(rules, None, points.to_multiset()));
            }
        }
        let ds = before.push(d);
        assert(ds.drop_last() =~= before);
        assert(s.frontier.take(i).map_values(ranges) =~= s.frontier.take(i - 1).map_values(
            ranges,
        ).push(points));
        assert(all_leaves(ds) =~= s.frontier.take(i).map_values(ranges).to_multiset());
        assert forall|j: int| 0 <= j < i implies members(#[trigger] ds[j]) == growth::points_of(
            s.permutation,
            s.frontier.take(i)[j],
        ).to_multiset() && divides(rules, ds[j], level) by {
            if j < i - 1 {
                assert(ds[j] == before[j]);
                assert(s.frontier.take(i)[j] == s.frontier.take(i - 1)[j]);
            }
        }
        ds
    }
}

/// What becomes of a node, where `done` are the hierarchies of the nodes that a level has made, up
/// to and from it.
spec fn division_at(
    rules: Rules,
    t: Growing,
    node: FrontierNode,
    split: Option<(Seq<Single>, Single)>,
    done: Seq<Division>,
) -> Division {
    match split {
        None => Division::Leaf { points: growth::points_of(t.permutation, node) },
        Some(plane) => {
            let (permutation, left) = growth::partitioned(
                t.permutation,
                growth::sides_at(rules, node, plane),
                node.start as int,
                node.end as int,
            );
            let f = t.frontier.len() as int;
            if left == node.start || left == node.end {
                Division::Leaf { points: growth::points_of(permutation, node) }
            } else {
                Division::Fork {
                    plane,
                    left: Box::new(done[f]),
                    right: Box::new(done[f + 1]),
                }
            }
        },
    }
}

/// The points of a range that a partition leaves to one side of a hyperplane.
proof fn range_is_on_one_side(
    rules: Rules,
    node: FrontierNode,
    plane: (Seq<Single>, Single),
    permutation: Seq<i32>,
    from: int,
    to: int,
    right: bool,
)
    requires
        0 <= from <= to <= permutation.len(),
        forall|j: int|
            from <= j < to ==> growth::sides_at(rules, node, plane)(
                #[trigger] permutation[j] as int,
            ) == right,
    ensures
        right ==> on_the_right(rules, plane, permutation.subrange(from, to).to_multiset()),
        !right ==> on_the_left(rules, plane, permutation.subrange(from, to).to_multiset()),
{
    let points = permutation.subrange(from, to);
    points.to_multiset_ensures();
    assert forall|p: i32| #[trigger] points.to_multiset().contains(p) implies growth::is_right(
        rules,
        node,
        plane,
        p as int,
    ) == right by {
        assert(points.contains(p));
        let l = choose|l: int| 0 <= l < points.len() && points[l] == p;
        assert(growth::sides_at(rules, node, plane)(permutation[from + l] as int) == right);
    }
}

proof fn leaf_comes_to(leaves: Seq<Seq<i32>>, leaf: Seq<i32>, others: Multiset<Seq<i32>>)
    ensures
        leaves.to_multiset().add(others).add(Multiset::singleton(leaf)) == leaves.push(
            leaf,
        ).to_multiset().add(others),
{
    broadcast use vstd::multiset::group_multiset_axioms;

    leaves.to_multiset_ensures();
    assert(leaves.to_multiset().add(others).add(Multiset::singleton(leaf)) =~= leaves.push(
        leaf,
    ).to_multiset().add(others));
}

proof fn fork_comes_to(
    leaves: Seq<Seq<i32>>,
    before: Seq<Division>,
    done: Seq<Division>,
    d: Division,
)
    requires
        done.len() == before.len() + 2,
        done.drop_last().drop_last() == before,
        d matches Division::Fork { left, right, .. } && *left == done[before.len() as int]
            && *right == done[before.len() as int + 1],
    ensures
        leaves.to_multiset().add(all_leaves(before)).add(leaves_of(d))
            == leaves.to_multiset().add(all_leaves(done)),
{
    broadcast use vstd::multiset::group_multiset_axioms;

    let f = before.len() as int;
    let one = done.drop_last();
    assert(all_leaves(done) == all_leaves(one).add(leaves_of(done[f + 1])));
    assert(all_leaves(one) == all_leaves(before).add(leaves_of(done[f])));
    assert(leaves_of(d) == leaves_of(done[f]).add(leaves_of(done[f + 1])));
    assert(leaves.to_multiset().add(all_leaves(before)).add(leaves_of(d))
        =~= leaves.to_multiset().add(all_leaves(done)));
}

proof fn one_side_is_a_leaf(
    rules: Rules,
    permutation: Seq<i32>,
    node: FrontierNode,
    plane: (Seq<Single>, Single),
    level: int,
)
    requires
        node.start <= node.end <= permutation.len(),
        (rules.split)(growth::points_of(permutation, node), node.seed) == Some(plane),
        ({
            let left = growth::partitioned(
                permutation,
                growth::sides_at(rules, node, plane),
                node.start as int,
                node.end as int,
            ).1;
            left == node.start || left == node.end
        }),
    ensures
        ({
            let p = growth::partitioned(
                permutation,
                growth::sides_at(rules, node, plane),
                node.start as int,
                node.end as int,
            ).0;
            let points = growth::points_of(p, node);
            &&& points.to_multiset() == growth::points_of(permutation, node).to_multiset()
            &&& undivided(rules, points.to_multiset(), level)
        }),
{
    let sides = growth::sides_at(rules, node, plane);
    let (p, left) = growth::partitioned(
        permutation,
        sides,
        node.start as int,
        node.end as int,
    );
    growth::partition_divides(permutation, sides, node.start as int, node.end as int);
    let points = growth::points_of(p, node);
    range_is_on_one_side(
        rules,
        node,
        plane,
        p,
        node.start as int,
        node.end as int,
        left == node.start,
    );
    assert(lies_between(rules, Some(plane), points.to_multiset()));
    assert(one_sided(rules, points.to_multiset()));
}

proof fn two_sides_are_a_fork(
    rules: Rules,
    permutation: Seq<i32>,
    node: FrontierNode,
    plane: (Seq<Single>, Single),
    l: Division,
    r: Division,
    level: int,
)
    requires
        node.start <= node.end <= permutation.len(),
        node.end - node.start > rules.leaf_size,
        level < rules.max_depth,
        (rules.split)(growth::points_of(permutation, node), node.seed) == Some(plane),
        divides(rules, l, level + 1),
        divides(rules, r, level + 1),
        ({
            let (p, left) = growth::partitioned(
                permutation,
                growth::sides_at(rules, node, plane),
                node.start as int,
                node.end as int,
            );
            &&& left != node.start
            &&& left != node.end
            &&& members(l) == growth::points_of(p, growth::left_of(node, left)).to_multiset()
            &&& members(r) == growth::points_of(p, growth::right_of(node, left)).to_multiset()
        }),
    ensures
        ({
            let d = Division::Fork { plane, left: Box::new(l), right: Box::new(r) };
            &&& members(d) == growth::points_of(permutation, node).to_multiset()
            &&& divides(rules, d, level)
        }),
{
    let sides = growth::sides_at(rules, node, plane);
    let (p, left) = growth::partitioned(
        permutation,
        sides,
        node.start as int,
        node.end as int,
    );
    growth::partition_divides(permutation, sides, node.start as int, node.end as int);
    let here = growth::points_of(permutation, node);
    let a = growth::points_of(p, growth::left_of(node, left));
    let b = growth::points_of(p, growth::right_of(node, left));
    assert(growth::points_of(p, node) =~= a + b);
    vstd::seq_lib::lemma_multiset_commutative(a, b);
    here.to_multiset_ensures();
    a.to_multiset_ensures();
    b.to_multiset_ensures();
    range_is_on_one_side(rules, node, plane, p, node.start as int, left, false);
    range_is_on_one_side(rules, node, plane, p, left, node.end as int, true);
    let d = Division::Fork { plane, left: Box::new(l), right: Box::new(r) };
    assert(members(d) == here.to_multiset());
    assert(lies_between(rules, Some(plane), members(d)));
}

proof fn node_is_divided(
    rules: Rules,
    s: Growing,
    n: int,
    level: int,
    i: int,
    done: Seq<Division>,
)
    requires
        growth::sound(s, n, level),
        n <= i32::MAX,
        n > 0,
        0 < i <= s.frontier.len(),
        level < rules.max_depth,
        stand_for(
            rules,
            growth::advanced(rules, s, i as nat).permutation,
            growth::advanced(rules, s, i as nat).frontier,
            done,
            level + 1,
        ),
    ensures
        ({
            let t = growth::advanced(rules, s, (i - 1) as nat);
            let u = growth::advanced(rules, s, i as nat);
            let node = s.frontier[i - 1];
            let d = division_at(
                rules,
                t,
                node,
                growth::split_of(rules, s.permutation, node),
                done,
            );
            &&& members(d) == growth::points_of(s.permutation, node).to_multiset()
            &&& divides(rules, d, level)
            &&& t.frontier.len() <= done.len()
            &&& t.frontier == u.frontier.take(t.frontier.len() as int)
            &&& t.leaves.to_multiset().add(
                all_leaves(done.take(t.frontier.len() as int)),
            ).add(leaves_of(d)) == u.leaves.to_multiset().add(all_leaves(done))
            &&& t.permutation.len() == u.permutation.len()
            &&& forall|j: int|
                0 <= j < node.start ==> #[trigger] u.permutation[j] == t.permutation[j]
        }),
{
    growth::level_is_sound(rules, s, n, level, i - 1);
    let t = growth::advanced(rules, s, (i - 1) as nat);
    let u = growth::advanced(rules, s, i as nat);
    let node = s.frontier[i - 1];
    let f = t.frontier.len() as int;
    let before = done.take(f);
    let here = growth::points_of(s.permutation, node);
    assert(growth::points_of(t.permutation, node) =~= here) by {
        assert forall|j: int| node.start <= j < node.end implies t.permutation[j]
            == s.permutation[j] by {
            assert(s.frontier[i - 1].start <= j);
        }
    }
    let split = growth::split_of(rules, s.permutation, node);
    let d = division_at(rules, t, node, split, done);
    here.to_multiset_ensures();
    assert(here.len() == node.end - node.start);
    assert(t.frontier =~= u.frontier.take(f));
    match split {
        None => {
            assert(undivided(rules, here.to_multiset(), level)) by {
                if here.len() > rules.leaf_size {
                    assert((rules.split)(here, node.seed) == None::<(Seq<Single>, Single)>);
                    assert(lies_between(rules, None, here.to_multiset()));
                }
            }
            assert(before =~= done);
            leaf_comes_to(t.leaves, here, all_leaves(done));
        },
        Some(plane) => {
            let sides = growth::sides_at(rules, node, plane);
            let (p, left) = growth::partitioned(
                t.permutation,
                sides,
                node.start as int,
                node.end as int,
            );
            growth::partition_divides(t.permutation, sides, node.start as int, node.end as int);
            if left == node.start || left == node.end {
                one_side_is_a_leaf(rules, t.permutation, node, plane, level);
                assert(before =~= done);
                leaf_comes_to(t.leaves, growth::points_of(p, node), all_leaves(done));
            } else {
                assert(u.frontier[f] == growth::left_of(node, left));
                assert(u.frontier[f + 1] == growth::right_of(node, left));
                assert(divides(rules, done[f], level + 1));
                assert(divides(rules, done[f + 1], level + 1));
                two_sides_are_a_fork(
                    rules,
                    t.permutation,
                    node,
                    plane,
                    done[f],
                    done[f + 1],
                    level,
                );
                assert(done.drop_last().drop_last() =~= before);
                assert(done.drop_last().last() == done[f]);
                fork_comes_to(t.leaves, before, done, d);
            }
        },
    }
}

/// A level divides its nodes: hierarchies of what the first `i` nodes were divided into, and of the
/// nodes from the `i`-th on, come from hierarchies of all nodes.
proof fn level_divides(
    rules: Rules,
    s: Growing,
    n: int,
    level: int,
    i: int,
    done: Seq<Division>,
    rest: Seq<Division>,
) -> (ds: Seq<Division>)
    requires
        growth::sound(s, n, level),
        n <= i32::MAX,
        n > 0,
        0 <= i <= s.frontier.len(),
        level < rules.max_depth,
        stand_for(
            rules,
            growth::advanced(rules, s, i as nat).permutation,
            growth::advanced(rules, s, i as nat).frontier,
            done,
            level + 1,
        ),
        stand_for(rules, s.permutation, s.frontier.skip(i), rest, level),
    ensures
        stand_for(rules, s.permutation, s.frontier, ds, level),
        s.leaves.to_multiset().add(all_leaves(ds)) == growth::advanced(
            rules,
            s,
            i as nat,
        ).leaves.to_multiset().add(all_leaves(done)).add(all_leaves(rest)),
    decreases i,
{
    broadcast use vstd::multiset::group_multiset_axioms;
    broadcast use vstd::seq_lib::group_to_multiset_ensures;

    if i == 0 {
        assert(s.frontier.skip(0) =~= s.frontier);
        assert(done =~= Seq::empty());
        assert(s.leaves.to_multiset().add(all_leaves(rest)) =~= s.leaves.to_multiset().add(
            all_leaves(done),
        ).add(all_leaves(rest)));
        rest
    } else {
        growth::level_is_sound(rules, s, n, level, i - 1);
        let t = growth::advanced(rules, s, (i - 1) as nat);
        let u = growth::advanced(rules, s, i as nat);
        let node = s.frontier[i - 1];
        let here = growth::points_of(s.permutation, node);
        assert(growth::points_of(t.permutation, node) =~= here) by {
            assert forall|j: int| node.start <= j < node.end implies t.permutation[j]
                == s.permutation[j] by {
                assert(s.frontier[i - 1].start <= j);
            }
        }
        assert(s.frontier.skip(i - 1) =~= seq![node] + s.frontier.skip(i));
        let d = division_at(rules, t, node, growth::split_of(rules, s.permutation, node), done);
        let before = done.take(t.frontier.len() as int);
        node_is_divided(rules, s, n, level, i, done);
        assert forall|a: int| 0 <= a < t.frontier.len() implies members(#[trigger] before[a])
            == growth::points_of(t.permutation, t.frontier[a]).to_multiset() && divides(
            rules,
            before[a],
            level + 1,
        ) by {
            assert(before[a] == done[a]);
            assert(t.frontier[a] == u.frontier.take(t.frontier.len() as int)[a]);
            assert(u.frontier[a] == t.frontier[a]);
            assert(t.frontier[a].end <= s.frontier[i - 1].start);
            assert(growth::points_of(u.permutation, t.frontier[a]) =~= growth::points_of(
                t.permutation,
                t.frontier[a],
            ));
        }
        let more = seq![d] + rest;
        assert forall|b: int| 0 <= b < more.len() implies members(#[trigger] more[b])
            == growth::points_of(s.permutation, s.frontier.skip(i - 1)[b]).to_multiset()
            && divides(rules, more[b], level) by {
            if b > 0 {
                assert(more[b] == rest[b - 1]);
                assert(s.frontier.skip(i - 1)[b] == s.frontier.skip(i)[b - 1]);
            }
        }
        leaves_of_more(d, rest);
        let ds = level_divides(rules, s, n, level, i - 1, before, more);
        assert(t.leaves.to_multiset().add(all_leaves(before)).add(all_leaves(more))
            =~= u.leaves.to_multiset().add(all_leaves(done)).add(all_leaves(rest)));
        ds
    }
}

/// Growing on from a level divides the nodes of that level.
proof fn growing_divides(rules: Rules, s: Growing, n: int, level: int) -> (ds: Seq<Division>)
    requires
        growth::sound(s, n, level),
        n <= i32::MAX,
        n > 0,
    ensures
        stand_for(rules, s.permutation, s.frontier, ds, level),
        growth::grown(rules, s, level).to_multiset() == s.leaves.to_multiset().add(all_leaves(ds)),
    decreases rules.max_depth - level,
{
    broadcast use vstd::multiset::group_multiset_axioms;

    let count = s.frontier.len() as int;
    if level < rules.max_depth && growth::any_split(rules, s) {
        growth::level_is_sound(rules, s, n, level, count);
        let t = growth::leveled(rules, s);
        let done = growing_divides(rules, t, n, level + 1);
        let rest = Seq::<Division>::empty();
        assert(s.frontier.skip(count) =~= Seq::empty());
        let ds = level_divides(rules, s, n, level, count, done, rest);
        assert(all_leaves(rest) =~= Multiset::empty());
        assert(t.leaves.to_multiset().add(all_leaves(done)).add(all_leaves(rest))
            =~= t.leaves.to_multiset().add(all_leaves(done)));
        ds
    } else {
        let ds = ending_divides(rules, s, level, count);
        assert(s.frontier.take(count) =~= s.frontier);
        vstd::seq_lib::lemma_multiset_commutative(
            s.leaves,
            s.frontier.map_values(
                |node: FrontierNode| growth::points_of(s.permutation, node),
            ),
        );
        ds
    }
}

/// The leaves of a tree are the ends of a hierarchy of divisions over all points: at every division
/// the points go to the side of the hyperplane that their margins say.
pub proof fn trees_divide_by_margins(rules: Rules, n: nat, seed: u64)
    requires
        0 < n <= i32::MAX,
    ensures
        exists|d: Division|
            {
                &&& #[trigger] divides(rules, d, 0)
                &&& members(d) == Seq::new(n, |i: int| i as i32).to_multiset()
                &&& leaves_of(d) == growth::tree(rules, n, seed).to_multiset()
            },
{
    broadcast use vstd::multiset::group_multiset_axioms;

    let s = growth::planted(n, seed);
    assert(growth::sound(s, n as int, 0));
    let ds = growing_divides(rules, s, n as int, 0);
    let d = ds[0];
    assert(growth::points_of(s.permutation, s.frontier[0]) =~= s.permutation);
    assert(ds.drop_last() =~= Seq::empty());
    reveal_with_fuel(all_leaves, 2);
    s.leaves.to_multiset_ensures();
    assert(s.leaves.to_multiset() =~= Multiset::empty());
    assert(leaves_of(d) =~= growth::tree(rules, n, seed).to_multiset());
    assert(divides(rules, d, 0));
}

/// The leaves of a forest are the ends of one such hierarchy per tree.
pub proof fn forests_divide_by_margins(rules: Rules, n: nat, seeds: Seq<u64>) -> (ds: Seq<Division>)
    requires
        0 < n <= i32::MAX,
    ensures
        ds.len() == seeds.len(),
        forall|t: int|
            0 <= t < ds.len() ==> divides(rules, #[trigger] ds[t], 0) && members(ds[t])
                == Seq::new(n, |i: int| i as i32).to_multiset(),
        all_leaves(ds) == growth::forest(rules, n, seeds).to_multiset(),
    decreases seeds.len(),
{
    if seeds.len() == 0 {
        let ds = Seq::<Division>::empty();
        growth::forest(rules, n, seeds).to_multiset_ensures();
        assert(growth::forest(rules, n, seeds).to_multiset() =~= Multiset::empty());
        ds
    } else {
        let before = forests_divide_by_margins(rules, n, seeds.drop_last());
        trees_divide_by_margins(rules, n, seeds.last());
        let d = choose|d: Division|
            {
                &&& #[trigger] divides(rules, d, 0)
                &&& members(d) == Seq::new(n, |i: int| i as i32).to_multiset()
                &&& leaves_of(d) == growth::tree(rules, n, seeds.last()).to_multiset()
            };
        let ds = before.push(d);
        assert(ds.drop_last() =~= before);
        vstd::seq_lib::lemma_multiset_commutative(
            growth::forest(rules, n, seeds.drop_last()),
            growth::tree(rules, n, seeds.last()),
        );
        assert forall|t: int| 0 <= t < ds.len() implies divides(rules, #[trigger] ds[t], 0)
            && members(ds[t]) == Seq::new(n, |i: int| i as i32).to_multiset() by {
            if t < before.len() {
                assert(ds[t] == before[t]);
            }
        }
        ds
    }
}

/// A hierarchy's leaves hold its points, and lie with them on the sides of its divisions: no leaf
/// below the left of a hyperplane holds a point of positive margin, and none below the right one of
/// negative margin, ties aside.
pub proof fn leaves_lie_on_their_sides(rules: Rules, d: Division, depth: int)
    requires
        divides(rules, d, depth),
    ensures
        d matches Division::Fork { plane, left, right } ==> {
            &&& forall|leaf: Seq<i32>, i: int|
                leaves_of(*left).contains(leaf) && 0 <= i < leaf.len() ==> {
                    let margin = #[trigger] (rules.margin)(leaf[i] as int, plane);
                    margin.ties() || !Single::spec_zero().below(margin)
                }
            &&& forall|leaf: Seq<i32>, i: int|
                leaves_of(*right).contains(leaf) && 0 <= i < leaf.len() ==> {
                    let margin = #[trigger] (rules.margin)(leaf[i] as int, plane);
                    margin.ties() || !margin.below(Single::spec_zero())
                }
        },
{
    if let Division::Fork { plane, left, right } = d {
        assert forall|leaf: Seq<i32>, i: int|
            leaves_of(*left).contains(leaf) && 0 <= i < leaf.len() implies {
            let margin = #[trigger] (rules.margin)(leaf[i] as int, plane);
            margin.ties() || !Single::spec_zero().below(margin)
        } by {
            leaf_points_are_members(*left, leaf, i);
        }
        assert forall|leaf: Seq<i32>, i: int|
            leaves_of(*right).contains(leaf) && 0 <= i < leaf.len() implies {
            let margin = #[trigger] (rules.margin)(leaf[i] as int, plane);
            margin.ties() || !margin.below(Single::spec_zero())
        } by {
            leaf_points_are_members(*right, leaf, i);
        }
    }
}

proof fn leaf_points_are_members(d: Division, leaf: Seq<i32>, i: int)
    requires
        leaves_of(d).contains(leaf),
        0 <= i < leaf.len(),
    ensures
        members(d).contains(leaf[i]),
    decreases d,
{
    broadcast use vstd::multiset::group_multiset_axioms;

    match d {
        Division::Leaf { points } => {
            points.to_multiset_ensures();
            assert(points.contains(leaf[i]));
        },
        Division::Fork { left, right, .. } => {
            if leaves_of(*left).contains(leaf) {
                leaf_points_are_members(*left, leaf, i);
            } else {
                leaf_points_are_members(*right, leaf, i);
            }
        },
    }
}

} // verus!
