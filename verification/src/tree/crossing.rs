//! Which leaves a spilling search finds.
//!
//! A query reaches its own leaf without crossing a hyperplane. To reach another leaf it must cross
//! some, and the widest margin among them says how far away that leaf is. A search with a budget
//! finds the nearest leaves, nearest first.

use crate::rng::FastRng;
use crate::single::Single;
use crate::tree::routing;
use vstd::multiset::Multiset;
use vstd::prelude::*;
use vstd::seq_lib::lemma_multiset_commutative;

verus! {

/// The sides that a query takes at the nodes below some node, wherever it is.
pub enum Turns {
    /// The node is a leaf.
    Arrived,
    /// The query's side, what lies there, and what lies on the other side.
    Fork { right: bool, near: Box<Turns>, far: Box<Turns> },
}

/// The sides are those that the margins decide. At a tie either may be taken.
pub open spec fn decided(
    children: Seq<[i32; 2]>,
    margin: spec_fn(int) -> Single,
    v: int,
    turns: Turns,
) -> bool
    decreases turns,
{
    match turns {
        Turns::Arrived => !routing::internal(children, v),
        Turns::Fork { right, near, far } => {
            &&& routing::internal(children, v)
            &&& margin(v).ties() || right == Single::spec_zero().below(margin(v))
            &&& decided(children, margin, routing::child(children, v, right), *near)
            &&& decided(children, margin, routing::child(children, v, !right), *far)
        },
    }
}

/// The leaves below node `v`, each with the widest margin that a query must cross to reach it, or
/// `crossed` where that is wider.
pub open spec fn crossings(
    children: Seq<[i32; 2]>,
    margin: spec_fn(int) -> Single,
    v: int,
    crossed: Single,
    turns: Turns,
) -> Multiset<(Single, (usize, usize))>
    decreases turns,
{
    match turns {
        Turns::Arrived => Multiset::singleton((crossed, routing::range(children, v))),
        Turns::Fork { right, near, far } => crossings(
            children,
            margin,
            routing::child(children, v, right),
            crossed,
            *near,
        ).add(
            crossings(
                children,
                margin,
                routing::child(children, v, !right),
                crossed.larger(margin(v).unsigned()),
                *far,
            ),
        ),
    }
}

/// What is found comes nearest first, and nothing that is left is nearer.
pub open spec fn nearest_first(
    found: Seq<(Single, (usize, usize))>,
    left: Multiset<(Single, (usize, usize))>,
) -> bool {
    &&& forall|i: int, j: int|
        0 <= i < j < found.len() ==> (#[trigger] found[i]).0.total() <= (
        #[trigger] found[j]).0.total()
    &&& forall|i: int, e: (Single, (usize, usize))|
        0 <= i < found.len() && #[trigger] left.contains(e) ==> (#[trigger] found[i]).0.total()
            <= e.0.total()
}

/// The tree's leaves are those found and those left, with what must be crossed to reach them.
pub open spec fn parted(
    children: Seq<[i32; 2]>,
    margin: spec_fn(int) -> Single,
    turns: Turns,
    found: Seq<(Single, (usize, usize))>,
    left: Multiset<(Single, (usize, usize))>,
) -> bool {
    &&& decided(children, margin, 0, turns)
    &&& crossings(children, margin, 0, Single::spec_zero(), turns) == found.to_multiset().add(left)
}

/// The ranges of leaves.
pub open spec fn ranges(found: Seq<(Single, (usize, usize))>) -> Seq<(usize, usize)> {
    found.map_values(|e: (Single, (usize, usize))| e.1)
}

/// A priority: a number, and not negative.
spec fn plain(p: Single) -> bool {
    !p.negative() && !p.nan()
}

proof fn some_turns(children: Seq<[i32; 2]>, margin: spec_fn(int) -> Single, v: int) -> (r: Turns)
    requires
        routing::grounded(children),
        0 <= v < children.len(),
    ensures
        decided(children, margin, v, r),
    decreases routing::height(children, v),
{
    if routing::internal(children, v) {
        let right = Single::spec_zero().below(margin(v));
        routing::below_is_lower(children, v, right);
        routing::below_is_lower(children, v, !right);
        let near = some_turns(children, margin, routing::child(children, v, right));
        let far = some_turns(children, margin, routing::child(children, v, !right));
        Turns::Fork { right, near: Box::new(near), far: Box::new(far) }
    } else {
        Turns::Arrived
    }
}

/// Nothing is nearer than what has been crossed already.
proof fn crossings_add_up(
    children: Seq<[i32; 2]>,
    margin: spec_fn(int) -> Single,
    v: int,
    crossed: Single,
    turns: Turns,
)
    requires
        plain(crossed),
    ensures
        forall|e: (Single, (usize, usize))| #[trigger]
            crossings(children, margin, v, crossed, turns).contains(e) ==> crossed.total()
                <= e.0.total(),
    decreases turns,
{
    broadcast use vstd::multiset::group_multiset_axioms;

    match turns {
        Turns::Arrived => {},
        Turns::Fork { right, near, far } => {
            let wider = crossed.larger(margin(v).unsigned());
            let here = routing::child(children, v, right);
            let there = routing::child(children, v, !right);
            crossings_add_up(children, margin, here, crossed, *near);
            crossings_add_up(children, margin, there, wider, *far);
            let a = crossings(children, margin, here, crossed, *near);
            let b = crossings(children, margin, there, wider, *far);
            assert forall|e: (Single, (usize, usize))| #[trigger]
                crossings(children, margin, v, crossed, turns).contains(e) implies crossed.total()
                <= e.0.total() by {
                assert(a.contains(e) || b.contains(e));
            }
        },
    }
}

/// Every leaf is counted, whatever the sides.
proof fn crossings_count(
    children: Seq<[i32; 2]>,
    margin: spec_fn(int) -> Single,
    v: int,
    crossed: Single,
    turns: Turns,
)
    requires
        routing::grounded(children),
        0 <= v < children.len(),
        decided(children, margin, v, turns),
    ensures
        crossings(children, margin, v, crossed, turns).len() == routing::leaves_below(
            children,
            v,
        ).len(),
    decreases turns,
{
    broadcast use vstd::multiset::group_multiset_axioms;

    match turns {
        Turns::Arrived => {},
        Turns::Fork { right, near, far } => {
            let wider = crossed.larger(margin(v).unsigned());
            routing::below_is_lower(children, v, false);
            routing::below_is_lower(children, v, true);
            crossings_count(
                children,
                margin,
                routing::child(children, v, right),
                crossed,
                *near,
            );
            crossings_count(children, margin, routing::child(children, v, !right), wider, *far);
        },
    }
}

spec fn all_decided(
    children: Seq<[i32; 2]>,
    margin: spec_fn(int) -> Single,
    frontier: Seq<(Single, usize)>,
    ways: Seq<Turns>,
) -> bool {
    &&& ways.len() == frontier.len()
    &&& forall|i: int|
        0 <= i < frontier.len() ==> decided(
            children,
            margin,
            (#[trigger] frontier[i]).1 as int,
            ways[i],
        )
}

spec fn all_crossings(
    children: Seq<[i32; 2]>,
    margin: spec_fn(int) -> Single,
    frontier: Seq<(Single, usize)>,
    ways: Seq<Turns>,
) -> Multiset<(Single, (usize, usize))>
    decreases frontier.len(),
{
    if frontier.len() == 0 {
        Multiset::empty()
    } else {
        all_crossings(children, margin, frontier.drop_last(), ways.drop_last()).add(
            crossings(
                children,
                margin,
                frontier.last().1 as int,
                frontier.last().0,
                ways.last(),
            ),
        )
    }
}

proof fn all_crossings_without(
    children: Seq<[i32; 2]>,
    margin: spec_fn(int) -> Single,
    frontier: Seq<(Single, usize)>,
    ways: Seq<Turns>,
    i: int,
)
    requires
        ways.len() == frontier.len(),
        0 <= i < frontier.len(),
    ensures
        all_crossings(children, margin, frontier, ways) == all_crossings(
            children,
            margin,
            frontier.remove(i),
            ways.remove(i),
        ).add(crossings(children, margin, frontier[i].1 as int, frontier[i].0, ways[i])),
    decreases frontier.len(),
{
    broadcast use vstd::multiset::group_multiset_axioms;

    if i < frontier.len() - 1 {
        all_crossings_without(children, margin, frontier.drop_last(), ways.drop_last(), i);
        assert(frontier.remove(i).drop_last() =~= frontier.drop_last().remove(i));
        assert(ways.remove(i).drop_last() =~= ways.drop_last().remove(i));
        assert(all_crossings(children, margin, frontier, ways) =~= all_crossings(
            children,
            margin,
            frontier.remove(i),
            ways.remove(i),
        ).add(crossings(children, margin, frontier[i].1 as int, frontier[i].0, ways[i])));
    } else {
        assert(frontier.remove(i) =~= frontier.drop_last());
        assert(ways.remove(i) =~= ways.drop_last());
    }
}

proof fn all_crossings_add_up(
    children: Seq<[i32; 2]>,
    margin: spec_fn(int) -> Single,
    frontier: Seq<(Single, usize)>,
    ways: Seq<Turns>,
    crossed: Single,
)
    requires
        ways.len() == frontier.len(),
        forall|i: int|
            0 <= i < frontier.len() ==> plain((#[trigger] frontier[i]).0) && crossed.total()
                <= frontier[i].0.total(),
    ensures
        forall|e: (Single, (usize, usize))| #[trigger]
            all_crossings(children, margin, frontier, ways).contains(e) ==> crossed.total()
                <= e.0.total(),
    decreases frontier.len(),
{
    broadcast use vstd::multiset::group_multiset_axioms;

    if frontier.len() > 0 {
        let rest = frontier.drop_last();
        assert forall|i: int| 0 <= i < rest.len() implies plain((#[trigger] rest[i]).0)
            && crossed.total() <= rest[i].0.total() by {
            assert(rest[i] == frontier[i]);
        }
        all_crossings_add_up(children, margin, rest, ways.drop_last(), crossed);
        let last = frontier[frontier.len() - 1];
        crossings_add_up(children, margin, last.1 as int, last.0, ways.last());
        let a = all_crossings(children, margin, rest, ways.drop_last());
        let b = crossings(children, margin, last.1 as int, last.0, ways.last());
        assert forall|e: (Single, (usize, usize))| #[trigger]
            all_crossings(children, margin, frontier, ways).contains(e) implies crossed.total()
            <= e.0.total() by {
            assert(a.contains(e) || b.contains(e));
        }
    }
}

proof fn some_ways(
    children: Seq<[i32; 2]>,
    margin: spec_fn(int) -> Single,
    frontier: Seq<(Single, usize)>,
) -> (r: Seq<Turns>)
    requires
        routing::grounded(children),
        routing::placed(children, frontier),
    ensures
        all_decided(children, margin, frontier, r),
    decreases frontier.len(),
{
    if frontier.len() == 0 {
        Seq::empty()
    } else {
        let rest = frontier.drop_last();
        assert forall|i: int| 0 <= i < rest.len() implies (#[trigger] rest[i]).1
            < children.len() by {
            assert(rest[i] == frontier[i]);
        }
        let ways = some_ways(children, margin, rest);
        assert(frontier[frontier.len() - 1].1 < children.len());
        let last = some_turns(children, margin, frontier.last().1 as int);
        let r = ways.push(last);
        assert forall|i: int| 0 <= i < frontier.len() implies decided(
            children,
            margin,
            (#[trigger] frontier[i]).1 as int,
            r[i],
        ) by {
            if i < rest.len() {
                assert(rest[i] == frontier[i]);
            }
        }
        r
    }
}

/// One leaf found before others, none of which is nearer.
proof fn found_before(
    e: (Single, (usize, usize)),
    found: Seq<(Single, (usize, usize))>,
    left: Multiset<(Single, (usize, usize))>,
)
    requires
        nearest_first(found, left),
        forall|x: (Single, (usize, usize))| #[trigger]
            found.to_multiset().add(left).contains(x) ==> e.0.total() <= x.0.total(),
    ensures
        nearest_first(seq![e] + found, left),
        (seq![e] + found).to_multiset() == Multiset::singleton(e).add(found.to_multiset()),
        ranges(seq![e] + found) == seq![e.1] + ranges(found),
{
    broadcast use vstd::multiset::group_multiset_axioms;
    broadcast use vstd::seq_lib::group_to_multiset_ensures;

    let all = seq![e] + found;
    lemma_multiset_commutative(seq![e], found);
    assert(seq![e] =~= Seq::empty().push(e));
    assert(seq![e].to_multiset() =~= Multiset::singleton(e));
    assert(ranges(all) =~= seq![e.1] + ranges(found));
    assert forall|i: int, j: int| 0 <= i < j < all.len() implies (#[trigger] all[i]).0.total() <= (
    #[trigger] all[j]).0.total() by {
        assert(all[j] == found[j - 1]);
        if i > 0 {
            assert(all[i] == found[i - 1]);
        } else {
            assert(found.contains(found[j - 1]));
            assert(found.to_multiset().contains(found[j - 1]));
            assert(found.to_multiset().add(left).contains(found[j - 1]));
        }
    }
    assert forall|i: int, x: (Single, (usize, usize))|
        0 <= i < all.len() && #[trigger] left.contains(x) implies (#[trigger] all[i]).0.total()
        <= x.0.total() by {
        if i > 0 {
            assert(all[i] == found[i - 1]);
        } else {
            assert(found.to_multiset().add(left).contains(x));
        }
    }
}

/// What a spilling search finds from here on, and what it leaves.
proof fn spilling_finds_the_nearest(
    children: Seq<[i32; 2]>,
    margin: spec_fn(int) -> Single,
    budget: nat,
    s: routing::Spill,
) -> (r: (Seq<Turns>, Seq<(Single, (usize, usize))>, Multiset<(Single, (usize, usize))>))
    requires
        routing::grounded(children),
        routing::placed(children, s.frontier),
        forall|i: int| 0 <= i < s.frontier.len() ==> plain((#[trigger] s.frontier[i]).0),
        s.leaves.len() <= budget,
    ensures
        all_decided(children, margin, s.frontier, r.0),
        all_crossings(children, margin, s.frontier, r.0) == r.1.to_multiset().add(r.2),
        nearest_first(r.1, r.2),
        routing::spilled(children, margin, budget, s).leaves == s.leaves + ranges(r.1),
        s.leaves.len() + r.1.len() <= budget,
        s.leaves.len() + r.1.len() == budget || r.2.len() == 0,
    decreases routing::burden(children, s.frontier),
{
    broadcast use vstd::multiset::group_multiset_axioms;
    broadcast use vstd::seq_lib::group_to_multiset_ensures;

    if s.leaves.len() < budget && s.frontier.len() > 0 {
        let i = routing::nearest(s.frontier);
        routing::nearest_exists(s.frontier);
        routing::opening_lightens(children, margin, s);
        let next = routing::opened(children, margin, s);
        let (priority, node) = s.frontier[i];
        let v = node as int;
        let rest = s.frontier.remove(i);
        let n = rest.len() as int;
        assert forall|j: int| 0 <= j < n implies plain((#[trigger] rest[j]).0) && priority.total()
            <= rest[j].0.total() by {
            let k = if j < i {
                j
            } else {
                j + 1
            };
            assert(rest[j] == s.frontier[k]);
        }
        assert(plain(s.frontier[i].0));
        let (later, found, left) = spilling_finds_the_nearest(children, margin, budget, next);
        if routing::internal(children, v) {
            let right = routing::goes_right(margin(v), s.rng);
            routing::below_is_lower(children, v, right);
            routing::below_is_lower(children, v, !right);
            let way = Turns::Fork { right, near: Box::new(later[n]), far: Box::new(later[n + 1]) };
            let ways = later.take(n).insert(i, way);
            assert(ways.remove(i) =~= later.take(n));
            assert(next.frontier.drop_last().drop_last() =~= rest);
            assert(later.drop_last().drop_last() =~= later.take(n));
            assert(decided(children, margin, next.frontier[n].1 as int, later[n]));
            assert(decided(children, margin, next.frontier[n + 1].1 as int, later[n + 1]));
            all_crossings_without(children, margin, s.frontier, ways, i);
            assert(all_crossings(children, margin, next.frontier, later) == all_crossings(
                children,
                margin,
                next.frontier.drop_last(),
                later.drop_last(),
            ).add(
                crossings(
                    children,
                    margin,
                    next.frontier.last().1 as int,
                    next.frontier.last().0,
                    later.last(),
                ),
            ));
            assert(all_crossings(children, margin, s.frontier, ways) =~= all_crossings(
                children,
                margin,
                next.frontier,
                later,
            ));
            assert forall|j: int| 0 <= j < s.frontier.len() implies decided(
                children,
                margin,
                (#[trigger] s.frontier[j]).1 as int,
                ways[j],
            ) by {
                if j < i {
                    assert(s.frontier[j] == next.frontier[j]);
                } else if j > i {
                    assert(s.frontier[j] == next.frontier[j - 1]);
                }
            }
            (ways, found, left)
        } else {
            let e = (priority, routing::range(children, v));
            let ways = later.insert(i, Turns::Arrived);
            assert(ways.remove(i) =~= later);
            all_crossings_without(children, margin, s.frontier, ways, i);
            all_crossings_add_up(children, margin, rest, later, priority);
            found_before(e, found, left);
            assert(all_crossings(children, margin, s.frontier, ways) =~= (seq![e]
                + found).to_multiset().add(left));
            assert(s.leaves + ranges(seq![e] + found) =~= next.leaves + ranges(found));
            assert forall|j: int| 0 <= j < s.frontier.len() implies decided(
                children,
                margin,
                (#[trigger] s.frontier[j]).1 as int,
                ways[j],
            ) by {
                if j < i {
                    assert(s.frontier[j] == next.frontier[j]);
                } else if j > i {
                    assert(s.frontier[j] == next.frontier[j - 1]);
                }
            }
            (ways, seq![e] + found, left)
        }
    } else {
        let ways = some_ways(children, margin, s.frontier);
        let left = all_crossings(children, margin, s.frontier, ways);
        let found = Seq::<(Single, (usize, usize))>::empty();
        assert(left =~= found.to_multiset().add(left));
        assert(s.leaves + ranges(found) =~= s.leaves);
        (ways, found, left)
    }
}

/// A walk ends at a leaf for which nothing must be crossed.
proof fn walking_crosses_nothing(
    children: Seq<[i32; 2]>,
    margin: spec_fn(int) -> Single,
    v: int,
    crossed: Single,
    rng: FastRng,
) -> (r: (Turns, Multiset<(Single, (usize, usize))>))
    requires
        routing::grounded(children),
        0 <= v < children.len(),
    ensures
        decided(children, margin, v, r.0),
        crossings(children, margin, v, crossed, r.0) == Multiset::singleton(
            (crossed, routing::range(children, routing::walk(children, margin, v, rng).0)),
        ).add(r.1),
    decreases routing::height(children, v),
{
    broadcast use vstd::multiset::group_multiset_axioms;

    if routing::internal(children, v) {
        let right = routing::goes_right(margin(v), rng);
        routing::below_is_lower(children, v, right);
        routing::below_is_lower(children, v, !right);
        let (near, left) = walking_crosses_nothing(
            children,
            margin,
            routing::child(children, v, right),
            crossed,
            routing::tossed_for(margin(v), rng),
        );
        let far = some_turns(children, margin, routing::child(children, v, !right));
        let turns = Turns::Fork { right, near: Box::new(near), far: Box::new(far) };
        let all = left.add(
            crossings(
                children,
                margin,
                routing::child(children, v, !right),
                crossed.larger(margin(v).unsigned()),
                far,
            ),
        );
        assert(crossings(children, margin, v, crossed, turns) =~= Multiset::singleton(
            (crossed, routing::range(children, routing::walk(children, margin, v, rng).0)),
        ).add(all));
        (turns, all)
    } else {
        assert(crossings(children, margin, v, crossed, Turns::Arrived) =~= Multiset::singleton(
            (crossed, routing::range(children, routing::walk(children, margin, v, rng).0)),
        ).add(Multiset::empty()));
        (Turns::Arrived, Multiset::empty())
    }
}

/// A search finds as many leaves as its budget allows and the tree has, in the order of what a
/// query must cross to reach them, and leaves none that is nearer than one it has found.
pub proof fn routing_finds_the_nearest(
    children: Seq<[i32; 2]>,
    margin: spec_fn(int) -> Single,
    budget: nat,
    rng: FastRng,
)
    requires
        routing::grounded(children),
        children.len() > 0,
    ensures
        ({
            let leaves = routing::routed(children, margin, budget, rng).leaves;
            let all = routing::leaves_below(children, 0).len();
            &&& leaves.len() == if budget < all {
                budget
            } else {
                all
            }
            &&& exists|
                turns: Turns,
                found: Seq<(Single, (usize, usize))>,
                left: Multiset<(Single, (usize, usize))>,
            |
                #[trigger] parted(
                    children,
                    margin,
                    turns,
                    found,
                    left,
                ) && nearest_first(found, left)
                    && leaves == ranges(found)
        }),
{
    broadcast use vstd::multiset::group_multiset_axioms;
    broadcast use vstd::seq_lib::group_to_multiset_ensures;

    let zero = Single::spec_zero();
    let leaves = routing::routed(children, margin, budget, rng).leaves;
    let none = Seq::<(Single, (usize, usize))>::empty();
    if budget == 0 {
        let turns = some_turns(children, margin, 0);
        let left = crossings(children, margin, 0, zero, turns);
        assert(left =~= none.to_multiset().add(left));
        assert(leaves =~= ranges(none));
        assert(parted(children, margin, turns, none, left) && nearest_first(none, left));
    } else if budget == 1 {
        let (turns, left) = walking_crosses_nothing(children, margin, 0, zero, rng);
        let e = (zero, routing::range(children, routing::walk(children, margin, 0, rng).0));
        crossings_add_up(children, margin, 0, zero, turns);
        crossings_count(children, margin, 0, zero, turns);
        assert forall|x: (Single, (usize, usize))| #[trigger]
            none.to_multiset().add(left).contains(x) implies e.0.total() <= x.0.total() by {
            assert(crossings(children, margin, 0, zero, turns).contains(x));
        }
        found_before(e, none, left);
        let found = seq![e] + none;
        assert(crossings(children, margin, 0, zero, turns) =~= found.to_multiset().add(left));
        assert(leaves =~= ranges(found));
        assert(parted(children, margin, turns, found, left) && nearest_first(found, left));
    } else {
        let start = routing::at_root(rng);
        let (ways, found, left) = spilling_finds_the_nearest(children, margin, budget, start);
        let turns = ways[0];
        assert(decided(children, margin, start.frontier[0].1 as int, turns));
        assert(start.frontier.drop_last() =~= Seq::empty());
        reveal_with_fuel(all_crossings, 2);
        assert(all_crossings(children, margin, start.frontier, ways) =~= crossings(
            children,
            margin,
            0,
            zero,
            turns,
        ));
        crossings_count(children, margin, 0, zero, turns);
        assert(leaves =~= ranges(found));
        assert(parted(children, margin, turns, found, left) && nearest_first(found, left));
    }
}

} // verus!
