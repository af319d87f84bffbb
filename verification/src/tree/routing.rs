//! Routing through the nodes of a flattened binary tree.
//!
//! A node is two numbers. A positive first number makes it an internal node, and the two are the
//! nodes below it; otherwise it is a leaf, and the negated numbers delimit a range of point
//! indices. Which way a query goes at an internal node is decided by a margin.

use crate::rng::FastRng;
use crate::single::Single;
use vstd::multiset::Multiset;
use vstd::prelude::*;
use vstd::seq_lib::lemma_multiset_commutative;

verus! {

/// Node `v` has nodes below it.
pub open spec fn internal(children: Seq<[i32; 2]>, v: int) -> bool {
    children[v]@[0] > 0
}

/// The node to the right or to the left below `v`.
pub open spec fn child(children: Seq<[i32; 2]>, v: int, right: bool) -> int {
    if right {
        children[v]@[1] as int
    } else {
        children[v]@[0] as int
    }
}

/// The range of point indices of leaf `v`.
pub open spec fn range(children: Seq<[i32; 2]>, v: int) -> (usize, usize) {
    ((-children[v]@[0]) as usize, (-children[v]@[1]) as usize)
}

/// What lies below an internal node is a node, and is lower.
pub open spec fn descends(children: Seq<[i32; 2]>, height: spec_fn(int) -> nat) -> bool {
    forall|v: int|
        0 <= v < children.len() && #[trigger] internal(children, v) ==> {
            &&& 0 <= child(children, v, false) < children.len()
            &&& 0 <= child(children, v, true) < children.len()
            &&& height(child(children, v, false)) < height(v)
            &&& height(child(children, v, true)) < height(v)
        }
}

/// Every way down ends.
pub open spec fn grounded(children: Seq<[i32; 2]>) -> bool {
    exists|height: spec_fn(int) -> nat| descends(children, height)
}

/// How far above the leaves node `v` is at most.
pub open spec fn height(children: Seq<[i32; 2]>, v: int) -> nat {
    (choose|height: spec_fn(int) -> nat| descends(children, height))(v)
}

/// Every leaf delimits a range of `n` point indices.
pub open spec fn delimits(children: Seq<[i32; 2]>, n: int) -> bool {
    forall|v: int|
        0 <= v < children.len() && !#[trigger] internal(children, v) ==> i32::MIN
            < children[v]@[1] <= children[v]@[0] && -children[v]@[1] <= n
}

/// In a grounded tree, what lies below an internal node is lower.
pub proof fn below_is_lower(children: Seq<[i32; 2]>, v: int, right: bool)
    requires
        grounded(children),
        0 <= v < children.len(),
        internal(children, v),
    ensures
        0 <= child(children, v, right) < children.len(),
        height(children, child(children, v, right)) < height(children, v),
{
    let h = choose|height: spec_fn(int) -> nat| descends(children, height);
    assert(descends(children, h));
    assert(internal(children, v));
}

/// A query with this margin goes right; a tie is decided by a coin toss.
pub open spec fn goes_right(margin: Single, rng: FastRng) -> bool {
    if margin.ties() {
        rng.tossed()
    } else {
        Single::spec_zero().below(margin)
    }
}

/// The generator after a query with this margin has gone on.
pub open spec fn tossed_for(margin: Single, rng: FastRng) -> FastRng {
    if margin.ties() {
        rng.stepped()
    } else {
        rng
    }
}

/// A margin that is no tie decides by its sign, whatever the coin, which is then not tossed; so
/// margins of opposite signs lead to opposite sides. A tie is decided by one toss.
pub proof fn sides_follow_margins(margin: Single, rng: FastRng)
    ensures
        margin.at_least(Single { bits: 0x322b_cc77 }) ==> goes_right(margin, rng) && !goes_right(
            margin.opposite(),
            rng,
        ) && tossed_for(margin, rng) == rng && tossed_for(margin.opposite(), rng) == rng,
        margin.unsigned().below(Single { bits: 0x322b_cc77 }) ==> goes_right(margin, rng)
            == rng.tossed() && tossed_for(margin, rng) == rng.stepped(),
{
}

/// Choose a side by a margin; a tie is decided by a coin toss.
pub fn choose_side(margin: Single, rng: &mut FastRng) -> (right: bool)
    ensures
        right == goes_right(margin, *old(rng)),
        *final(rng) == tossed_for(margin, *old(rng)),
{
    if margin.is_tie() {
        rng.next_bool()
    } else {
        Single::zero().lt(margin)
    }
}

/// Where a query arrives that goes its own way from node `v` down: the leaf, the generator, and
/// the number of margins on the way.
pub open spec fn walk(
    children: Seq<[i32; 2]>,
    margin: spec_fn(int) -> Single,
    v: int,
    rng: FastRng,
) -> (int, FastRng, nat)
    decreases height(children, v),
    when grounded(children) && 0 <= v < children.len()
    via walk_ends
{
    if internal(children, v) {
        let right = goes_right(margin(v), rng);
        let (leaf, end, steps) = walk(
            children,
            margin,
            child(children, v, right),
            tossed_for(margin(v), rng),
        );
        (leaf, end, steps + 1)
    } else {
        (v, rng, 0)
    }
}

#[via_fn]
proof fn walk_ends(
    children: Seq<[i32; 2]>,
    margin: spec_fn(int) -> Single,
    v: int,
    rng: FastRng,
) {
    if internal(children, v) {
        below_is_lower(children, v, goes_right(margin(v), rng));
    }
}

/// The ranges of the leaves below node `v`, from left to right.
pub open spec fn leaves_below(children: Seq<[i32; 2]>, v: int) -> Seq<(usize, usize)>
    decreases height(children, v),
    when grounded(children) && 0 <= v < children.len()
    via leaves_below_ends
{
    if internal(children, v) {
        leaves_below(children, child(children, v, false)) + leaves_below(
            children,
            child(children, v, true),
        )
    } else {
        seq![range(children, v)]
    }
}

#[via_fn]
proof fn leaves_below_ends(children: Seq<[i32; 2]>, v: int) {
    if internal(children, v) {
        below_is_lower(children, v, false);
        below_is_lower(children, v, true);
    }
}

/// A walk arrives at a leaf below where it started.
pub proof fn walk_arrives_below(
    children: Seq<[i32; 2]>,
    margin: spec_fn(int) -> Single,
    v: int,
    rng: FastRng,
)
    requires
        grounded(children),
        0 <= v < children.len(),
    ensures
        0 <= walk(children, margin, v, rng).0 < children.len(),
        !internal(children, walk(children, margin, v, rng).0),
        leaves_below(children, v).contains(range(children, walk(children, margin, v, rng).0)),
    decreases height(children, v),
{
    if internal(children, v) {
        let right = goes_right(margin(v), rng);
        let next = child(children, v, right);
        below_is_lower(children, v, false);
        below_is_lower(children, v, true);
        walk_arrives_below(children, margin, next, tossed_for(margin(v), rng));
        let left = leaves_below(children, child(children, v, false));
        let all = leaves_below(children, v);
        let part = leaves_below(children, next);
        let i = choose|i: int|
            0 <= i < part.len() && part[i] == range(children, walk(children, margin, v, rng).0);
        let at = if right {
            left.len() + i
        } else {
            i
        };
        assert(all[at] == part[i]);
    } else {
        assert(leaves_below(children, v)[0] == range(children, v));
    }
}

/// The number of nodes at and below `v`.
pub open spec fn weight(children: Seq<[i32; 2]>, v: int) -> nat
    decreases height(children, v),
    when grounded(children) && 0 <= v < children.len()
    via weight_ends
{
    if internal(children, v) {
        1 + weight(children, child(children, v, false)) + weight(
            children,
            child(children, v, true),
        )
    } else {
        1
    }
}

#[via_fn]
proof fn weight_ends(children: Seq<[i32; 2]>, v: int) {
    if internal(children, v) {
        below_is_lower(children, v, false);
        below_is_lower(children, v, true);
    }
}

proof fn walk_is_shorter_than_weight(
    children: Seq<[i32; 2]>,
    margin: spec_fn(int) -> Single,
    v: int,
    rng: FastRng,
)
    requires
        grounded(children),
        0 <= v < children.len(),
    ensures
        walk(children, margin, v, rng).2 < weight(children, v),
    decreases height(children, v),
{
    if internal(children, v) {
        below_is_lower(children, v, false);
        below_is_lower(children, v, true);
        walk_is_shorter_than_weight(
            children,
            margin,
            child(children, v, goes_right(margin(v), rng)),
            tossed_for(margin(v), rng),
        );
    }
}

/// Follow a query from the root to its leaf; returns the leaf.
pub(crate) fn walk_down<G: Fn(usize) -> Single>(
    children: &Vec<[i32; 2]>,
    margin_at: &G,
    rng: &mut FastRng,
    Ghost(margin): Ghost<spec_fn(int) -> Single>,
) -> (leaf: usize)
    requires
        children@.len() > 0,
        grounded(children@),
        forall|v: usize|
            v < children@.len() && internal(children@, v as int) ==> #[trigger] call_requires(
                *margin_at,
                (v,),
            ),
        forall|v: usize, m: Single| #[trigger]
            call_ensures(*margin_at, (v,), m) ==> m == margin(v as int),
    ensures
        leaf < children@.len(),
        !internal(children@, leaf as int),
        leaf == walk(children@, margin, 0, *old(rng)).0,
        *final(rng) == walk(children@, margin, 0, *old(rng)).1,
{
    let mut node: usize = 0;
    while children[node][0] > 0
        invariant
            node < children@.len(),
            grounded(children@),
            forall|v: usize|
                v < children@.len() && internal(children@, v as int) ==> #[trigger] call_requires(
                    *margin_at,
                    (v,),
                ),
            forall|v: usize, m: Single| #[trigger]
                call_ensures(*margin_at, (v,), m) ==> m == margin(v as int),
            walk(children@, margin, node as int, *rng).0 == walk(children@, margin, 0, *old(rng)).0,
            walk(children@, margin, node as int, *rng).1 == walk(children@, margin, 0, *old(rng)).1,
        decreases height(children@, node as int),
    {
        assert(internal(children@, node as int));
        let margin_here: Single = margin_at(node);
        let right: bool = choose_side(margin_here, rng);
        proof {
            below_is_lower(children@, node as int, right);
        }
        node = if right {
            children[node][1] as usize
        } else {
            children[node][0] as usize
        };
    }
    node
}

/// Follow a query from the root to its leaf; returns the leaf and the number of margins.
fn walk_down_counting<G: Fn(usize) -> Single>(
    children: &Vec<[i32; 2]>,
    margin_at: &G,
    rng: &mut FastRng,
    Ghost(margin): Ghost<spec_fn(int) -> Single>,
) -> (r: (usize, usize))
    requires
        children@.len() > 0,
        grounded(children@),
        weight(children@, 0) <= usize::MAX,
        forall|v: usize|
            v < children@.len() && internal(children@, v as int) ==> #[trigger] call_requires(
                *margin_at,
                (v,),
            ),
        forall|v: usize, m: Single| #[trigger]
            call_ensures(*margin_at, (v,), m) ==> m == margin(v as int),
    ensures
        r.0 < children@.len(),
        !internal(children@, r.0 as int),
        (r.0 as int, *final(rng), r.1 as nat) == walk(children@, margin, 0, *old(rng)),
{
    let mut node: usize = 0;
    let mut evaluations: usize = 0;
    let ghost end = walk(children@, margin, 0, *old(rng));
    proof {
        walk_is_shorter_than_weight(children@, margin, 0, *old(rng));
    }
    while children[node][0] > 0
        invariant
            node < children@.len(),
            grounded(children@),
            forall|v: usize|
                v < children@.len() && internal(children@, v as int) ==> #[trigger] call_requires(
                    *margin_at,
                    (v,),
                ),
            forall|v: usize, m: Single| #[trigger]
                call_ensures(*margin_at, (v,), m) ==> m == margin(v as int),
            walk(children@, margin, node as int, *rng).0 == end.0,
            walk(children@, margin, node as int, *rng).1 == end.1,
            walk(children@, margin, node as int, *rng).2 + evaluations == end.2,
            end.2 < usize::MAX,
        decreases height(children@, node as int),
    {
        assert(internal(children@, node as int));
        let margin_here: Single = margin_at(node);
        evaluations = evaluations + 1;
        let right: bool = choose_side(margin_here, rng);
        proof {
            below_is_lower(children@, node as int, right);
        }
        node = if right {
            children[node][1] as usize
        } else {
            children[node][0] as usize
        };
    }
    (node, evaluations)
}

/// Read the range of point indices of a leaf.
pub(crate) fn range_of(children: &Vec<[i32; 2]>, leaf: usize, Ghost(n): Ghost<int>) -> (r: (
    usize,
    usize,
))
    requires
        leaf < children@.len(),
        !internal(children@, leaf as int),
        delimits(children@, n),
    ensures
        r == range(children@, leaf as int),
        r.0 <= r.1 <= n,
{
    assert(!internal(children@, leaf as int));
    ((-children[leaf][0]) as usize, (-children[leaf][1]) as usize)
}

/// What a spilling search has come to: the nodes still to be opened, each with the smallest
/// margin that must be crossed to reach it; the ranges of the leaves found; the generator; and the
/// number of margins evaluated.
#[verifier::ext_equal]
pub struct Spill {
    /// Nodes to be opened, with their priorities.
    pub frontier: Seq<(Single, usize)>,
    /// Ranges of the leaves found.
    pub leaves: Seq<(usize, usize)>,
    /// The generator.
    pub rng: FastRng,
    /// Number of margins evaluated.
    pub evaluations: nat,
}

/// `i` is the first of the frontier's nodes with the smallest priority.
pub open spec fn is_nearest(frontier: Seq<(Single, usize)>, i: int) -> bool {
    &&& 0 <= i < frontier.len()
    &&& forall|j: int|
        0 <= j < frontier.len() ==> frontier[i].0.total() <= (#[trigger] frontier[j]).0.total()
    &&& forall|j: int| 0 <= j < i ==> frontier[i].0.total() < (#[trigger] frontier[j]).0.total()
}

/// The first of the frontier's nodes with the smallest priority.
pub open spec fn nearest(frontier: Seq<(Single, usize)>) -> int {
    choose|i: int| is_nearest(frontier, i)
}

/// A frontier that holds something has a nearest node.
pub proof fn nearest_exists(frontier: Seq<(Single, usize)>)
    requires
        frontier.len() > 0,
    ensures
        is_nearest(frontier, nearest(frontier)),
    decreases frontier.len(),
{
    if frontier.len() == 1 {
        assert(is_nearest(frontier, 0));
    } else {
        let rest = frontier.drop_last();
        nearest_exists(rest);
        let i = nearest(rest);
        assert forall|j: int| 0 <= j < rest.len() implies frontier[i].0.total() <= (
        #[trigger] frontier[j]).0.total() by {
            assert(frontier[j] == rest[j]);
        }
        assert forall|j: int| 0 <= j < i implies frontier[i].0.total() < (
        #[trigger] frontier[j]).0.total() by {
            assert(frontier[j] == rest[j]);
        }
        if frontier.last().0.total() < frontier[i].0.total() {
            assert(is_nearest(frontier, frontier.len() - 1));
        } else {
            assert(is_nearest(frontier, i));
        }
    }
}

/// The search after it has opened its nearest node: a leaf is noted down; at an internal node the
/// query's side keeps the priority, and the other side gets at least the margin's magnitude.
pub open spec fn opened(
    children: Seq<[i32; 2]>,
    margin: spec_fn(int) -> Single,
    s: Spill,
) -> Spill {
    let i = nearest(s.frontier);
    let (priority, node) = s.frontier[i];
    let rest = s.frontier.remove(i);
    if internal(children, node as int) {
        let m = margin(node as int);
        let right = goes_right(m, s.rng);
        Spill {
            frontier: rest.push((priority, child(children, node as int, right) as usize)).push(
                (priority.larger(m.unsigned()), child(children, node as int, !right) as usize),
            ),
            leaves: s.leaves,
            rng: tossed_for(m, s.rng),
            evaluations: s.evaluations + 1,
        }
    } else {
        Spill { frontier: rest, leaves: s.leaves.push(range(children, node as int)), ..s }
    }
}

/// Every node of the frontier is one of the tree's.
pub open spec fn placed(children: Seq<[i32; 2]>, frontier: Seq<(Single, usize)>) -> bool {
    forall|i: int| 0 <= i < frontier.len() ==> (#[trigger] frontier[i]).1 < children.len()
}

/// The number of nodes at and below the frontier.
pub open spec fn burden(children: Seq<[i32; 2]>, frontier: Seq<(Single, usize)>) -> nat
    decreases frontier.len(),
{
    if frontier.len() == 0 {
        0
    } else {
        burden(children, frontier.drop_last()) + weight(children, frontier.last().1 as int)
    }
}

/// What a search has come to once it has found `budget` leaves or has none left to find.
pub open spec fn spilled(
    children: Seq<[i32; 2]>,
    margin: spec_fn(int) -> Single,
    budget: nat,
    s: Spill,
) -> Spill
    decreases burden(children, s.frontier),
    when grounded(children) && placed(children, s.frontier)
    via spilled_ends
{
    if s.leaves.len() < budget && s.frontier.len() > 0 {
        spilled(children, margin, budget, opened(children, margin, s))
    } else {
        s
    }
}

#[via_fn]
proof fn spilled_ends(
    children: Seq<[i32; 2]>,
    margin: spec_fn(int) -> Single,
    budget: nat,
    s: Spill,
) {
    if s.frontier.len() > 0 {
        opening_lightens(children, margin, s);
    }
}

proof fn burden_without(children: Seq<[i32; 2]>, frontier: Seq<(Single, usize)>, i: int)
    requires
        0 <= i < frontier.len(),
    ensures
        burden(children, frontier) == burden(children, frontier.remove(i)) + weight(
            children,
            frontier[i].1 as int,
        ),
    decreases frontier.len(),
{
    if i < frontier.len() - 1 {
        burden_without(children, frontier.drop_last(), i);
        assert(frontier.remove(i).drop_last() =~= frontier.drop_last().remove(i));
    } else {
        assert(frontier.remove(i) =~= frontier.drop_last());
    }
}

/// Opening a node leaves fewer nodes to be opened.
pub(crate) proof fn opening_lightens(
    children: Seq<[i32; 2]>,
    margin: spec_fn(int) -> Single,
    s: Spill,
)
    requires
        grounded(children),
        placed(children, s.frontier),
        s.frontier.len() > 0,
    ensures
        burden(children, opened(children, margin, s).frontier) + 1 == burden(children, s.frontier),
        placed(children, opened(children, margin, s).frontier),
        opened(children, margin, s).frontier.len() + opened(children, margin, s).leaves.len()
            + s.evaluations == s.frontier.len() + s.leaves.len() + opened(
            children,
            margin,
            s,
        ).evaluations,
{
    nearest_exists(s.frontier);
    let i = nearest(s.frontier);
    let node = s.frontier[i].1 as int;
    let rest = s.frontier.remove(i);
    burden_without(children, s.frontier, i);
    let next = opened(children, margin, s).frontier;
    if internal(children, node) {
        below_is_lower(children, node, false);
        below_is_lower(children, node, true);
        let one = next.drop_last();
        assert(one.drop_last() =~= rest);
        assert(burden(children, next) == burden(children, one) + weight(
            children,
            next.last().1 as int,
        ));
        assert(burden(children, one) == burden(children, rest) + weight(
            children,
            one.last().1 as int,
        ));
    }
}

/// What a search for up to `budget` leaves from the root comes to. A budget of one is ordinary
/// hard traversal.
pub open spec fn routed(
    children: Seq<[i32; 2]>,
    margin: spec_fn(int) -> Single,
    budget: nat,
    rng: FastRng,
) -> Spill {
    if children.len() == 0 || budget == 0 {
        Spill { frontier: Seq::empty(), leaves: Seq::empty(), rng, evaluations: 0 }
    } else if budget == 1 {
        let (leaf, end, steps) = walk(children, margin, 0, rng);
        Spill {
            frontier: Seq::empty(),
            leaves: seq![range(children, leaf)],
            rng: end,
            evaluations: steps,
        }
    } else {
        spilled(children, margin, budget, at_root(rng))
    }
}

/// A spilling search that is about to open the root.
pub open spec fn at_root(rng: FastRng) -> Spill {
    Spill {
        frontier: seq![(Single::spec_zero(), 0usize)],
        leaves: Seq::empty(),
        rng,
        evaluations: 0,
    }
}

fn nearest_of(frontier: &Vec<(Single, usize)>) -> (best: usize)
    requires
        frontier@.len() > 0,
    ensures
        best == nearest(frontier@),
        best < frontier@.len(),
{
    let mut best: usize = 0;
    let mut i: usize = 1;
    while i < frontier.len()
        invariant
            1 <= i <= frontier@.len(),
            best < i,
            forall|j: int|
                0 <= j < i ==> frontier@[best as int].0.total() <= (
                #[trigger] frontier@[j]).0.total(),
            forall|j: int|
                0 <= j < best ==> frontier@[best as int].0.total() < (
                #[trigger] frontier@[j]).0.total(),
        decreases frontier@.len() - i,
    {
        if frontier[i].0.total_key() < frontier[best].0.total_key() {
            best = i;
        }
        i = i + 1;
    }
    proof {
        nearest_exists(frontier@);
        assert(is_nearest(frontier@, best as int));
    }
    best
}

/// Find up to `leaf_budget` leaves; returns the number of margins evaluated.
pub(crate) fn route<G: Fn(usize) -> Single>(
    children: &Vec<[i32; 2]>,
    margin_at: &G,
    rng: &mut FastRng,
    leaf_budget: usize,
    frontier: &mut Vec<(Single, usize)>,
    leaves: &mut Vec<(usize, usize)>,
    Ghost(margin): Ghost<spec_fn(int) -> Single>,
    Ghost(n): Ghost<int>,
) -> (evaluations: usize)
    requires
        grounded(children@),
        delimits(children@, n),
        children@.len() > 0 ==> weight(children@, 0) <= usize::MAX,
        forall|v: usize|
            v < children@.len() && internal(children@, v as int) ==> #[trigger] call_requires(
                *margin_at,
                (v,),
            ),
        forall|v: usize, m: Single| #[trigger]
            call_ensures(*margin_at, (v,), m) ==> m == margin(v as int),
    ensures
        (Spill {
            frontier: final(frontier)@,
            leaves: final(leaves)@,
            rng: *final(rng),
            evaluations: evaluations as nat,
        }) == routed(children@, margin, leaf_budget as nat, *old(rng)),
        forall|i: int|
            0 <= i < final(leaves)@.len() ==> (#[trigger] final(leaves)@[i]).0
                <= final(leaves)@[i].1 <= n,
{
    frontier.clear();
    leaves.clear();
    if children.len() == 0 || leaf_budget == 0 {
        return 0;
    }
    if leaf_budget == 1 {
        let (leaf, evaluations) = walk_down_counting(children, margin_at, rng, Ghost(margin));
        leaves.push(range_of(children, leaf, Ghost(n)));
        assert(leaves@ =~= seq![range(children@, leaf as int)]);
        return evaluations;
    }
    frontier.push((Single::zero(), 0));
    let mut evaluations: usize = 0;
    let ghost end = routed(children@, margin, leaf_budget as nat, *old(rng));
    proof {
        assert(frontier@ =~= at_root(*rng).frontier);
        assert(leaves@ =~= Seq::empty());
        assert(frontier@.drop_last() =~= Seq::empty());
        reveal_with_fuel(burden, 2);
    }
    while leaves.len() < leaf_budget && frontier.len() > 0
        invariant
            grounded(children@),
            delimits(children@, n),
            forall|v: usize|
                v < children@.len() && internal(children@, v as int) ==> #[trigger] call_requires(
                    *margin_at,
                    (v,),
                ),
            forall|v: usize, m: Single| #[trigger]
                call_ensures(*margin_at, (v,), m) ==> m == margin(v as int),
            placed(children@, frontier@),
            burden(children@, frontier@) + evaluations <= usize::MAX,
            forall|i: int|
                0 <= i < leaves@.len() ==> (#[trigger] leaves@[i]).0 <= leaves@[i].1 <= n,
            spilled(
                children@,
                margin,
                leaf_budget as nat,
                (Spill {
                    frontier: frontier@,
                    leaves: leaves@,
                    rng: *rng,
                    evaluations: evaluations as nat,
                }),
            ) == end,
        decreases burden(children@, frontier@),
    {
        let ghost now = Spill {
            frontier: frontier@,
            leaves: leaves@,
            rng: *rng,
            evaluations: evaluations as nat,
        };
        let best: usize = nearest_of(frontier);
        proof {
            nearest_exists(frontier@);
            opening_lightens(children@, margin, now);
        }
        let (priority, node) = frontier.remove(best);
        if children[node][0] <= 0 {
            assert(!internal(children@, node as int));
            leaves.push(range_of(children, node, Ghost(n)));
            proof {
                assert(Spill {
                    frontier: frontier@,
                    leaves: leaves@,
                    rng: *rng,
                    evaluations: evaluations as nat,
                } =~= opened(children@, margin, now));
            }
        } else {
            assert(internal(children@, node as int));
            let margin_here: Single = margin_at(node);
            evaluations = evaluations + 1;
            let right: bool = choose_side(margin_here, rng);
            proof {
                below_is_lower(children@, node as int, false);
                below_is_lower(children@, node as int, true);
            }
            let left_child: usize = children[node][0] as usize;
            let right_child: usize = children[node][1] as usize;
            let (primary, alternate) = if right {
                (right_child, left_child)
            } else {
                (left_child, right_child)
            };
            frontier.push((priority, primary));
            frontier.push((priority.max(margin_here.abs()), alternate));
            proof {
                assert(Spill {
                    frontier: frontier@,
                    leaves: leaves@,
                    rng: *rng,
                    evaluations: evaluations as nat,
                } =~= opened(children@, margin, now));
            }
        }
    }
    evaluations
}

/// The ranges of the leaves below the frontier.
pub open spec fn pending(children: Seq<[i32; 2]>, frontier: Seq<(Single, usize)>) -> Multiset<
    (usize, usize),
>
    decreases frontier.len(),
{
    if frontier.len() == 0 {
        Multiset::empty()
    } else {
        pending(children, frontier.drop_last()).add(
            leaves_below(children, frontier.last().1 as int).to_multiset(),
        )
    }
}

proof fn pending_without(children: Seq<[i32; 2]>, frontier: Seq<(Single, usize)>, i: int)
    requires
        0 <= i < frontier.len(),
    ensures
        pending(children, frontier) == pending(children, frontier.remove(i)).add(
            leaves_below(children, frontier[i].1 as int).to_multiset(),
        ),
    decreases frontier.len(),
{
    broadcast use vstd::multiset::group_multiset_axioms;

    if i < frontier.len() - 1 {
        pending_without(children, frontier.drop_last(), i);
        assert(frontier.remove(i).drop_last() =~= frontier.drop_last().remove(i));
        assert(pending(children, frontier) =~= pending(children, frontier.remove(i)).add(
            leaves_below(children, frontier[i].1 as int).to_multiset(),
        ));
    } else {
        assert(frontier.remove(i) =~= frontier.drop_last());
    }
}

proof fn opening_keeps_leaves(children: Seq<[i32; 2]>, margin: spec_fn(int) -> Single, s: Spill)
    requires
        grounded(children),
        placed(children, s.frontier),
        s.frontier.len() > 0,
    ensures
        ({
            let t = opened(children, margin, s);
            pending(children, t.frontier).add(t.leaves.to_multiset()) == pending(
                children,
                s.frontier,
            ).add(s.leaves.to_multiset())
        }),
{
    broadcast use vstd::multiset::group_multiset_axioms;

    nearest_exists(s.frontier);
    let i = nearest(s.frontier);
    let node = s.frontier[i].1 as int;
    let rest = s.frontier.remove(i);
    let t = opened(children, margin, s);
    pending_without(children, s.frontier, i);
    if internal(children, node) {
        below_is_lower(children, node, false);
        below_is_lower(children, node, true);
        let one = t.frontier.drop_last();
        assert(one.drop_last() =~= rest);
        let a = leaves_below(children, child(children, node, false));
        let b = leaves_below(children, child(children, node, true));
        lemma_multiset_commutative(a, b);
        assert(pending(children, t.frontier) == pending(children, one).add(
            leaves_below(children, t.frontier.last().1 as int).to_multiset(),
        ));
        assert(pending(children, one) == pending(children, rest).add(
            leaves_below(children, one.last().1 as int).to_multiset(),
        ));
        assert(pending(children, t.frontier) =~= pending(children, s.frontier));
    } else {
        s.leaves.to_multiset_ensures();
        let here = leaves_below(children, node);
        Seq::<(usize, usize)>::empty().to_multiset_ensures();
        assert(here =~= Seq::empty().push(range(children, node)));
        assert(Seq::<(usize, usize)>::empty().to_multiset() =~= Multiset::empty());
        assert(here.to_multiset() =~= Multiset::empty().insert(range(children, node)));
        assert(pending(children, t.frontier).add(t.leaves.to_multiset()) =~= pending(
            children,
            s.frontier,
        ).add(s.leaves.to_multiset()));
    }
}

proof fn spilling_keeps_leaves(
    children: Seq<[i32; 2]>,
    margin: spec_fn(int) -> Single,
    budget: nat,
    s: Spill,
)
    requires
        grounded(children),
        placed(children, s.frontier),
        s.leaves.len() <= budget,
    ensures
        ({
            let t = spilled(children, margin, budget, s);
            &&& pending(children, t.frontier).add(t.leaves.to_multiset()) == pending(
                children,
                s.frontier,
            ).add(s.leaves.to_multiset())
            &&& t.leaves.len() <= budget
            &&& t.leaves.len() == budget || t.frontier.len() == 0
        }),
    decreases burden(children, s.frontier),
{
    if s.leaves.len() < budget && s.frontier.len() > 0 {
        opening_lightens(children, margin, s);
        opening_keeps_leaves(children, margin, s);
        spilling_keeps_leaves(children, margin, budget, opened(children, margin, s));
    }
}

/// A search finds no more leaves than its budget, each of them a leaf of the tree and none more
/// often than it is there; with a budget for all of them it finds all of them.
pub proof fn routing_finds_leaves(
    children: Seq<[i32; 2]>,
    margin: spec_fn(int) -> Single,
    budget: nat,
    rng: FastRng,
)
    requires
        grounded(children),
        children.len() > 0,
    ensures
        routed(children, margin, budget, rng).leaves.len() <= budget,
        routed(children, margin, budget, rng).leaves.to_multiset().subset_of(
            leaves_below(children, 0).to_multiset(),
        ),
        budget > 0 && budget >= leaves_below(children, 0).len() ==> routed(
            children,
            margin,
            budget,
            rng,
        ).leaves.to_multiset() == leaves_below(children, 0).to_multiset(),
{
    broadcast use vstd::multiset::group_multiset_axioms;

    let all = leaves_below(children, 0);
    let found = routed(children, margin, budget, rng).leaves;
    all.to_multiset_ensures();
    found.to_multiset_ensures();
    if budget == 0 {
        assert(found.to_multiset() =~= Multiset::empty());
    } else if budget == 1 {
        walk_arrives_below(children, margin, 0, rng);
        Seq::<(usize, usize)>::empty().to_multiset_ensures();
        assert(found =~= Seq::empty().push(found[0]));
        assert(Seq::<(usize, usize)>::empty().to_multiset() =~= Multiset::empty());
        assert(found.to_multiset() =~= Multiset::empty().insert(found[0]));
        if all.len() == 1 {
            assert(all =~= found);
        }
        assert(all.to_multiset().count(found[0]) > 0);
    } else {
        let s = at_root(rng);
        assert(placed(children, s.frontier));
        spilling_keeps_leaves(children, margin, budget, s);
        let t = spilled(children, margin, budget, s);
        assert(s.frontier.drop_last() =~= Seq::empty());
        reveal_with_fuel(pending, 2);
        Seq::<(usize, usize)>::empty().to_multiset_ensures();
        assert(s.leaves.to_multiset() =~= Multiset::empty());
        assert(pending(children, s.frontier).add(s.leaves.to_multiset()) =~= all.to_multiset());
        assert(found.to_multiset().subset_of(all.to_multiset()));
        if budget >= all.len() {
            let left = pending(children, t.frontier);
            assert(left.add(found.to_multiset()).len() == all.len());
            assert(left.len() == 0);
            assert(found.to_multiset() =~= all.to_multiset());
        }
    }
}

/// Every range is one of `n` point indices.
pub open spec fn within(leaves: Seq<(usize, usize)>, n: int) -> bool {
    forall|i: int| 0 <= i < leaves.len() ==> (#[trigger] leaves[i]).0 <= leaves[i].1 <= n
}

proof fn spilling_stays_within(
    children: Seq<[i32; 2]>,
    margin: spec_fn(int) -> Single,
    budget: nat,
    s: Spill,
    n: int,
)
    requires
        grounded(children),
        delimits(children, n),
        placed(children, s.frontier),
        within(s.leaves, n),
    ensures
        within(spilled(children, margin, budget, s).leaves, n),
    decreases burden(children, s.frontier),
{
    if s.leaves.len() < budget && s.frontier.len() > 0 {
        opening_lightens(children, margin, s);
        nearest_exists(s.frontier);
        let node = s.frontier[nearest(s.frontier)].1 as int;
        if !internal(children, node) {
            assert(range(children, node).0 <= range(children, node).1 <= n);
        }
        spilling_stays_within(children, margin, budget, opened(children, margin, s), n);
    }
}

/// A search of a tree over `n` point indices finds ranges of them.
pub proof fn routing_stays_within(
    children: Seq<[i32; 2]>,
    margin: spec_fn(int) -> Single,
    budget: nat,
    rng: FastRng,
    n: int,
)
    requires
        grounded(children),
        delimits(children, n),
    ensures
        within(routed(children, margin, budget, rng).leaves, n),
{
    if children.len() > 0 && budget == 1 {
        walk_arrives_below(children, margin, 0, rng);
        let leaf = walk(children, margin, 0, rng).0;
        assert(!internal(children, leaf));
    } else if children.len() > 0 && budget > 1 {
        spilling_stays_within(children, margin, budget, at_root(rng), n);
    }
}

} // verus!
