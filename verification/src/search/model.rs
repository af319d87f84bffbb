//! What a greedy graph search does, step by step, and what holds of it throughout.

use crate::graph::SearchGraph;
use crate::heap::bounded;
use crate::heap::order;
use crate::rng::FastRng;
use crate::single::Single;
use crate::tree::routing;
use vstd::multiset::Multiset;
use vstd::prelude::*;
use vstd::set_lib::{lemma_int_range, lemma_len_subset, set_int_range};

verus! {

/// What is searched for, and when to stop.
pub struct Quest {
    /// The distance of each point from the query.
    pub distance: spec_fn(int) -> Single,
    /// How far to look, given the distance of the furthest result.
    pub bound: spec_fn(Single) -> Single,
    /// How many results to find.
    pub k: nat,
    /// Whether a search may stop only once it has all its results.
    pub fills: bool,
}

/// How often a search has done what.
pub struct Counts {
    /// Distances evaluated.
    pub distance_evaluations: nat,
    /// Points taken from trees.
    pub tree_seed_candidates: nat,
    /// Points taken at random.
    pub random_seed_candidates: nat,
    /// Neighbor entries looked at.
    pub neighbor_candidates_scanned: nat,
    /// Points looked up in the visited set.
    pub visited_checks: nat,
    /// Points found there.
    pub visited_already_seen: nat,
    /// Pushes to the seeds.
    pub seed_pushes: nat,
    /// Pops from the seeds.
    pub seed_pops: nat,
    /// Offers to the results.
    pub result_push_attempts: nat,
    /// Offers that were taken.
    pub result_push_inserted: nat,
    /// New bounds.
    pub bound_updates: nat,
    /// Turns of the main loop.
    pub main_loop_iterations: nat,
}

/// What a search has come to: the points visited, the results, the points to go on from, and what
/// it took.
#[verifier::ext_equal]
pub struct Progress {
    /// Points visited.
    pub visited: Set<int>,
    /// Results so far.
    pub found: Multiset<(Single, i32)>,
    /// Points to go on from.
    pub seeds: Multiset<(Single, i32)>,
    /// What it took.
    pub counts: Counts,
}

/// Nothing done.
pub open spec fn no_counts() -> Counts {
    Counts {
        distance_evaluations: 0,
        tree_seed_candidates: 0,
        random_seed_candidates: 0,
        neighbor_candidates_scanned: 0,
        visited_checks: 0,
        visited_already_seen: 0,
        seed_pushes: 0,
        seed_pops: 0,
        result_push_attempts: 0,
        result_push_inserted: 0,
        bound_updates: 0,
        main_loop_iterations: 0,
    }
}

/// A search that has not begun.
pub open spec fn begun() -> Progress {
    Progress {
        visited: Set::empty(),
        found: Multiset::empty(),
        seeds: Multiset::empty(),
        counts: no_counts(),
    }
}

/// One where `b`, zero elsewhere.
pub open spec fn one_if(b: bool) -> nat {
    if b {
        1
    } else {
        0
    }
}

/// A search that has looked a point up and found it visited.
pub open spec fn met_again(p: Progress) -> Progress {
    Progress {
        counts: Counts {
            visited_checks: p.counts.visited_checks + 1,
            visited_already_seen: p.counts.visited_already_seen + 1,
            ..p.counts
        },
        ..p
    }
}

/// A search that has visited a new point and evaluated its distance.
pub open spec fn met(p: Progress, idx: i32) -> Progress {
    Progress {
        visited: p.visited.insert(idx as int),
        counts: Counts {
            visited_checks: p.counts.visited_checks + 1,
            distance_evaluations: p.counts.distance_evaluations + 1,
            ..p.counts
        },
        ..p
    }
}

/// A search that has offered a point to the results and is to go on from it.
pub open spec fn offered(q: Quest, p: Progress, idx: i32) -> Progress {
    let d = (q.distance)(idx as int);
    Progress {
        found: bounded::pushed(p.found, q.k, (d, idx)),
        seeds: p.seeds.insert((d, idx)),
        counts: Counts {
            result_push_attempts: p.counts.result_push_attempts + 1,
            result_push_inserted: p.counts.result_push_inserted + one_if(
                bounded::admits(p.found, q.k, d),
            ),
            seed_pushes: p.counts.seed_pushes + 1,
            ..p.counts
        },
        ..p
    }
}

/// A search that has taken a point to start from, unless it is a placeholder or visited.
pub open spec fn seeded(q: Quest, p: Progress, idx: i32, from_tree: bool) -> Progress {
    if idx < 0 {
        p
    } else if p.visited.contains(idx as int) {
        met_again(p)
    } else {
        let o = offered(q, met(p, idx), idx);
        Progress {
            counts: Counts {
                tree_seed_candidates: o.counts.tree_seed_candidates + one_if(from_tree),
                random_seed_candidates: o.counts.random_seed_candidates + one_if(!from_tree),
                ..o.counts
            },
            ..o
        }
    }
}

/// A search that has taken some points of a tree to start from.
pub open spec fn seeded_all(q: Quest, p: Progress, ids: Seq<i32>) -> Progress
    decreases ids.len(),
{
    if ids.len() == 0 {
        p
    } else {
        seeded(q, seeded_all(q, p, ids.drop_last()), ids.last(), true)
    }
}

/// A search that has taken the points of some leaves to start from.
pub open spec fn seeded_leaves(
    q: Quest,
    p: Progress,
    indices: Seq<i32>,
    leaves: Seq<(usize, usize)>,
) -> Progress
    decreases leaves.len(),
{
    if leaves.len() == 0 {
        p
    } else {
        seeded_all(
            q,
            seeded_leaves(q, p, indices, leaves.drop_last()),
            indices.subrange(leaves.last().0 as int, leaves.last().1 as int),
        )
    }
}

/// How a query is routed through some trees: what the search of tree `i` comes to with a
/// generator, and the point indices of tree `i`.
pub struct Routes {
    /// Number of trees.
    pub count: nat,
    /// What the search of a tree comes to.
    pub route: spec_fn(int, FastRng) -> routing::Spill,
    /// The point indices of a tree.
    pub indices: spec_fn(int) -> Seq<i32>,
}

/// A search that has taken points of the first `i` trees to start from, and the generator.
pub open spec fn rooted(q: Quest, routes: Routes, i: nat, rng: FastRng) -> (Progress, FastRng)
    decreases i,
{
    if i == 0 {
        (begun(), rng)
    } else {
        let (p, r) = rooted(q, routes, (i - 1) as nat, rng);
        let spill = (routes.route)(i - 1, r);
        (seeded_leaves(q, p, (routes.indices)(i - 1), spill.leaves), spill.rng)
    }
}

/// A search that has made `m` random draws among `n` points to start from, and the generator.
pub open spec fn scattered(q: Quest, p: Progress, n: int, m: nat, rng: FastRng) -> (
    Progress,
    FastRng,
)
    decreases m,
{
    if m == 0 {
        (p, rng)
    } else {
        let (s, r) = scattered(q, p, n, (m - 1) as nat, rng);
        (seeded(q, s, r.drawn(n) as i32, false), r.stepped())
    }
}

/// The number of random draws that make up for missing seeds.
pub open spec fn missing(q: Quest, p: Progress) -> nat {
    if p.seeds.len() < q.k {
        (q.k - p.seeds.len()) as nat
    } else {
        0
    }
}

/// A search that has looked at a neighbor, and the bound.
pub open spec fn scanned(q: Quest, p: Progress, bound: Single, idx: i32) -> (Progress, Single) {
    let c = Progress {
        counts: Counts {
            neighbor_candidates_scanned: p.counts.neighbor_candidates_scanned + 1,
            ..p.counts
        },
        ..p
    };
    if idx < 0 {
        (c, bound)
    } else if p.visited.contains(idx as int) {
        (met_again(c), bound)
    } else {
        let d = (q.distance)(idx as int);
        let m = met(c, idx);
        if d.below(bound) {
            let o = offered(q, m, idx);
            if bounded::admits(p.found, q.k, d) {
                (
                    Progress {
                        counts: Counts { bound_updates: o.counts.bound_updates + 1, ..o.counts },
                        ..o
                    },
                    (q.bound)(bounded::furthest(o.found, q.k)),
                )
            } else {
                (o, bound)
            }
        } else {
            (m, bound)
        }
    }
}

/// A search that has looked at some neighbors, and the bound.
pub open spec fn scanned_all(q: Quest, p: Progress, bound: Single, row: Seq<i32>) -> (
    Progress,
    Single,
)
    decreases row.len(),
{
    if row.len() == 0 {
        (p, bound)
    } else {
        let (s, b) = scanned_all(q, p, bound, row.drop_last());
        scanned(q, s, b, row.last())
    }
}

/// A search that has taken the nearest seed.
pub open spec fn popped(p: Progress) -> Progress {
    Progress {
        seeds: p.seeds.remove(order::first(p.seeds)),
        counts: Counts {
            seed_pops: p.counts.seed_pops + 1,
            main_loop_iterations: p.counts.main_loop_iterations + 1,
            ..p.counts
        },
        ..p
    }
}

/// The search ends at a seed of distance `d`: it is at the bound or beyond.
pub open spec fn stops(q: Quest, p: Progress, bound: Single, d: Single) -> bool {
    (q.fills ==> p.found.len() == q.k) && d.at_least(bound)
}

/// What holds of a search among `n` points at every step: everything in it is a visited point at
/// its distance, no point is in the results or in the seeds twice, and there are no more results
/// than asked for.
pub open spec fn consistent(q: Quest, n: int, p: Progress) -> bool {
    &&& p.visited.subset_of(set_int_range(0, n))
    &&& forall|e: (Single, i32)| #[trigger]
        p.seeds.contains(e) ==> p.visited.contains(e.1 as int) && e.0 == (q.distance)(e.1 as int)
    &&& forall|e: (Single, i32)| #[trigger]
        p.found.contains(e) ==> p.visited.contains(e.1 as int) && e.0 == (q.distance)(e.1 as int)
    &&& forall|e: (Single, i32)| #[trigger] p.seeds.count(e) <= 1
    &&& forall|e: (Single, i32)| #[trigger] p.found.count(e) <= 1
    &&& p.found.len() <= q.k
}

/// How the counts of a search hang together.
pub open spec fn balanced(p: Progress) -> bool {
    &&& p.counts.distance_evaluations == p.visited.len()
    &&& p.counts.visited_checks == p.counts.visited_already_seen + p.counts.distance_evaluations
    &&& p.counts.seed_pushes == p.counts.seed_pops + p.seeds.len()
    &&& p.counts.result_push_attempts == p.counts.seed_pushes
    &&& p.counts.result_push_inserted <= p.counts.result_push_attempts
    &&& p.counts.bound_updates <= p.counts.result_push_inserted
    &&& p.counts.seed_pushes <= p.counts.distance_evaluations
    &&& p.counts.tree_seed_candidates + p.counts.random_seed_candidates <= p.counts.seed_pushes
    &&& p.counts.main_loop_iterations == p.counts.seed_pops
}

/// An upper bound on the turns that a search can still take.
pub open spec fn remaining(n: int, p: Progress) -> int {
    p.seeds.len() + n - p.visited.len()
}

/// A search that has come to its end, and the bound.
pub open spec fn traversed(q: Quest, graph: SearchGraph, p: Progress, bound: Single) -> Progress
    decreases remaining(graph.n_vertices as int, p),
    when graph.wf() && consistent(q, graph.n_vertices as int, p)
    via traversal_ends
{
    if p.seeds.len() == 0 {
        p
    } else {
        let (d, v) = order::first(p.seeds);
        let s = popped(p);
        if stops(q, p, bound, d) {
            s
        } else {
            let (t, b) = scanned_all(q, s, bound, graph.row(v as int));
            traversed(q, graph, t, b)
        }
    }
}

#[via_fn]
proof fn traversal_ends(q: Quest, graph: SearchGraph, p: Progress, bound: Single) {
    if p.seeds.len() > 0 {
        let n = graph.n_vertices as int;
        let (d, v) = order::first(p.seeds);
        popping_keeps(q, n, p);
        row_is_within(graph, v as int);
        scanning_all_keeps(q, n, popped(p), bound, graph.row(v as int));
        visited_is_bounded(n, scanned_all(q, popped(p), bound, graph.row(v as int)).0.visited);
    }
}

/// The neighbors of a vertex are entries of the graph.
pub proof fn row_is_within(graph: SearchGraph, v: int)
    requires
        graph.wf(),
        0 <= v < graph.n_vertices,
    ensures
        forall|i: int|
            0 <= i < graph.row(v).len() ==> #[trigger] graph.row(v)[i] < graph.n_vertices,
        graph.row(v).len() <= graph.indices@.len(),
{
    assert(graph.indptr@[0] <= graph.indptr@[v] <= graph.indptr@[v + 1]
        <= graph.indptr@[graph.n_vertices as int]);
}

proof fn visited_is_bounded(n: int, visited: Set<int>)
    requires
        n >= 0,
        visited.subset_of(set_int_range(0, n)),
    ensures
        visited.finite(),
        visited.len() <= n,
{
    lemma_int_range(0, n);
    lemma_len_subset(visited, set_int_range(0, n));
}

/// A consistent search has turns left, or none.
pub proof fn visited_stays_within(q: Quest, n: int, p: Progress)
    requires
        n >= 0,
        consistent(q, n, p),
    ensures
        remaining(n, p) >= 0,
        p.visited.len() <= n,
{
    visited_is_bounded(n, p.visited);
}

proof fn meeting_keeps(q: Quest, n: int, p: Progress, idx: i32)
    requires
        consistent(q, n, p),
        0 <= idx < n,
        !p.visited.contains(idx as int),
    ensures
        consistent(q, n, met(p, idx)),
        remaining(n, met(p, idx)) == remaining(n, p) - 1,
        met(p, idx).visited.len() == p.visited.len() + 1,
        !p.seeds.contains(((q.distance)(idx as int), idx)),
        !p.found.contains(((q.distance)(idx as int), idx)),
{
    visited_is_bounded(n, p.visited);
}

proof fn offering_keeps(q: Quest, n: int, p: Progress, idx: i32)
    requires
        consistent(q, n, p),
        p.visited.contains(idx as int),
        !p.seeds.contains(((q.distance)(idx as int), idx)),
        !p.found.contains(((q.distance)(idx as int), idx)),
    ensures
        consistent(q, n, offered(q, p, idx)),
        remaining(n, offered(q, p, idx)) == remaining(n, p) + 1,
        offered(q, p, idx).seeds.len() == p.seeds.len() + 1,
{
    broadcast use vstd::multiset::group_multiset_axioms;

    let e = ((q.distance)(idx as int), idx);
    let o = offered(q, p, idx);
    assert(p.seeds.count(e) == 0);
    assert(p.found.count(e) == 0);
    if p.found.len() == q.k && p.found.len() > 0 {
        order::last_exists(p.found);
        assert(p.found.count(order::last(p.found)) == 1);
    }
    assert forall|x: (Single, i32)| #[trigger] o.found.contains(x) implies o.visited.contains(
        x.1 as int,
    ) && x.0 == (q.distance)(x.1 as int) by {
        if x != e {
            assert(p.found.contains(x));
        }
    }
    assert forall|x: (Single, i32)| #[trigger] o.seeds.contains(x) implies o.visited.contains(
        x.1 as int,
    ) && x.0 == (q.distance)(x.1 as int) by {
        if x != e {
            assert(p.seeds.contains(x));
        }
    }
    assert forall|x: (Single, i32)| #[trigger] o.found.count(x) <= 1 by {
        assert(p.found.count(x) <= 1);
    }
    assert forall|x: (Single, i32)| #[trigger] o.seeds.count(x) <= 1 by {
        assert(p.seeds.count(x) <= 1);
    }
}

/// Taking a point to start from keeps what holds of a search.
pub proof fn seeding_keeps(q: Quest, n: int, p: Progress, idx: i32, from_tree: bool)
    requires
        consistent(q, n, p),
        idx < n,
    ensures
        consistent(q, n, seeded(q, p, idx, from_tree)),
        balanced(p) ==> balanced(seeded(q, p, idx, from_tree)),
        remaining(n, seeded(q, p, idx, from_tree)) == remaining(n, p),
{
    if idx >= 0 && !p.visited.contains(idx as int) {
        meeting_keeps(q, n, p, idx);
        offering_keeps(q, n, met(p, idx), idx);
    }
}

/// Taking some points to start from keeps what holds of a search.
pub proof fn seeding_all_keeps(q: Quest, n: int, p: Progress, ids: Seq<i32>)
    requires
        consistent(q, n, p),
        forall|i: int| 0 <= i < ids.len() ==> #[trigger] ids[i] < n,
    ensures
        consistent(q, n, seeded_all(q, p, ids)),
        balanced(p) ==> balanced(seeded_all(q, p, ids)),
    decreases ids.len(),
{
    if ids.len() > 0 {
        assert forall|i: int| 0 <= i < ids.drop_last().len() implies #[trigger] ids.drop_last()[i]
            < n by {
            assert(ids[i] < n);
        }
        seeding_all_keeps(q, n, p, ids.drop_last());
        assert(ids[ids.len() - 1] < n);
        seeding_keeps(q, n, seeded_all(q, p, ids.drop_last()), ids.last(), true);
    }
}

/// Taking the points of some leaves to start from keeps what holds of a search.
pub proof fn seeding_leaves_keeps(
    q: Quest,
    n: int,
    p: Progress,
    indices: Seq<i32>,
    leaves: Seq<(usize, usize)>,
)
    requires
        consistent(q, n, p),
        forall|i: int| 0 <= i < indices.len() ==> #[trigger] indices[i] < n,
        forall|i: int|
            0 <= i < leaves.len() ==> (#[trigger] leaves[i]).0 <= leaves[i].1 <= indices.len(),
    ensures
        consistent(q, n, seeded_leaves(q, p, indices, leaves)),
        balanced(p) ==> balanced(seeded_leaves(q, p, indices, leaves)),
    decreases leaves.len(),
{
    if leaves.len() > 0 {
        let rest = leaves.drop_last();
        assert forall|i: int| 0 <= i < rest.len() implies (#[trigger] rest[i]).0 <= rest[i].1
            <= indices.len() by {
            assert(leaves[i].0 <= leaves[i].1 <= indices.len());
        }
        seeding_leaves_keeps(q, n, p, indices, rest);
        let last = leaves[leaves.len() - 1];
        let ids = indices.subrange(last.0 as int, last.1 as int);
        assert forall|i: int| 0 <= i < ids.len() implies #[trigger] ids[i] < n by {
            assert(indices[last.0 + i] < n);
        }
        seeding_all_keeps(q, n, seeded_leaves(q, p, indices, rest), ids);
    }
}

/// Drawing random points to start from keeps what holds of a search.
pub proof fn scattering_keeps(q: Quest, n: int, p: Progress, m: nat, rng: FastRng)
    requires
        consistent(q, n, p),
        m > 0 ==> 0 < n <= i32::MAX,
    ensures
        consistent(q, n, scattered(q, p, n, m, rng).0),
        balanced(p) ==> balanced(scattered(q, p, n, m, rng).0),
    decreases m,
{
    if m > 0 {
        scattering_keeps(q, n, p, (m - 1) as nat, rng);
        let (s, r) = scattered(q, p, n, (m - 1) as nat, rng);
        assert(0 <= r.drawn(n) < n) by {
            vstd::arithmetic::div_mod::lemma_mod_bound(crate::rng::mixed(r.state) as int, n);
        }
        seeding_keeps(q, n, s, r.drawn(n) as i32, false);
    }
}

/// Looking at a neighbor keeps what holds of a search.
pub proof fn scanning_keeps(q: Quest, n: int, p: Progress, bound: Single, idx: i32)
    requires
        consistent(q, n, p),
        idx < n,
    ensures
        consistent(q, n, scanned(q, p, bound, idx).0),
        balanced(p) ==> balanced(scanned(q, p, bound, idx).0),
        remaining(n, scanned(q, p, bound, idx).0) <= remaining(n, p),
{
    let c = Progress {
        counts: Counts {
            neighbor_candidates_scanned: p.counts.neighbor_candidates_scanned + 1,
            ..p.counts
        },
        ..p
    };
    if idx >= 0 && !p.visited.contains(idx as int) {
        meeting_keeps(q, n, c, idx);
        if (q.distance)(idx as int).below(bound) {
            offering_keeps(q, n, met(c, idx), idx);
        }
    }
}

/// Looking at some neighbors keeps what holds of a search.
pub proof fn scanning_all_keeps(q: Quest, n: int, p: Progress, bound: Single, row: Seq<i32>)
    requires
        consistent(q, n, p),
        forall|i: int| 0 <= i < row.len() ==> #[trigger] row[i] < n,
    ensures
        consistent(q, n, scanned_all(q, p, bound, row).0),
        balanced(p) ==> balanced(scanned_all(q, p, bound, row).0),
        remaining(n, scanned_all(q, p, bound, row).0) <= remaining(n, p),
    decreases row.len(),
{
    if row.len() > 0 {
        assert forall|i: int| 0 <= i < row.drop_last().len() implies #[trigger] row.drop_last()[i]
            < n by {
            assert(row[i] < n);
        }
        scanning_all_keeps(q, n, p, bound, row.drop_last());
        let (s, b) = scanned_all(q, p, bound, row.drop_last());
        assert(row[row.len() - 1] < n);
        scanning_keeps(q, n, s, b, row.last());
    }
}

/// Taking the nearest seed keeps what holds of a search.
pub proof fn popping_keeps(q: Quest, n: int, p: Progress)
    requires
        n >= 0,
        consistent(q, n, p),
        p.seeds.len() > 0,
    ensures
        consistent(q, n, popped(p)),
        balanced(p) ==> balanced(popped(p)),
        remaining(n, popped(p)) == remaining(n, p) - 1,
        remaining(n, popped(p)) >= 0,
        0 <= order::first(p.seeds).1 < n,
{
    broadcast use vstd::multiset::group_multiset_axioms;

    order::first_exists(p.seeds);
    visited_is_bounded(n, p.visited);
    let e = order::first(p.seeds);
    let s = popped(p);
    assert(p.visited.contains(e.1 as int));
    assert(set_int_range(0, n).contains(e.1 as int));
    assert forall|x: (Single, i32)| #[trigger] s.seeds.contains(x) implies s.visited.contains(
        x.1 as int,
    ) && x.0 == (q.distance)(x.1 as int) by {
        assert(p.seeds.contains(x));
    }
    assert forall|x: (Single, i32)| #[trigger] s.seeds.count(x) <= 1 by {
        assert(p.seeds.count(x) <= 1);
    }
}

/// A search that comes to its end keeps what holds of it.
pub proof fn traversing_keeps(q: Quest, graph: SearchGraph, p: Progress, bound: Single)
    requires
        graph.wf(),
        consistent(q, graph.n_vertices as int, p),
    ensures
        consistent(q, graph.n_vertices as int, traversed(q, graph, p, bound)),
        balanced(p) ==> balanced(traversed(q, graph, p, bound)),
    decreases remaining(graph.n_vertices as int, p),
{
    if p.seeds.len() > 0 {
        let n = graph.n_vertices as int;
        let (d, v) = order::first(p.seeds);
        popping_keeps(q, n, p);
        if !stops(q, p, bound, d) {
            row_is_within(graph, v as int);
            scanning_all_keeps(q, n, popped(p), bound, graph.row(v as int));
            let (t, b) = scanned_all(q, popped(p), bound, graph.row(v as int));
            visited_is_bounded(n, t.visited);
            traversing_keeps(q, graph, t, b);
        }
    }
}

/// What a whole search comes to, and the generator: seeds from trees, random seeds for those that
/// are missing, and then the graph.
pub open spec fn finished(q: Quest, graph: SearchGraph, routes: Routes, rng: FastRng) -> (
    Progress,
    FastRng,
) {
    let (p, r) = rooted(q, routes, routes.count, rng);
    let (s, end) = scattered(q, p, graph.n_vertices as int, missing(q, p), r);
    (traversed(q, graph, s, (q.bound)(bounded::furthest(s.found, q.k))), end)
}

/// A search that has not begun is consistent.
pub proof fn beginning_is_consistent(q: Quest, n: int)
    ensures
        consistent(q, n, begun()),
        balanced(begun()),
{
    broadcast use vstd::multiset::group_multiset_axioms;

}

/// Every tree leads to points below `n`.
pub open spec fn lead_within(routes: Routes, n: int) -> bool {
    forall|t: int, r: FastRng|
        0 <= t < routes.count ==> routing::within(
            (#[trigger] (routes.route)(t, r)).leaves,
            (routes.indices)(t).len() as int,
        ) && forall|i: int|
            0 <= i < (routes.indices)(t).len() ==> #[trigger] (routes.indices)(t)[i] < n
}

pub(crate) proof fn rooting_keeps(q: Quest, n: int, routes: Routes, i: nat, rng: FastRng)
    requires
        lead_within(routes, n),
        i <= routes.count,
    ensures
        consistent(q, n, rooted(q, routes, i, rng).0),
        balanced(rooted(q, routes, i, rng).0),
    decreases i,
{
    if i == 0 {
        beginning_is_consistent(q, n);
    } else {
        let m = (i - 1) as nat;
        rooting_keeps(q, n, routes, m, rng);
        let (p, r) = rooted(q, routes, m, rng);
        let spill = (routes.route)(i - 1, r);
        seeding_leaves_keeps(q, n, p, (routes.indices)(i - 1), spill.leaves);
    }
}

/// What holds of a search at every step holds of what it comes to.
pub proof fn finishing_keeps(q: Quest, graph: SearchGraph, routes: Routes, rng: FastRng)
    requires
        graph.wf(),
        lead_within(routes, graph.n_vertices as int),
        q.k == 0 || graph.n_vertices > 0,
    ensures
        consistent(q, graph.n_vertices as int, finished(q, graph, routes, rng).0),
        balanced(finished(q, graph, routes, rng).0),
{
    let n = graph.n_vertices as int;
    rooting_keeps(q, n, routes, routes.count, rng);
    let (p, r) = rooted(q, routes, routes.count, rng);
    scattering_keeps(q, n, p, missing(q, p), r);
    let (s, end) = scattered(q, p, n, missing(q, p), r);
    traversing_keeps(q, graph, s, (q.bound)(bounded::furthest(s.found, q.k)));
}

/// The indices of results, nearest first.
pub open spec fn indices_of(p: Progress) -> Seq<i32> {
    order::in_order(p.found).map_values(|e: (Single, i32)| e.1)
}

/// The distances of results, nearest first.
pub open spec fn distances_of(p: Progress) -> Seq<Single> {
    order::in_order(p.found).map_values(|e: (Single, i32)| e.0)
}

/// What a search returns that comes to `s`: the results, nearest first, and the generator.
pub open spec fn yields(
    s: (Progress, FastRng),
    indices: Seq<i32>,
    distances: Seq<Single>,
    rng: FastRng,
) -> bool {
    &&& indices == indices_of(s.0)
    &&& distances == distances_of(s.0)
    &&& rng == s.1
}

/// What a search for indices alone returns that comes to `s`.
pub open spec fn yields_indices(
    s: (Progress, FastRng),
    indices: Seq<i32>,
    rng: FastRng,
) -> bool {
    &&& indices == indices_of(s.0)
    &&& rng == s.1
}

/// Results are different points, at their distances, nearest first, and no more than asked for.
pub open spec fn are_results(
    distance: spec_fn(int) -> Single,
    n: int,
    k: nat,
    indices: Seq<i32>,
    distances: Seq<Single>,
) -> bool {
    &&& indices.len() == distances.len()
    &&& indices.len() <= k
    &&& forall|i: int|
        0 <= i < indices.len() ==> 0 <= #[trigger] indices[i] < n && distances[i] == distance(
            indices[i] as int,
        )
    &&& forall|i: int, j: int|
        0 <= i < j < indices.len() ==> #[trigger] indices[i] != #[trigger] indices[j]
    &&& forall|i: int, j: int|
        0 <= i < j < distances.len() ==> (#[trigger] distances[i]).total() <= (
        #[trigger] distances[j]).total()
}

/// What a consistent search has found are results.
pub proof fn consistent_gives_results(q: Quest, n: int, p: Progress)
    requires
        consistent(q, n, p),
    ensures
        are_results(q.distance, n, q.k, indices_of(p), distances_of(p)),
        indices_of(p).len() == p.found.len(),
{
    order::in_order_exists(p.found);
    let s = order::in_order(p.found);
    s.to_multiset_ensures();
    assert forall|i: int| 0 <= i < s.len() implies p.found.contains(#[trigger] s[i]) && 0 <= s[i].1
        < n && s[i].0 == (q.distance)(s[i].1 as int) by {
        assert(s.contains(s[i]));
        assert(p.found.count(s[i]) > 0);
        assert(p.found.contains(s[i]));
        assert(p.visited.contains(s[i].1 as int));
        assert(set_int_range(0, n).contains(s[i].1 as int));
    }
    assert forall|i: int| 0 <= i < s.len() implies 0 <= #[trigger] indices_of(p)[i] < n
        && distances_of(p)[i] == (q.distance)(indices_of(p)[i] as int) by {
        assert(p.found.contains(s[i]));
    }
    assert forall|i: int, j: int| 0 <= i < j < s.len() implies #[trigger] indices_of(p)[i]
        != #[trigger] indices_of(p)[j] by {
        if s[i].1 == s[j].1 {
            assert(p.found.contains(s[i]) && p.found.contains(s[j]));
            assert(s[i] == s[j]);
            counted_twice(s, i, j);
            assert(p.found.count(s[i]) <= 1);
        }
    }
    assert forall|i: int, j: int| 0 <= i < j < s.len() implies (#[trigger] distances_of(
        p,
    )[i]).total() <= (#[trigger] distances_of(p)[j]).total() by {
        assert(order::key(s[i]) <= order::key(s[j]));
    }
}

proof fn counted_twice(s: Seq<(Single, i32)>, i: int, j: int)
    requires
        0 <= i < j < s.len(),
        s[i] == s[j],
    ensures
        s.to_multiset().count(s[i]) >= 2,
{
    broadcast use vstd::multiset::group_multiset_axioms;

    let t = s.remove(i);
    s.to_multiset_ensures();
    t.to_multiset_ensures();
    assert(t[j - 1] == s[j]);
    assert(t.contains(s[i]));
    assert(t.to_multiset().count(s[i]) > 0);
    assert(s.contains(s[i]));
    assert(s.to_multiset().count(s[i]) > 0);
}

} // verus!
