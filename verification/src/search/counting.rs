//! What the counts of a search tell, and how far they can go.

use crate::graph::SearchGraph;
use crate::heap::bounded;
use crate::heap::order;
use crate::rng::FastRng;
use crate::search::model;
use crate::single::Single;
use vstd::prelude::*;

verus! {

/// The counts fit in 64 bits. All the others are at most the number of points looked up.
pub open spec fn fits(c: model::Counts) -> bool {
    &&& c.visited_checks <= u64::MAX
    &&& c.neighbor_candidates_scanned <= u64::MAX
}

/// A search with counts `a` can go on to one with counts `b`.
pub open spec fn up_to(a: model::Counts, b: model::Counts) -> bool {
    &&& a.visited_checks <= b.visited_checks
    &&& a.neighbor_candidates_scanned <= b.neighbor_candidates_scanned
}

/// Taking points of a tree to start from only counts up, by one per point at most.
pub(crate) proof fn seeding_counts_up(q: model::Quest, p: model::Progress, ids: Seq<i32>, i: int)
    requires
        0 <= i <= ids.len(),
    ensures
        up_to(
            model::seeded_all(q, p, ids.take(i)).counts,
            model::seeded_all(q, p, ids).counts,
        ),
        up_to(p.counts, model::seeded_all(q, p, ids).counts),
        model::seeded_all(q, p, ids).counts.visited_checks <= p.counts.visited_checks + ids.len(),
        model::seeded_all(q, p, ids).counts.neighbor_candidates_scanned
            == p.counts.neighbor_candidates_scanned,
    decreases ids.len(),
{
    if ids.len() > 0 {
        let rest = ids.drop_last();
        if i < ids.len() {
            seeding_counts_up(q, p, rest, i);
            assert(rest.take(i) =~= ids.take(i));
        } else {
            seeding_counts_up(q, p, rest, 0);
            assert(ids.take(i) =~= ids);
        }
    } else {
        assert(ids.take(i) =~= ids);
    }
}

/// Taking points of some leaves to start from only counts up.
pub(crate) proof fn seeding_leaves_counts_up(
    q: model::Quest,
    p: model::Progress,
    indices: Seq<i32>,
    leaves: Seq<(usize, usize)>,
)
    ensures
        up_to(p.counts, model::seeded_leaves(q, p, indices, leaves).counts),
        model::seeded_leaves(q, p, indices, leaves).counts.neighbor_candidates_scanned
            == p.counts.neighbor_candidates_scanned,
    decreases leaves.len(),
{
    if leaves.len() > 0 {
        seeding_leaves_counts_up(q, p, indices, leaves.drop_last());
        seeding_counts_up(
            q,
            model::seeded_leaves(q, p, indices, leaves.drop_last()),
            indices.subrange(leaves.last().0 as int, leaves.last().1 as int),
            0,
        );
    }
}

/// Going through the trees only counts up.
pub(crate) proof fn rooting_counts_up(
    q: model::Quest,
    routes: model::Routes,
    i: nat,
    j: nat,
    rng: FastRng,
)
    requires
        i <= j,
    ensures
        up_to(
            model::rooted(q, routes, i, rng).0.counts,
            model::rooted(q, routes, j, rng).0.counts,
        ),
        model::rooted(q, routes, j, rng).0.counts.neighbor_candidates_scanned == 0,
    decreases j,
{
    if j > 0 {
        let m = (j - 1) as nat;
        if i < j {
            rooting_counts_up(q, routes, i, m, rng);
        } else {
            rooting_counts_up(q, routes, 0, m, rng);
        }
        let (p, r) = model::rooted(q, routes, m, rng);
        seeding_leaves_counts_up(
            q,
            p,
            (routes.indices)(j - 1),
            (routes.route)(j - 1, r).leaves,
        );
    }
}

/// Drawing random points only counts up, by one per draw at most.
pub(crate) proof fn scattering_counts_up(
    q: model::Quest,
    p: model::Progress,
    n: int,
    i: nat,
    j: nat,
    rng: FastRng,
)
    requires
        i <= j,
    ensures
        up_to(
            model::scattered(q, p, n, i, rng).0.counts,
            model::scattered(q, p, n, j, rng).0.counts,
        ),
        up_to(p.counts, model::scattered(q, p, n, j, rng).0.counts),
        model::scattered(q, p, n, j, rng).0.counts.visited_checks <= p.counts.visited_checks + j,
        model::scattered(q, p, n, j, rng).0.counts.neighbor_candidates_scanned
            == p.counts.neighbor_candidates_scanned,
    decreases j,
{
    if j > 0 {
        let m = (j - 1) as nat;
        if i < j {
            scattering_counts_up(q, p, n, i, m, rng);
        } else {
            scattering_counts_up(q, p, n, 0, m, rng);
        }
    }
}

/// Looking at neighbors only counts up, by one per neighbor.
pub(crate) proof fn scanning_counts_up(
    q: model::Quest,
    p: model::Progress,
    bound: Single,
    row: Seq<i32>,
    i: int,
)
    requires
        0 <= i <= row.len(),
    ensures
        up_to(
            model::scanned_all(q, p, bound, row.take(i)).0.counts,
            model::scanned_all(q, p, bound, row).0.counts,
        ),
        up_to(p.counts, model::scanned_all(q, p, bound, row).0.counts),
        model::scanned_all(q, p, bound, row).0.counts.visited_checks <= p.counts.visited_checks
            + row.len(),
        model::scanned_all(q, p, bound, row).0.counts.neighbor_candidates_scanned
            == p.counts.neighbor_candidates_scanned + row.len(),
        model::scanned_all(q, p, bound, row).0.counts.seed_pops == p.counts.seed_pops,
    decreases row.len(),
{
    if row.len() > 0 {
        let rest = row.drop_last();
        if i < row.len() {
            scanning_counts_up(q, p, bound, rest, i);
            assert(rest.take(i) =~= row.take(i));
        } else {
            scanning_counts_up(q, p, bound, rest, 0);
            assert(row.take(i) =~= row);
        }
    } else {
        assert(row.take(i) =~= row);
    }
}

/// Going through the graph only counts up; it takes no more looks at neighbors than every vertex
/// could take at all entries of the graph, and no more lookups than such looks.
pub(crate) proof fn traversing_counts_up(
    q: model::Quest,
    graph: SearchGraph,
    p: model::Progress,
    bound: Single,
)
    requires
        graph.wf(),
        model::consistent(q, graph.n_vertices as int, p),
    ensures
        up_to(p.counts, model::traversed(q, graph, p, bound).counts),
        ({
            let end = model::traversed(q, graph, p, bound).counts;
            let looks = model::remaining(graph.n_vertices as int, p) * graph.indices@.len();
            &&& end.neighbor_candidates_scanned <= p.counts.neighbor_candidates_scanned + looks
            &&& end.visited_checks <= p.counts.visited_checks + looks
        }),
    decreases model::remaining(graph.n_vertices as int, p),
{
    let n = graph.n_vertices as int;
    let entries = graph.indices@.len() as int;
    let turns = model::remaining(n, p);
    model::visited_stays_within(q, n, p);
    assert(turns * entries >= 0) by (nonlinear_arith)
        requires
            turns >= 0,
            entries >= 0,
    ;
    if p.seeds.len() > 0 {
        let (d, v) = order::first(p.seeds);
        let s = model::popped(p);
        model::popping_keeps(q, n, p);
        if !model::stops(q, p, bound, d) {
            let row = graph.row(v as int);
            let (t, b) = model::scanned_all(q, s, bound, row);
            model::row_is_within(graph, v as int);
            model::scanning_all_keeps(q, n, s, bound, row);
            model::visited_stays_within(q, n, t);
            scanning_counts_up(q, s, bound, row, 0);
            traversing_counts_up(q, graph, t, b);
            let fewer = model::remaining(n, t);
            assert(fewer * entries + entries <= turns * entries) by (nonlinear_arith)
                requires
                    fewer + 1 <= turns,
                    entries >= 0,
            ;
        }
    }
}

/// The number of point indices in the first `i` trees.
pub open spec fn entries(routes: model::Routes, i: nat) -> nat
    decreases i,
{
    if i == 0 {
        0
    } else {
        entries(routes, (i - 1) as nat) + (routes.indices)(i - 1).len()
    }
}

proof fn rooting_counts_entries(
    q: model::Quest,
    n: int,
    routes: model::Routes,
    i: nat,
    rng: FastRng,
)
    requires
        i <= routes.count,
        model::lead_within(routes, n),
        forall|t: int, r: FastRng|
            0 <= t < routes.count ==> (#[trigger] (routes.route)(t, r)).leaves.len() <= 1,
    ensures
        model::rooted(q, routes, i, rng).0.counts.visited_checks <= entries(routes, i),
    decreases i,
{
    if i > 0 {
        let m = (i - 1) as nat;
        rooting_counts_entries(q, n, routes, m, rng);
        let (p, r) = model::rooted(q, routes, m, rng);
        let indices = (routes.indices)(i - 1);
        let leaves = (routes.route)(i - 1, r).leaves;
        if leaves.len() > 0 {
            assert(leaves.drop_last() =~= Seq::empty());
            assert(leaves[0].0 <= leaves[0].1 <= indices.len());
            reveal_with_fuel(model::seeded_leaves, 2);
            seeding_counts_up(
                q,
                p,
                indices.subrange(leaves.last().0 as int, leaves.last().1 as int),
                0,
            );
        }
    }
}

/// The counts of a search that enters every tree at one leaf fit in 64 bits, unless the trees
/// hold, and the results asked for are, more than any machine has room for.
pub proof fn counts_fit(
    q: model::Quest,
    graph: SearchGraph,
    routes: model::Routes,
    rng: FastRng,
)
    requires
        graph.wf(),
        q.k == 0 || graph.n_vertices > 0,
        model::lead_within(routes, graph.n_vertices as int),
        forall|t: int, r: FastRng|
            0 <= t < routes.count ==> (#[trigger] (routes.route)(t, r)).leaves.len() <= 1,
        entries(routes, routes.count) + q.k <= 0xc000_0000_0000_0000,
    ensures
        fits(model::finished(q, graph, routes, rng).0.counts),
{
    let n = graph.n_vertices as int;
    let (p, r) = model::rooted(q, routes, routes.count, rng);
    let (s, end) = model::scattered(q, p, n, model::missing(q, p), r);
    let bound = (q.bound)(bounded::furthest(s.found, q.k));
    rooting_counts_entries(q, n, routes, routes.count, rng);
    rooting_counts_up(q, routes, 0, routes.count, rng);
    scattering_counts_up(q, p, n, 0, model::missing(q, p), r);
    model::rooting_keeps(q, n, routes, routes.count, rng);
    model::scattering_keeps(q, n, p, model::missing(q, p), r);
    model::visited_stays_within(q, n, s);
    traversing_counts_up(q, graph, s, bound);
    let turns = model::remaining(n, s);
    let edges = graph.indices@.len() as int;
    assert(turns * edges <= 0x4000_0000_0000_0000 - 1) by (nonlinear_arith)
        requires
            0 <= turns <= 0x7fff_ffff,
            0 <= edges <= 0x7fff_ffff,
    ;
}

/// Every neighbor entry that is looked at counts, and every one that is no placeholder is looked up
/// once; nothing counts as a point to start from.
pub proof fn scanning_counts_every_entry(
    q: model::Quest,
    p: model::Progress,
    bound: Single,
    row: Seq<i32>,
)
    ensures
        ({
            let c = model::scanned_all(q, p, bound, row).0.counts;
            &&& c.neighbor_candidates_scanned == p.counts.neighbor_candidates_scanned + row.len()
            &&& c.visited_checks == p.counts.visited_checks + row.filter(|v: i32| v >= 0).len()
            &&& c.tree_seed_candidates == p.counts.tree_seed_candidates
            &&& c.random_seed_candidates == p.counts.random_seed_candidates
            &&& c.seed_pops == p.counts.seed_pops
        }),
    decreases row.len(),
{
    reveal(Seq::filter);
    if row.len() > 0 {
        scanning_counts_every_entry(q, p, bound, row.drop_last());
    }
}

/// All points visited so far were taken from trees.
spec fn all_from_trees(p: model::Progress) -> bool {
    &&& p.counts.tree_seed_candidates == p.counts.distance_evaluations
    &&& p.counts.random_seed_candidates == 0
    &&& p.counts.neighbor_candidates_scanned == 0
    &&& p.counts.seed_pops == 0
}

proof fn seeding_all_counts_trees(q: model::Quest, p: model::Progress, ids: Seq<i32>)
    requires
        all_from_trees(p),
    ensures
        all_from_trees(model::seeded_all(q, p, ids)),
    decreases ids.len(),
{
    if ids.len() > 0 {
        seeding_all_counts_trees(q, p, ids.drop_last());
    }
}

proof fn seeding_leaves_counts_trees(
    q: model::Quest,
    p: model::Progress,
    indices: Seq<i32>,
    leaves: Seq<(usize, usize)>,
)
    requires
        all_from_trees(p),
    ensures
        all_from_trees(model::seeded_leaves(q, p, indices, leaves)),
    decreases leaves.len(),
{
    if leaves.len() > 0 {
        let s = model::seeded_leaves(q, p, indices, leaves.drop_last());
        seeding_leaves_counts_trees(q, p, indices, leaves.drop_last());
        seeding_all_counts_trees(
            q,
            s,
            indices.subrange(leaves.last().0 as int, leaves.last().1 as int),
        );
    }
}

proof fn rooting_counts_trees(q: model::Quest, routes: model::Routes, i: nat, rng: FastRng)
    ensures
        all_from_trees(model::rooted(q, routes, i, rng).0),
    decreases i,
{
    if i > 0 {
        let m = (i - 1) as nat;
        let (p, r) = model::rooted(q, routes, m, rng);
        rooting_counts_trees(q, routes, m, rng);
        seeding_leaves_counts_trees(
            q,
            p,
            (routes.indices)(i - 1),
            (routes.route)(i - 1, r).leaves,
        );
    }
}

proof fn scattering_counts_draws(
    q: model::Quest,
    p: model::Progress,
    n: int,
    m: nat,
    rng: FastRng,
)
    requires
        all_from_trees(p),
    ensures
        ({
            let c = model::scattered(q, p, n, m, rng).0.counts;
            &&& c.tree_seed_candidates == p.counts.distance_evaluations
            &&& c.random_seed_candidates == c.distance_evaluations - p.counts.distance_evaluations
            &&& c.neighbor_candidates_scanned == 0
            &&& c.seed_pops == 0
        }),
    decreases m,
{
    if m > 0 {
        scattering_counts_draws(q, p, n, (m - 1) as nat, rng);
    }
}

proof fn traversing_counts_no_seeds(
    q: model::Quest,
    graph: SearchGraph,
    p: model::Progress,
    bound: Single,
)
    requires
        graph.wf(),
        model::consistent(q, graph.n_vertices as int, p),
    ensures
        ({
            let c = model::traversed(q, graph, p, bound).counts;
            &&& c.tree_seed_candidates == p.counts.tree_seed_candidates
            &&& c.random_seed_candidates == p.counts.random_seed_candidates
        }),
    decreases model::remaining(graph.n_vertices as int, p),
{
    if p.seeds.len() > 0 {
        let n = graph.n_vertices as int;
        let (d, v) = order::first(p.seeds);
        let s = model::popped(p);
        model::popping_keeps(q, n, p);
        if !model::stops(q, p, bound, d) {
            let row = graph.row(v as int);
            model::row_is_within(graph, v as int);
            model::scanning_all_keeps(q, n, s, bound, row);
            scanning_counts_every_entry(q, s, bound, row);
            let (t, b) = model::scanned_all(q, s, bound, row);
            model::visited_stays_within(q, n, t);
            traversing_counts_no_seeds(q, graph, t, b);
        }
    }
}

/// The counts tell where a search started: at as many points of trees as it has visited after the
/// last tree, and at as many random points as it has visited beyond these before it goes through
/// the graph.
pub proof fn counts_tell_the_start(
    q: model::Quest,
    graph: SearchGraph,
    routes: model::Routes,
    rng: FastRng,
)
    requires
        graph.wf(),
        model::lead_within(routes, graph.n_vertices as int),
        q.k == 0 || graph.n_vertices > 0,
    ensures
        ({
            let (roots, r) = model::rooted(q, routes, routes.count, rng);
            let start = model::scattered(
                q,
                roots,
                graph.n_vertices as int,
                model::missing(q, roots),
                r,
            ).0;
            let p = model::finished(q, graph, routes, rng).0;
            &&& p.counts.tree_seed_candidates == roots.visited.len()
            &&& p.counts.random_seed_candidates == start.visited.len() - roots.visited.len()
            &&& p.counts.distance_evaluations == p.visited.len()
        }),
{
    let n = graph.n_vertices as int;
    let (roots, r) = model::rooted(q, routes, routes.count, rng);
    let m = model::missing(q, roots);
    let start = model::scattered(q, roots, n, m, r).0;
    model::rooting_keeps(q, n, routes, routes.count, rng);
    model::scattering_keeps(q, n, roots, m, r);
    rooting_counts_trees(q, routes, routes.count, rng);
    scattering_counts_draws(q, roots, n, m, r);
    traversing_counts_no_seeds(q, graph, start, (q.bound)(bounded::furthest(start.found, q.k)));
    model::finishing_keeps(q, graph, routes, rng);
}

} // verus!
