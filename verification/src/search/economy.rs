//! How little a search visits: only where it starts, and the neighbors of what it goes on from.

use crate::graph::SearchGraph;
use crate::heap::bounded;
use crate::heap::order;
use crate::rng::FastRng;
use crate::search::coverage;
use crate::search::model;
use crate::single::Single;
use vstd::prelude::*;

verus! {

/// `v` is one of the points of some leaves.
pub open spec fn in_a_leaf(indices: Seq<i32>, leaves: Seq<(usize, usize)>, v: int) -> bool {
    exists|l: int, e: int|
        0 <= l < leaves.len() && (#[trigger] leaves[l]).0 <= e < leaves[l].1
            && #[trigger] indices[e] == v
}

/// `v` is a point of a leaf that tree `t` routes the query to with some coin tosses.
pub open spec fn in_tree(routes: model::Routes, t: int, v: int) -> bool {
    exists|r: FastRng| in_a_leaf((routes.indices)(t), (#[trigger] (routes.route)(t, r)).leaves, v)
}

/// `v` is a point of a leaf that some tree routes the query to.
pub open spec fn in_some_tree(routes: model::Routes, v: int) -> bool {
    exists|t: int| 0 <= t < routes.count && #[trigger] in_tree(routes, t, v)
}

/// `v` is among the first `m` of what is drawn.
pub open spec fn is_drawn(rng: FastRng, n: int, m: nat, v: int) -> bool {
    exists|i: nat| i < m && (#[trigger] rng.after(i)).drawn(n) == v
}

/// `v` is a neighbor of a visited point `u`, which is within `limit` where there is one.
pub open spec fn leads_to(
    graph: SearchGraph,
    distance: spec_fn(int) -> Single,
    limit: Option<Single>,
    visited: Set<int>,
    u: int,
    v: int,
) -> bool {
    &&& visited.contains(u)
    &&& graph.row(u).contains(v as i32)
    &&& limit matches Some(far) ==> !distance(u).at_least(far)
}

/// Everything visited is in `start`, or a neighbor of something visited within the limit.
pub open spec fn sourced(
    graph: SearchGraph,
    distance: spec_fn(int) -> Single,
    limit: Option<Single>,
    start: Set<int>,
    visited: Set<int>,
) -> bool {
    forall|v: int| #[trigger]
        visited.contains(v) && !start.contains(v) ==> exists|u: int| #[trigger]
            leads_to(graph, distance, limit, visited, u, v)
}

/// What is asked of distances and bounds so that a search keeps to the bound that it sets out with:
/// they are numbers, and bounds reach no further for nearer results.
pub open spec fn restrains(
    bound: spec_fn(Single) -> Single,
    distance: spec_fn(int) -> Single,
    n: int,
) -> bool {
    &&& coverage::numbers(distance, n)
    &&& coverage::widens(bound)
    &&& forall|v: int| 0 <= v < n ==> !bound(#[trigger] distance(v)).nan()
}

proof fn seeding_all_adds(q: model::Quest, p: model::Progress, ids: Seq<i32>, v: int)
    requires
        model::seeded_all(q, p, ids).visited.contains(v),
    ensures
        p.visited.contains(v) || exists|e: int| 0 <= e < ids.len() && #[trigger] ids[e] == v,
    decreases ids.len(),
{
    if ids.len() > 0 {
        let rest = ids.drop_last();
        if model::seeded_all(q, p, rest).visited.contains(v) {
            seeding_all_adds(q, p, rest, v);
            if !p.visited.contains(v) {
                let e = choose|e: int| 0 <= e < rest.len() && #[trigger] rest[e] == v;
                assert(ids[e] == v);
            }
        } else {
            assert(ids[ids.len() - 1] == v);
        }
    }
}

proof fn seeding_leaves_adds(
    q: model::Quest,
    p: model::Progress,
    indices: Seq<i32>,
    leaves: Seq<(usize, usize)>,
    v: int,
)
    requires
        forall|l: int|
            0 <= l < leaves.len() ==> (#[trigger] leaves[l]).0 <= leaves[l].1 <= indices.len(),
        model::seeded_leaves(q, p, indices, leaves).visited.contains(v),
    ensures
        p.visited.contains(v) || in_a_leaf(indices, leaves, v),
    decreases leaves.len(),
{
    if leaves.len() > 0 {
        let rest = leaves.drop_last();
        let s = model::seeded_leaves(q, p, indices, rest);
        let last = leaves.last();
        assert(leaves[leaves.len() - 1] == last);
        let ids = indices.subrange(last.0 as int, last.1 as int);
        assert forall|l: int| 0 <= l < rest.len() implies (#[trigger] rest[l]).0 <= rest[l].1
            <= indices.len() by {
            assert(rest[l] == leaves[l]);
        }
        if s.visited.contains(v) {
            seeding_leaves_adds(q, p, indices, rest, v);
            if !p.visited.contains(v) {
                let (l, e) = choose|l: int, e: int|
                    0 <= l < rest.len() && (#[trigger] rest[l]).0 <= e < rest[l].1
                        && #[trigger] indices[e] == v;
                assert(leaves[l] == rest[l]);
                assert(indices[e] == v);
            }
        } else {
            seeding_all_adds(q, s, ids, v);
            let e = choose|e: int| 0 <= e < ids.len() && #[trigger] ids[e] == v;
            assert(indices[last.0 + e] == v);
            assert(leaves[leaves.len() - 1].0 <= last.0 + e < leaves[leaves.len() - 1].1);
        }
    }
}

proof fn rooting_adds(
    q: model::Quest,
    n: int,
    routes: model::Routes,
    i: nat,
    rng: FastRng,
    v: int,
)
    requires
        model::lead_within(routes, n),
        i <= routes.count,
        model::rooted(q, routes, i, rng).0.visited.contains(v),
    ensures
        in_some_tree(routes, v),
    decreases i,
{
    if i > 0 {
        let t = i - 1;
        let (p, r) = model::rooted(q, routes, (i - 1) as nat, rng);
        let leaves = (routes.route)(t, r).leaves;
        if p.visited.contains(v) {
            rooting_adds(q, n, routes, (i - 1) as nat, rng, v);
        } else {
            seeding_leaves_adds(q, p, (routes.indices)(t), leaves, v);
            assert(in_a_leaf((routes.indices)(t), (routes.route)(t, r).leaves, v));
            assert(in_tree(routes, t, v));
        }
    }
}

proof fn scattering_adds(
    q: model::Quest,
    p: model::Progress,
    n: int,
    m: nat,
    rng: FastRng,
    v: int,
)
    requires
        0 <= n <= i32::MAX,
        m > 0 ==> n > 0,
        model::scattered(q, p, n, m, rng).0.visited.contains(v),
    ensures
        p.visited.contains(v) || is_drawn(rng, n, m, v),
    decreases m,
{
    if m > 0 {
        let before = (m - 1) as nat;
        let (s, r) = model::scattered(q, p, n, before, rng);
        scattered_steps(q, p, n, before, rng);
        rng.after_steps(before);
        if s.visited.contains(v) {
            scattering_adds(q, p, n, before, rng, v);
            if !p.visited.contains(v) {
                let i = choose|i: nat| i < before && (#[trigger] rng.after(i)).drawn(n) == v;
                assert(i < m && rng.after(i).drawn(n) == v);
            }
        } else {
            assert(0 <= r.drawn(n) < n);
            assert(rng.after(before).drawn(n) == v);
        }
    }
}

proof fn scattered_steps(q: model::Quest, p: model::Progress, n: int, m: nat, rng: FastRng)
    ensures
        model::scattered(q, p, n, m, rng).1 == rng.after(m),
    decreases m,
{
    if m > 0 {
        scattered_steps(q, p, n, (m - 1) as nat, rng);
        rng.after_steps((m - 1) as nat);
    }
}

/// What holds of a search while it goes through the graph; `limit` is the bound that it set out
/// with, where that is to be kept to.
spec fn on_course(
    q: model::Quest,
    graph: SearchGraph,
    limit: Option<Single>,
    start: model::Progress,
    p: model::Progress,
    bound: Single,
) -> bool {
    &&& model::consistent(q, graph.n_vertices as int, p)
    &&& bound == (q.bound)(bounded::furthest(p.found, q.k))
    &&& start.visited.subset_of(p.visited)
    &&& sourced(graph, q.distance, limit, start.visited, p.visited)
    &&& limit matches Some(far) ==> {
        &&& q.k > 0
        &&& p.found.len() == q.k
        &&& restrains(q.bound, q.distance, graph.n_vertices as int)
        &&& far == (q.bound)(bounded::furthest(start.found, q.k))
        &&& !bounded::furthest(start.found, q.k).nan()
        &&& bounded::furthest(p.found, q.k).total() <= bounded::furthest(
            start.found,
            q.k,
        ).total()
    }
}

proof fn scanning_stays_on_course(
    q: model::Quest,
    graph: SearchGraph,
    limit: Option<Single>,
    start: model::Progress,
    p: model::Progress,
    bound: Single,
    idx: i32,
    u: int,
)
    requires
        graph.wf(),
        on_course(q, graph, limit, start, p, bound),
        idx < graph.n_vertices,
        graph.row(u).contains(idx),
        p.visited.contains(u),
        limit matches Some(far) ==> !(q.distance)(u).at_least(far),
    ensures
        ({
            let (s, b) = model::scanned(q, p, bound, idx);
            on_course(q, graph, limit, start, s, b) && p.visited.subset_of(s.visited)
        }),
{
    broadcast use vstd::multiset::group_multiset_axioms;

    let n = graph.n_vertices as int;
    let (s, b) = model::scanned(q, p, bound, idx);
    model::scanning_keeps(q, n, p, bound, idx);
    assert forall|v: int| #[trigger]
        s.visited.contains(v) && !start.visited.contains(v) implies exists|w: int| #[trigger]
        leads_to(graph, q.distance, limit, s.visited, w, v) by {
        if p.visited.contains(v) {
            let w = choose|w: int| #[trigger]
                leads_to(graph, q.distance, limit, p.visited, w, v);
            assert(leads_to(graph, q.distance, limit, s.visited, w, v));
        } else {
            assert(v == idx);
            assert(leads_to(graph, q.distance, limit, s.visited, u, v));
        }
    }
    if q.k > 0 && p.found.len() == q.k {
        order::last_exists(p.found);
    }
    if limit is Some && idx >= 0 && !p.visited.contains(idx as int) {
        coverage::found_are_numbers(q, n, p);
        assert(!(q.distance)(idx as int).nan());
        coverage::offering_draws_in(p.found, q.k, ((q.distance)(idx as int), idx));
    }
}

proof fn scanning_all_stays_on_course(
    q: model::Quest,
    graph: SearchGraph,
    limit: Option<Single>,
    start: model::Progress,
    p: model::Progress,
    bound: Single,
    row: Seq<i32>,
    u: int,
)
    requires
        graph.wf(),
        on_course(q, graph, limit, start, p, bound),
        forall|i: int|
            0 <= i < row.len() ==> #[trigger] row[i] < graph.n_vertices && graph.row(u).contains(
                row[i],
            ),
        p.visited.contains(u),
        limit matches Some(far) ==> !(q.distance)(u).at_least(far),
    ensures
        ({
            let (s, b) = model::scanned_all(q, p, bound, row);
            on_course(q, graph, limit, start, s, b) && p.visited.subset_of(s.visited)
        }),
    decreases row.len(),
{
    if row.len() > 0 {
        let rest = row.drop_last();
        assert forall|i: int| 0 <= i < rest.len() implies #[trigger] rest[i] < graph.n_vertices
            && graph.row(u).contains(rest[i]) by {
            assert(row[i] == rest[i]);
        }
        scanning_all_stays_on_course(q, graph, limit, start, p, bound, rest, u);
        let (s, b) = model::scanned_all(q, p, bound, rest);
        assert(row[row.len() - 1] == row.last());
        scanning_stays_on_course(q, graph, limit, start, s, b, row.last(), u);
    }
}

proof fn traversing_stays_on_course(
    q: model::Quest,
    graph: SearchGraph,
    limit: Option<Single>,
    start: model::Progress,
    p: model::Progress,
    bound: Single,
)
    requires
        graph.wf(),
        on_course(q, graph, limit, start, p, bound),
    ensures
        sourced(
            graph,
            q.distance,
            limit,
            start.visited,
            model::traversed(q, graph, p, bound).visited,
        ),
    decreases model::remaining(graph.n_vertices as int, p),
{
    broadcast use vstd::multiset::group_multiset_axioms;

    let n = graph.n_vertices as int;
    if p.seeds.len() > 0 {
        order::first_exists(p.seeds);
        let (d, v) = order::first(p.seeds);
        let s = model::popped(p);
        model::popping_keeps(q, n, p);
        if !model::stops(q, p, bound, d) {
            let row = graph.row(v as int);
            assert(p.seeds.contains((d, v)));
            assert(p.visited.contains(v as int));
            assert(vstd::set_lib::set_int_range(0, n).contains(v as int));
            model::row_is_within(graph, v as int);
            if let Some(far) = limit {
                coverage::found_are_numbers(q, n, p);
                order::last_exists(p.found);
                let x = order::last(p.found);
                assert(p.visited.contains(x.1 as int));
                assert(vstd::set_lib::set_int_range(0, n).contains(x.1 as int));
                assert(bounded::furthest(p.found, q.k) == (q.distance)(x.1 as int));
                assert(!bound.nan());
                assert(!d.nan());
                assert(d.below(bound));
                assert(d.below(far));
            }
            assert(on_course(q, graph, limit, start, s, bound));
            assert forall|i: int| 0 <= i < row.len() implies #[trigger] row[i]
                < graph.n_vertices && graph.row(v as int).contains(row[i]) by {}
            scanning_all_stays_on_course(q, graph, limit, start, s, bound, row, v as int);
            let (t, b) = model::scanned_all(q, s, bound, row);
            model::scanning_all_keeps(q, n, s, bound, row);
            model::visited_stays_within(q, n, t);
            traversing_stays_on_course(q, graph, limit, start, t, b);
        }
    }
}

/// A search with these routes visits no more than it has to.
///
/// It starts at points of the leaves that the query is routed to, and, where these are fewer than
/// `k`, at as many random points as are missing. All else that it visits is a neighbor of a visited
/// point; and where it has `k` results when it sets out, of one within the bound that belongs to
/// the furthest of them, if bounds reach no further for nearer results.
pub open spec fn economical(
    q: model::Quest,
    graph: SearchGraph,
    routes: model::Routes,
    rng: FastRng,
    visited: Set<int>,
) -> bool {
    let n = graph.n_vertices as int;
    let (roots, r) = model::rooted(q, routes, routes.count, rng);
    let start = coverage::entry(q, graph, routes, rng);
    let far = (q.bound)(bounded::furthest(start.found, q.k));
    &&& forall|v: int| #[trigger]
        start.visited.contains(v) ==> in_some_tree(routes, v) || is_drawn(
            r,
            n,
            if roots.visited.len() < q.k {
                (q.k - roots.visited.len()) as nat
            } else {
                0
            },
            v,
        )
    &&& sourced(graph, q.distance, None, start.visited, visited)
    &&& q.k > 0 && start.found.len() == q.k && restrains(q.bound, q.distance, n) ==> sourced(
        graph,
        q.distance,
        Some(far),
        start.visited,
        visited,
    )
}

/// A search visits no more than it has to.
pub proof fn searches_are_economical(
    q: model::Quest,
    graph: SearchGraph,
    routes: model::Routes,
    rng: FastRng,
)
    requires
        graph.wf(),
        model::lead_within(routes, graph.n_vertices as int),
        q.k == 0 || graph.n_vertices > 0,
    ensures
        economical(q, graph, routes, rng, model::finished(q, graph, routes, rng).0.visited),
{
    let n = graph.n_vertices as int;
    let (roots, r) = model::rooted(q, routes, routes.count, rng);
    let start = coverage::entry(q, graph, routes, rng);
    let bound = (q.bound)(bounded::furthest(start.found, q.k));
    let m = model::missing(q, roots);
    coverage::searches_are_thorough(q, graph, routes, rng);
    coverage::entering_is_consistent(q, graph, routes, rng);
    assert forall|v: int| #[trigger] start.visited.contains(v) implies in_some_tree(routes, v)
        || is_drawn(r, n, m, v) by {
        scattering_adds(q, roots, n, m, r, v);
        if roots.visited.contains(v) {
            rooting_adds(q, n, routes, routes.count, rng, v);
        }
    }
    assert(on_course(q, graph, None, start, start, bound));
    traversing_stays_on_course(q, graph, None, start, start, bound);
    if q.k > 0 && start.found.len() == q.k && restrains(q.bound, q.distance, n) {
        coverage::found_are_numbers(q, n, start);
        order::last_exists(start.found);
        assert(start.found.contains(order::last(start.found)));
        assert(on_course(q, graph, Some(bound), start, start, bound));
        traversing_stays_on_course(q, graph, Some(bound), start, start, bound);
    }
}

} // verus!
