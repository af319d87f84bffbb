//! What a search leaves behind: how far it has looked, and that it has missed nothing on the way.

use crate::graph::SearchGraph;
use crate::heap::bounded;
use crate::heap::order;
use crate::rng::FastRng;
use crate::search::model;
use crate::single::Single;
use crate::tree::routing;
use vstd::multiset::Multiset;
use vstd::prelude::*;

verus! {

/// Every neighbor of `v` has been visited.
pub open spec fn looked_around(graph: SearchGraph, visited: Set<int>, v: int) -> bool {
    forall|j: int|
        0 <= j < graph.row(v).len() && #[trigger] graph.row(v)[j] >= 0 ==> visited.contains(
            graph.row(v)[j] as int,
        )
}

/// How far a search has to look once it has these results: by the furthest of `k` of them, or
/// without a limit of their own while there are fewer.
pub open spec fn reach(bound: spec_fn(Single) -> Single, k: nat, distances: Seq<Single>) -> Single {
    bound(
        if distances.len() < k || k == 0 {
            Single::spec_infinity()
        } else {
            distances[distances.len() - 1]
        },
    )
}

/// What is nearer than `f` is within the bound that belongs to `f`.
pub open spec fn covers(bound: spec_fn(Single) -> Single, f: Single) -> bool {
    forall|d: Single| #[trigger] d.below(f) ==> d.below(bound(f))
}

/// Of two bounds, the one that belongs to a further result reaches no less far.
pub open spec fn widens(bound: spec_fn(Single) -> Single) -> bool {
    forall|f: Single, g: Single, d: Single|
        !f.nan() && !g.nan() && f.total() <= g.total() && #[trigger] d.below(
            #[trigger] bound(f),
        ) ==> d.below(#[trigger] bound(g))
}

/// No point among `n` has a distance that is NaN.
pub open spec fn numbers(distance: spec_fn(int) -> Single, n: int) -> bool {
    forall|v: int| 0 <= v < n ==> !(#[trigger] distance(v)).nan()
}

spec fn pending(q: model::Quest, p: model::Progress, v: int) -> bool {
    p.seeds.contains(((q.distance)(v), v as i32))
}

spec fn handled(q: model::Quest, graph: SearchGraph, p: model::Progress, v: int) -> bool {
    pending(q, p, v) || looked_around(graph, p.visited, v)
}

/// All results but `u` are to be gone on from, or have been.
spec fn results_handled(
    q: model::Quest,
    graph: SearchGraph,
    p: model::Progress,
    u: Option<int>,
) -> bool {
    forall|e: (Single, i32)| #[trigger]
        p.found.contains(e) ==> u == Some(e.1 as int) || handled(q, graph, p, e.1 as int)
}

/// All visited points within the bound but `u` are to be gone on from, or have been.
spec fn near_handled(
    q: model::Quest,
    graph: SearchGraph,
    p: model::Progress,
    bound: Single,
    u: Option<int>,
) -> bool {
    forall|v: int| #[trigger]
        p.visited.contains(v) && (q.distance)(v).below(bound) ==> u == Some(v) || handled(
            q,
            graph,
            p,
            v,
        )
}

/// No visited point that is nearer than the furthest result is missing from the results.
spec fn none_missed(q: model::Quest, p: model::Progress) -> bool {
    forall|v: int| #[trigger]
        p.visited.contains(v) && (q.distance)(v).below(bounded::furthest(p.found, q.k))
            ==> p.found.contains(((q.distance)(v), v as i32))
}

proof fn looking_on(graph: SearchGraph, a: Set<int>, b: Set<int>, v: int)
    requires
        a.subset_of(b),
        looked_around(graph, a, v),
    ensures
        looked_around(graph, b, v),
{
}

proof fn ranks_follow_totals(a: Single, b: Single)
    requires
        !a.nan(),
        !b.nan(),
        a.total() <= b.total(),
    ensures
        a.rank() <= b.rank(),
{
}

/// An offer to the results leaves the furthest no further, and drops nothing nearer than that.
pub(crate) proof fn offering_draws_in(m: Multiset<(Single, i32)>, k: nat, e: (Single, i32))
    requires
        m.len() <= k,
        k > 0,
        !e.0.nan(),
        forall|x: (Single, i32)| #[trigger] m.contains(x) ==> !x.0.nan(),
    ensures
        bounded::furthest(bounded::pushed(m, k, e), k).total() <= bounded::furthest(m, k).total(),
        !bounded::furthest(bounded::pushed(m, k, e), k).nan(),
        !bounded::furthest(m, k).nan(),
        forall|x: (Single, i32)|
            (m.contains(x) || x == e) && x.0.below(
                bounded::furthest(bounded::pushed(m, k, e), k),
            ) ==> #[trigger] bounded::pushed(m, k, e).contains(x),
{
    broadcast use vstd::multiset::group_multiset_axioms;

    let after = bounded::pushed(m, k, e);
    if m.len() == k {
        order::last_exists(m);
        assert(m.contains(order::last(m)));
    }
    if after.len() >= k {
        order::last_exists(after);
        assert(after.contains(order::last(after)));
        assert(m.contains(order::last(after)) || order::last(after) == e);
        if m.len() == k && m.contains(order::last(after)) {
            assert(order::key(order::last(after)) <= order::key(order::last(m)));
        }
    }
    assert forall|x: (Single, i32)|
        (m.contains(x) || x == e) && x.0.below(bounded::furthest(after, k)) implies
        #[trigger] after.contains(x) by {
        if !after.contains(x) {
            assert(m.len() == k);
            if bounded::admits(m, k, e.0) {
                assert(after.contains(e));
                assert(x == order::last(m));
                assert(order::last(after).0.total() <= x.0.total());
                ranks_follow_totals(order::last(after).0, x.0);
            } else {
                assert(x == e);
                ranks_follow_totals(order::last(m).0, e.0);
            }
        }
    }
}

/// What holds of a search before it goes through the graph: every point that it has visited is to
/// be gone on from, and none that belongs to the results is missing.
spec fn primed(q: model::Quest, n: int, p: model::Progress) -> bool {
    &&& forall|v: int| #[trigger] p.visited.contains(v) ==> pending(q, p, v)
    &&& p.visited.finite()
    &&& p.seeds.len() == p.visited.len()
    &&& p.found.len() == if p.visited.len() < q.k {
        p.visited.len()
    } else {
        q.k
    }
    &&& q.k > 0 && numbers(q.distance, n) ==> none_missed(q, p)
}

proof fn seeding_primes(q: model::Quest, n: int, p: model::Progress, idx: i32, from_tree: bool)
    requires
        model::consistent(q, n, p),
        primed(q, n, p),
        idx < n,
    ensures
        primed(q, n, model::seeded(q, p, idx, from_tree)),
        p.visited.subset_of(model::seeded(q, p, idx, from_tree).visited),
        idx >= 0 ==> model::seeded(q, p, idx, from_tree).visited.contains(idx as int),
        idx >= 0 || model::seeded(q, p, idx, from_tree) == p,
{
    broadcast use vstd::multiset::group_multiset_axioms;

    let s = model::seeded(q, p, idx, from_tree);
    if idx >= 0 && !p.visited.contains(idx as int) {
        let e = ((q.distance)(idx as int), idx);
        if q.k > 0 && p.found.len() == q.k {
            order::last_exists(p.found);
        }
        assert forall|v: int| #[trigger] s.visited.contains(v) implies pending(q, s, v) by {
            if v != idx {
                assert(p.visited.contains(v));
                assert(pending(q, p, v));
            }
        }
        if q.k > 0 && numbers(q.distance, n) {
            found_are_numbers(q, n, p);
            assert(!(q.distance)(idx as int).nan());
            offering_draws_in(p.found, q.k, e);
            let f = bounded::furthest(p.found, q.k);
            let g = bounded::furthest(s.found, q.k);
            ranks_follow_totals(g, f);
            assert forall|v: int| #[trigger]
                s.visited.contains(v) && (q.distance)(v).below(
                    bounded::furthest(s.found, q.k),
                ) implies s.found.contains(((q.distance)(v), v as i32)) by {
                if v != idx {
                    assert(p.visited.contains(v));
                    assert((q.distance)(v).below(f));
                    assert(p.found.contains(((q.distance)(v), v as i32)));
                }
            }
        }
    }
}

/// The results of a search have distances that are numbers, where all points have.
pub(crate) proof fn found_are_numbers(q: model::Quest, n: int, p: model::Progress)
    requires
        model::consistent(q, n, p),
        numbers(q.distance, n),
    ensures
        forall|x: (Single, i32)| #[trigger] p.found.contains(x) ==> !x.0.nan(),
        p.found.len() <= q.k,
{
    assert forall|x: (Single, i32)| #[trigger] p.found.contains(x) implies !x.0.nan() by {
        assert(p.visited.contains(x.1 as int));
        assert(vstd::set_lib::set_int_range(0, n).contains(x.1 as int));
        assert(!(q.distance)(x.1 as int).nan());
    }
}

proof fn seeding_all_primes(q: model::Quest, n: int, p: model::Progress, ids: Seq<i32>)
    requires
        model::consistent(q, n, p),
        primed(q, n, p),
        forall|i: int| 0 <= i < ids.len() ==> #[trigger] ids[i] < n,
    ensures
        model::consistent(q, n, model::seeded_all(q, p, ids)),
        primed(q, n, model::seeded_all(q, p, ids)),
        p.visited.subset_of(model::seeded_all(q, p, ids).visited),
        forall|i: int|
            0 <= i < ids.len() && #[trigger] ids[i] >= 0 ==> model::seeded_all(
                q,
                p,
                ids,
            ).visited.contains(ids[i] as int),
    decreases ids.len(),
{
    model::seeding_all_keeps(q, n, p, ids);
    if ids.len() > 0 {
        let rest = ids.drop_last();
        assert forall|i: int| 0 <= i < rest.len() implies #[trigger] rest[i] < n by {
            assert(ids[i] < n);
        }
        seeding_all_primes(q, n, p, rest);
        assert(ids[ids.len() - 1] < n);
        seeding_primes(q, n, model::seeded_all(q, p, rest), ids.last(), true);
        assert forall|i: int| 0 <= i < ids.len() && #[trigger] ids[i] >= 0 implies
            model::seeded_all(q, p, ids).visited.contains(ids[i] as int) by {
            if i < rest.len() {
                assert(rest[i] == ids[i]);
            }
        }
    }
}

/// A leaf lists `v`.
pub open spec fn listed(indices: Seq<i32>, leaves: Seq<(usize, usize)>, l: int, i: int) -> bool {
    0 <= l < leaves.len() && leaves[l].0 <= i < leaves[l].1
}

proof fn seeding_leaves_primes(
    q: model::Quest,
    n: int,
    p: model::Progress,
    indices: Seq<i32>,
    leaves: Seq<(usize, usize)>,
)
    requires
        model::consistent(q, n, p),
        primed(q, n, p),
        forall|i: int| 0 <= i < indices.len() ==> #[trigger] indices[i] < n,
        forall|i: int|
            0 <= i < leaves.len() ==> (#[trigger] leaves[i]).0 <= leaves[i].1 <= indices.len(),
    ensures
        model::consistent(q, n, model::seeded_leaves(q, p, indices, leaves)),
        primed(q, n, model::seeded_leaves(q, p, indices, leaves)),
        p.visited.subset_of(model::seeded_leaves(q, p, indices, leaves).visited),
        forall|l: int, i: int| #[trigger]
            listed(indices, leaves, l, i) && indices[i] >= 0 ==> model::seeded_leaves(
                q,
                p,
                indices,
                leaves,
            ).visited.contains(indices[i] as int),
    decreases leaves.len(),
{
    model::seeding_leaves_keeps(q, n, p, indices, leaves);
    if leaves.len() > 0 {
        let rest = leaves.drop_last();
        assert forall|i: int| 0 <= i < rest.len() implies (#[trigger] rest[i]).0 <= rest[i].1
            <= indices.len() by {
            assert(leaves[i].0 <= leaves[i].1 <= indices.len());
        }
        seeding_leaves_primes(q, n, p, indices, rest);
        let last = leaves[leaves.len() - 1];
        let ids = indices.subrange(last.0 as int, last.1 as int);
        assert forall|i: int| 0 <= i < ids.len() implies #[trigger] ids[i] < n by {
            assert(indices[last.0 + i] < n);
        }
        seeding_all_primes(q, n, model::seeded_leaves(q, p, indices, rest), ids);
        assert forall|l: int, i: int| #[trigger]
            listed(indices, leaves, l, i) && indices[i] >= 0 implies model::seeded_leaves(
            q,
            p,
            indices,
            leaves,
        ).visited.contains(indices[i] as int) by {
            if l < rest.len() {
                assert(listed(indices, rest, l, i));
            } else {
                assert(ids[i - last.0] == indices[i]);
            }
        }
    }
}

/// Every point that the leaves list has been visited.
pub open spec fn taken_in(
    indices: Seq<i32>,
    leaves: Seq<(usize, usize)>,
    visited: Set<int>,
) -> bool {
    forall|l: int, i: int| #[trigger]
        listed(indices, leaves, l, i) && indices[i] >= 0 ==> visited.contains(indices[i] as int)
}

/// Every point of the leaves that a query is routed to in tree `t` has been visited.
pub open spec fn tree_taken_in(routes: model::Routes, t: int, visited: Set<int>) -> bool {
    exists|r: FastRng|
        taken_in((routes.indices)(t), (#[trigger] (routes.route)(t, r)).leaves, visited)
}

/// Every point of the leaves that a query with these margins is routed to has been visited, for
/// some outcome of the coin tosses that decide ties.
pub open spec fn leaves_taken_in(
    children: Seq<[i32; 2]>,
    margins: spec_fn(int) -> Single,
    budget: nat,
    indices: Seq<i32>,
    visited: Set<int>,
) -> bool {
    exists|r: FastRng|
        taken_in(
            indices,
            (#[trigger] routing::routed(children, margins, budget, r)).leaves,
            visited,
        )
}

proof fn rooting_primes(q: model::Quest, n: int, routes: model::Routes, i: nat, rng: FastRng)
    requires
        model::lead_within(routes, n),
        i <= routes.count,
    ensures
        model::consistent(q, n, model::rooted(q, routes, i, rng).0),
        primed(q, n, model::rooted(q, routes, i, rng).0),
        forall|t: int|
            0 <= t < i ==> #[trigger] tree_taken_in(
                routes,
                t,
                model::rooted(q, routes, i, rng).0.visited,
            ),
    decreases i,
{
    broadcast use vstd::multiset::group_multiset_axioms;

    if i == 0 {
        model::beginning_is_consistent(q, n);
    } else {
        let m = (i - 1) as nat;
        rooting_primes(q, n, routes, m, rng);
        let (p, r) = model::rooted(q, routes, m, rng);
        let spill = (routes.route)(i - 1, r);
        seeding_leaves_primes(q, n, p, (routes.indices)(i - 1), spill.leaves);
        let visited = model::rooted(q, routes, i, rng).0.visited;
        assert forall|t: int| 0 <= t < i implies #[trigger] tree_taken_in(
            routes,
            t,
            visited,
        ) by {
            if t < m {
                assert(tree_taken_in(routes, t, p.visited));
                let x = choose|x: FastRng|
                    taken_in(
                        (routes.indices)(t),
                        (#[trigger] (routes.route)(t, x)).leaves,
                        p.visited,
                    );
                assert(taken_in((routes.indices)(t), (routes.route)(t, x).leaves, visited));
            } else {
                assert(taken_in((routes.indices)(t), (routes.route)(t, r).leaves, visited));
            }
        }
    }
}

proof fn scattering_primes(q: model::Quest, n: int, p: model::Progress, m: nat, rng: FastRng)
    requires
        model::consistent(q, n, p),
        primed(q, n, p),
        m > 0 ==> 0 < n <= i32::MAX,
    ensures
        model::consistent(q, n, model::scattered(q, p, n, m, rng).0),
        primed(q, n, model::scattered(q, p, n, m, rng).0),
        p.visited.subset_of(model::scattered(q, p, n, m, rng).0.visited),
        model::scattered(q, p, n, m, rng).1 == rng.after(m),
        forall|i: nat|
            i < m ==> model::scattered(q, p, n, m, rng).0.visited.contains(
                #[trigger] rng.after(i).drawn(n),
            ),
    decreases m,
{
    model::scattering_keeps(q, n, p, m, rng);
    if m > 0 {
        scattering_primes(q, n, p, (m - 1) as nat, rng);
        let (s, r) = model::scattered(q, p, n, (m - 1) as nat, rng);
        assert(0 <= r.drawn(n) < n) by {
            vstd::arithmetic::div_mod::lemma_mod_bound(crate::rng::mixed(r.state) as int, n);
        }
        rng.after_steps((m - 1) as nat);
        seeding_primes(q, n, s, r.drawn(n) as i32, false);
    }
}

/// What is asked of the bound so that nothing is missed: it covers what is nearer than a point, and
/// what is nearer than infinity where there are fewer results than asked for.
pub open spec fn suffices(
    bound: spec_fn(Single) -> Single,
    distance: spec_fn(int) -> Single,
    n: int,
    full: bool,
) -> bool {
    &&& numbers(distance, n)
    &&& forall|v: int| 0 <= v < n ==> covers(bound, #[trigger] distance(v))
    &&& full || covers(bound, Single::spec_infinity())
}

/// What holds of a search while it goes through the graph, and is looking at the neighbors of `u`;
/// `full` says that it had all its results when it set out.
spec fn under_way(
    q: model::Quest,
    graph: SearchGraph,
    p: model::Progress,
    bound: Single,
    u: Option<int>,
    full: bool,
) -> bool {
    let n = graph.n_vertices as int;
    &&& model::consistent(q, n, p)
    &&& bound == (q.bound)(bounded::furthest(p.found, q.k))
    &&& full ==> p.found.len() == q.k
    &&& results_handled(q, graph, p, u)
    &&& numbers(q.distance, n) && widens(q.bound) ==> near_handled(q, graph, p, bound, u)
    &&& q.k > 0 && suffices(q.bound, q.distance, n, full) ==> none_missed(q, p)
}

proof fn scanning_goes_on(
    q: model::Quest,
    graph: SearchGraph,
    p: model::Progress,
    bound: Single,
    idx: i32,
    u: int,
    full: bool,
)
    requires
        graph.wf(),
        under_way(q, graph, p, bound, Some(u), full),
        idx < graph.n_vertices,
    ensures
        ({
            let (s, b) = model::scanned(q, p, bound, idx);
            &&& under_way(q, graph, s, b, Some(u), full)
            &&& p.visited.subset_of(s.visited)
            &&& p.found.len() <= s.found.len()
            &&& idx >= 0 ==> s.visited.contains(idx as int)
        }),
{
    broadcast use vstd::multiset::group_multiset_axioms;

    let n = graph.n_vertices as int;
    let (s, b) = model::scanned(q, p, bound, idx);
    model::scanning_keeps(q, n, p, bound, idx);
    let d = (q.distance)(idx as int);
    let e = (d, idx);
    let f = bounded::furthest(p.found, q.k);
    let g = bounded::furthest(s.found, q.k);
    if q.k > 0 && p.found.len() == q.k {
        order::last_exists(p.found);
    }
    assert forall|v: int| handled(q, graph, p, v) implies #[trigger] handled(q, graph, s, v) by {
        if looked_around(graph, p.visited, v) {
            looking_on(graph, p.visited, s.visited, v);
        }
    }
    assert forall|x: (Single, i32)| #[trigger] s.found.contains(x) implies Some(u) == Some(
        x.1 as int,
    ) || handled(q, graph, s, x.1 as int) by {
        if !p.found.contains(x) {
            assert(x == e);
            assert(pending(q, s, idx as int));
        } else {
            assert(Some(u) == Some(x.1 as int) || handled(q, graph, p, x.1 as int));
        }
    }
    let new = idx >= 0 && !p.visited.contains(idx as int);
    if numbers(q.distance, n) {
        found_are_numbers(q, n, p);
        if q.k > 0 && new {
            assert(!d.nan());
            offering_draws_in(p.found, q.k, e);
        }
        if q.k == 0 {
            assert(s.found.len() == 0);
            assert(!f.nan() && f == g);
        } else if new {
            ranks_follow_totals(g, f);
        }
    }
    if numbers(q.distance, n) && widens(q.bound) {
        assert forall|v: int| #[trigger]
            s.visited.contains(v) && (q.distance)(v).below(b) implies Some(u) == Some(v)
            || handled(q, graph, s, v) by {
            if p.visited.contains(v) {
                if new {
                    assert((q.distance)(v).below((q.bound)(g)));
                    assert((q.distance)(v).below((q.bound)(f)));
                }
                assert(Some(u) == Some(v) || handled(q, graph, p, v));
            } else {
                assert(v == idx);
                assert((q.distance)(v).below((q.bound)(g)));
                assert((q.distance)(v).below((q.bound)(f)));
                assert(pending(q, s, idx as int));
            }
        }
    }
    if q.k > 0 && suffices(q.bound, q.distance, n, full) && new {
        assert(covers(q.bound, f)) by {
            if p.found.len() == q.k {
                let x = order::last(p.found);
                assert(p.visited.contains(x.1 as int));
                assert(vstd::set_lib::set_int_range(0, n).contains(x.1 as int));
                assert(covers(q.bound, (q.distance)(x.1 as int)));
            }
        }
        assert forall|v: int| #[trigger]
            s.visited.contains(v) && (q.distance)(v).below(
                bounded::furthest(s.found, q.k),
            ) implies s.found.contains(((q.distance)(v), v as i32)) by {
            let x = ((q.distance)(v), v as i32);
            assert(x.0.below(f));
            if p.visited.contains(v) {
                assert(p.found.contains(x));
            } else {
                assert(d.below(bound));
            }
        }
    }
}

proof fn scanning_all_goes_on(
    q: model::Quest,
    graph: SearchGraph,
    p: model::Progress,
    bound: Single,
    row: Seq<i32>,
    u: int,
    full: bool,
)
    requires
        graph.wf(),
        under_way(q, graph, p, bound, Some(u), full),
        forall|i: int| 0 <= i < row.len() ==> #[trigger] row[i] < graph.n_vertices,
    ensures
        ({
            let (s, b) = model::scanned_all(q, p, bound, row);
            &&& under_way(q, graph, s, b, Some(u), full)
            &&& p.visited.subset_of(s.visited)
            &&& p.found.len() <= s.found.len()
            &&& forall|i: int|
                0 <= i < row.len() && #[trigger] row[i] >= 0 ==> s.visited.contains(row[i] as int)
        }),
    decreases row.len(),
{
    if row.len() > 0 {
        let rest = row.drop_last();
        assert forall|i: int| 0 <= i < rest.len() implies #[trigger] rest[i]
            < graph.n_vertices by {
            assert(row[i] < graph.n_vertices);
        }
        scanning_all_goes_on(q, graph, p, bound, rest, u, full);
        let (s, b) = model::scanned_all(q, p, bound, rest);
        assert(row[row.len() - 1] < graph.n_vertices);
        scanning_goes_on(q, graph, s, b, row.last(), u, full);
        let t = model::scanned_all(q, p, bound, row).0;
        assert forall|i: int| 0 <= i < row.len() && #[trigger] row[i] >= 0 implies
            t.visited.contains(row[i] as int) by {
            if i < rest.len() {
                assert(rest[i] == row[i]);
            }
        }
    }
}

/// What holds of a search that has come to its end.
spec fn settled(
    q: model::Quest,
    graph: SearchGraph,
    start: model::Progress,
    end: model::Progress,
) -> bool {
    let n = graph.n_vertices as int;
    let last = (q.bound)(bounded::furthest(end.found, q.k));
    let open = q.fills && end.found.len() < q.k;
    &&& start.visited.subset_of(end.visited)
    &&& start.found.len() <= end.found.len()
    &&& forall|e: (Single, i32)| #[trigger]
        end.found.contains(e) && (open || e.0.below(last)) ==> looked_around(
            graph,
            end.visited,
            e.1 as int,
        )
    &&& numbers(q.distance, n) && widens(q.bound) ==> forall|v: int| #[trigger]
        end.visited.contains(v) && (q.distance)(v).below(last) ==> looked_around(
            graph,
            end.visited,
            v,
        )
    &&& q.k > 0 && suffices(q.bound, q.distance, n, start.found.len() == q.k) ==> none_missed(
        q,
        end,
    )
}

proof fn traversing_settles(
    q: model::Quest,
    graph: SearchGraph,
    start: model::Progress,
    p: model::Progress,
    bound: Single,
)
    requires
        graph.wf(),
        under_way(q, graph, p, bound, None, start.found.len() == q.k),
        start.visited.subset_of(p.visited),
        start.found.len() <= p.found.len(),
    ensures
        settled(q, graph, start, model::traversed(q, graph, p, bound)),
    decreases model::remaining(graph.n_vertices as int, p),
{
    broadcast use vstd::multiset::group_multiset_axioms;

    let n = graph.n_vertices as int;
    let full = start.found.len() == q.k;
    let end = model::traversed(q, graph, p, bound);
    if p.seeds.len() == 0 {
        assert forall|v: int| !pending(q, p, v) by {
            assert(p.seeds.count(((q.distance)(v), v as i32)) <= p.seeds.len());
        }
        assert forall|e: (Single, i32)| #[trigger] p.found.contains(e) implies looked_around(
            graph,
            p.visited,
            e.1 as int,
        ) by {
            assert(handled(q, graph, p, e.1 as int));
        }
    } else {
        order::first_exists(p.seeds);
        let (d, v) = order::first(p.seeds);
        let s = model::popped(p);
        model::popping_keeps(q, n, p);
        assert forall|w: int| w != v && 0 <= w < n && handled(q, graph, p, w) implies
            #[trigger] handled(q, graph, s, w) by {
            if pending(q, p, w) {
                assert(s.seeds.contains(((q.distance)(w), w as i32)));
            }
        }
        assert forall|w: int| p.visited.contains(w) implies 0 <= w < n by {
            assert(vstd::set_lib::set_int_range(0, n).contains(w));
        }
        if model::stops(q, p, bound, d) {
            assert forall|w: int|
                0 <= w < n && handled(q, graph, p, w) && (q.distance)(w).below(
                    bound,
                ) implies #[trigger] looked_around(graph, p.visited, w) by {
                if pending(q, p, w) {
                    let e = ((q.distance)(w), w as i32);
                    assert(p.seeds.contains(e));
                    assert(order::key((d, v)) <= order::key(e));
                    assert(d.total() <= e.0.total());
                    ranks_follow_totals(d, e.0);
                }
            }
            assert forall|e: (Single, i32)| #[trigger]
                end.found.contains(e) && e.0.below(bound) implies looked_around(
                graph,
                end.visited,
                e.1 as int,
            ) by {
                assert(handled(q, graph, p, e.1 as int));
                assert(p.visited.contains(e.1 as int));
            }
        } else {
            let row = graph.row(v as int);
            model::row_is_within(graph, v as int);
            assert forall|e: (Single, i32)| #[trigger] s.found.contains(e) implies Some(
                v as int,
            ) == Some(e.1 as int) || handled(q, graph, s, e.1 as int) by {
                assert(p.visited.contains(e.1 as int));
                assert(handled(q, graph, p, e.1 as int));
            }
            assert(under_way(q, graph, s, bound, Some(v as int), full)) by {
                if numbers(q.distance, n) && widens(q.bound) {
                    assert forall|w: int| #[trigger]
                        s.visited.contains(w) && (q.distance)(w).below(bound) implies Some(
                        v as int,
                    ) == Some(w) || handled(q, graph, s, w) by {
                        assert(handled(q, graph, p, w));
                    }
                }
            }
            let (t, b) = model::scanned_all(q, s, bound, row);
            scanning_all_goes_on(q, graph, s, bound, row, v as int, full);
            model::scanning_all_keeps(q, n, s, bound, row);
            model::visited_stays_within(q, n, t);
            assert(looked_around(graph, t.visited, v as int));
            assert(results_handled(q, graph, t, None)) by {
                assert forall|e: (Single, i32)| #[trigger] t.found.contains(e) implies handled(
                    q,
                    graph,
                    t,
                    e.1 as int,
                ) by {}
            }
            assert(under_way(q, graph, t, b, None, full));
            traversing_settles(q, graph, start, t, b);
        }
    }
}

/// What a thorough search over the graph satisfies, with `distances` the distances of the results
/// `indices`; `full` says that it had `k` results before it went through the graph.
///
/// It has looked at the neighbors of every result within its reach, and where it goes on until it
/// has `k` results, of every result as long as it has fewer. So it has for every point that it
/// visited within its reach, if bounds of further results reach no less far. And no point that it
/// visited is nearer than a result without being one, nor missing while there are fewer than `k`,
/// if bounds reach as far as the results they belong to.
pub open spec fn thorough(
    graph: SearchGraph,
    distance: spec_fn(int) -> Single,
    bound: spec_fn(Single) -> Single,
    k: nat,
    fills: bool,
    full: bool,
    visited: Set<int>,
    indices: Seq<i32>,
    distances: Seq<Single>,
) -> bool {
    let n = graph.n_vertices as int;
    let far = reach(bound, k, distances);
    &&& indices.len() == distances.len()
    &&& forall|i: int|
        0 <= i < indices.len() ==> visited.contains(#[trigger] indices[i] as int) && distances[i]
            == distance(indices[i] as int)
    &&& forall|i: int|
        0 <= i < indices.len() && (distances[i].below(far) || fills && indices.len() < k)
            ==> looked_around(graph, visited, #[trigger] indices[i] as int)
    &&& numbers(distance, n) && widens(bound) ==> forall|v: int| #[trigger]
        visited.contains(v) && distance(v).below(far) ==> looked_around(graph, visited, v)
    &&& suffices(bound, distance, n, full) ==> forall|v: int, i: int|
        visited.contains(v) && 0 <= i < indices.len() && distance(v).below(
            #[trigger] distances[i],
        ) ==> #[trigger] indices.contains(v as i32)
    &&& suffices(bound, distance, n, full) && indices.len() < k ==> forall|v: int| #[trigger]
        visited.contains(v) && distance(v).below(Single::spec_infinity()) ==> indices.contains(
            v as i32,
        )
}

/// Where a search starts: at all points of the leaves that a query is routed to in each tree, and,
/// where these are fewer than `k`, at as many random points as are missing.
pub open spec fn started(
    q: model::Quest,
    graph: SearchGraph,
    routes: model::Routes,
    rng: FastRng,
    visited: Set<int>,
    found: nat,
) -> bool {
    let n = graph.n_vertices as int;
    let (p, r) = model::rooted(q, routes, routes.count, rng);
    &&& forall|t: int| 0 <= t < routes.count ==> #[trigger] tree_taken_in(routes, t, visited)
    &&& forall|i: nat|
        p.visited.len() + i < q.k ==> visited.contains(#[trigger] r.after(i).drawn(n))
    &&& p.visited.len() < q.k ==> found > 0
    &&& found >= if p.visited.len() < q.k {
        p.visited.len()
    } else {
        q.k
    }
}

/// What a search has come to before it goes through the graph.
pub open spec fn entry(
    q: model::Quest,
    graph: SearchGraph,
    routes: model::Routes,
    rng: FastRng,
) -> model::Progress {
    let (p, r) = model::rooted(q, routes, routes.count, rng);
    model::scattered(q, p, graph.n_vertices as int, model::missing(q, p), r).0
}

/// The last result is the furthest.
proof fn last_result_is_furthest(p: model::Progress, k: nat)
    requires
        p.found.len() == k,
        k > 0,
    ensures
        model::distances_of(p).len() == k,
        model::distances_of(p)[k - 1] == bounded::furthest(p.found, k),
{
    order::in_order_exists(p.found);
    let s = order::in_order(p.found);
    s.to_multiset_ensures();
    let x = s[k - 1];
    assert(s.contains(x));
    assert forall|y: (Single, i32)| #[trigger] p.found.contains(y) implies order::key(y)
        <= order::key(x) by {
        assert(s.contains(y));
        let i = choose|i: int| 0 <= i < s.len() && s[i] == y;
        assert(order::key(s[i]) <= order::key(s[k - 1]));
    }
    order::last_is_unique(p.found, x);
}

proof fn settling_is_thorough(
    q: model::Quest,
    graph: SearchGraph,
    start: model::Progress,
    p: model::Progress,
)
    requires
        graph.wf(),
        model::consistent(q, graph.n_vertices as int, p),
        settled(q, graph, start, p),
    ensures
        thorough(
            graph,
            q.distance,
            q.bound,
            q.k,
            q.fills,
            start.found.len() == q.k,
            p.visited,
            model::indices_of(p),
            model::distances_of(p),
        ),
{
    let n = graph.n_vertices as int;
    let full = start.found.len() == q.k;
    model::consistent_gives_results(q, n, p);
    let indices = model::indices_of(p);
    let distances = model::distances_of(p);
    let far = reach(q.bound, q.k, distances);
    order::in_order_exists(p.found);
    let s = order::in_order(p.found);
    s.to_multiset_ensures();
    if p.found.len() == q.k && q.k > 0 {
        last_result_is_furthest(p, q.k);
    }
    assert(far == (q.bound)(bounded::furthest(p.found, q.k)));
    assert forall|i: int| 0 <= i < indices.len() implies p.found.contains(
        (distances[i], #[trigger] indices[i]),
    ) by {
        assert(s.contains(s[i]));
    }
    assert forall|i: int| 0 <= i < indices.len() implies p.visited.contains(
        #[trigger] indices[i] as int,
    ) && distances[i] == (q.distance)(indices[i] as int) by {
        assert(p.found.contains((distances[i], indices[i])));
    }
    assert forall|i: int|
        0 <= i < indices.len() && (distances[i].below(far) || q.fills && indices.len()
            < q.k) implies looked_around(graph, p.visited, #[trigger] indices[i] as int) by {
        assert(p.found.contains((distances[i], indices[i])));
    }
    if suffices(q.bound, q.distance, n, full) {
        found_are_numbers(q, n, p);
        assert forall|v: int, i: int|
            p.visited.contains(v) && 0 <= i < indices.len() && (q.distance)(v).below(
                #[trigger] distances[i],
            ) implies #[trigger] indices.contains(v as i32) by {
            let x = (distances[i], indices[i]);
            assert(p.found.contains(x));
            if p.found.len() == q.k {
                order::last_exists(p.found);
                assert(order::key(x) <= order::key(order::last(p.found)));
                ranks_follow_totals(x.0, order::last(p.found).0);
            }
            assert((q.distance)(v).below(bounded::furthest(p.found, q.k)));
            found_is_listed(q, p, v);
        }
        if indices.len() < q.k {
            assert forall|v: int| #[trigger]
                p.visited.contains(v) && (q.distance)(v).below(
                    Single::spec_infinity(),
                ) implies indices.contains(v as i32) by {
                assert((q.distance)(v).below(bounded::furthest(p.found, q.k)));
                found_is_listed(q, p, v);
            }
        }
    }
}

proof fn found_is_listed(q: model::Quest, p: model::Progress, v: int)
    requires
        p.found.contains(((q.distance)(v), v as i32)),
    ensures
        model::indices_of(p).contains(v as i32),
{
    order::in_order_exists(p.found);
    let s = order::in_order(p.found);
    s.to_multiset_ensures();
    let e = ((q.distance)(v), v as i32);
    assert(s.contains(e));
    let i = choose|i: int| 0 <= i < s.len() && s[i] == e;
    assert(model::indices_of(p)[i] == v as i32);
}

proof fn priming_sets_out(q: model::Quest, graph: SearchGraph, p: model::Progress)
    requires
        model::consistent(q, graph.n_vertices as int, p),
        primed(q, graph.n_vertices as int, p),
    ensures
        under_way(
            q,
            graph,
            p,
            (q.bound)(bounded::furthest(p.found, q.k)),
            None,
            p.found.len() == q.k,
        ),
{
    assert forall|e: (Single, i32)| #[trigger] p.found.contains(e) implies handled(
        q,
        graph,
        p,
        e.1 as int,
    ) by {
        assert(p.visited.contains(e.1 as int));
        assert(pending(q, p, e.1 as int));
    }
    assert forall|v: int| #[trigger] p.visited.contains(v) implies handled(q, graph, p, v) by {
        assert(pending(q, p, v));
    }
}

/// What a search has come to before it goes through the graph is consistent, and it is to go on
/// from all points that it has visited.
pub(crate) proof fn entering_is_consistent(
    q: model::Quest,
    graph: SearchGraph,
    routes: model::Routes,
    rng: FastRng,
)
    requires
        graph.wf(),
        model::lead_within(routes, graph.n_vertices as int),
        q.k == 0 || graph.n_vertices > 0,
    ensures
        model::consistent(q, graph.n_vertices as int, entry(q, graph, routes, rng)),
        ({
            let roots = model::rooted(q, routes, routes.count, rng).0;
            roots.seeds.len() == roots.visited.len()
        }),
{
    let n = graph.n_vertices as int;
    let (roots, r) = model::rooted(q, routes, routes.count, rng);
    rooting_primes(q, n, routes, routes.count, rng);
    scattering_primes(q, n, roots, model::missing(q, roots), r);
}

/// A search is thorough, and starts where it should; what it draws moves the generator on.
pub proof fn searches_are_thorough(
    q: model::Quest,
    graph: SearchGraph,
    routes: model::Routes,
    rng: FastRng,
)
    requires
        graph.wf(),
        model::lead_within(routes, graph.n_vertices as int),
        q.k == 0 || graph.n_vertices > 0,
    ensures
        thorough(
            graph,
            q.distance,
            q.bound,
            q.k,
            q.fills,
            entry(q, graph, routes, rng).found.len() == q.k,
            model::finished(q, graph, routes, rng).0.visited,
            model::indices_of(model::finished(q, graph, routes, rng).0),
            model::distances_of(model::finished(q, graph, routes, rng).0),
        ),
        started(
            q,
            graph,
            routes,
            rng,
            model::finished(q, graph, routes, rng).0.visited,
            model::indices_of(model::finished(q, graph, routes, rng).0).len(),
        ),
        ({
            let (roots, r) = model::rooted(q, routes, routes.count, rng);
            model::finished(q, graph, routes, rng).1 == r.after(
                if roots.visited.len() < q.k {
                    (q.k - roots.visited.len()) as nat
                } else {
                    0
                },
            )
        }),
{
    let n = graph.n_vertices as int;
    let (roots, r) = model::rooted(q, routes, routes.count, rng);
    let m = model::missing(q, roots);
    rooting_primes(q, n, routes, routes.count, rng);
    scattering_primes(q, n, roots, m, r);
    let start = entry(q, graph, routes, rng);
    let bound = (q.bound)(bounded::furthest(start.found, q.k));
    let p = model::finished(q, graph, routes, rng).0;
    priming_sets_out(q, graph, start);
    traversing_settles(q, graph, start, start, bound);
    model::finishing_keeps(q, graph, routes, rng);
    model::consistent_gives_results(q, n, p);
    settling_is_thorough(q, graph, start, p);
    assert forall|t: int| 0 <= t < routes.count implies #[trigger] tree_taken_in(
        routes,
        t,
        p.visited,
    ) by {
        assert(tree_taken_in(routes, t, roots.visited));
        let x = choose|x: FastRng|
            taken_in((routes.indices)(t), (#[trigger] (routes.route)(t, x)).leaves, roots.visited);
        assert(taken_in((routes.indices)(t), (routes.route)(t, x).leaves, p.visited));
    }
    assert forall|i: nat| roots.visited.len() + i < q.k implies p.visited.contains(
        #[trigger] r.after(i).drawn(n),
    ) by {
        assert(start.visited.contains(r.after(i).drawn(n)));
    }
    if roots.visited.len() < q.k {
        assert(start.visited.contains(r.after(0).drawn(n)));
        assert(start.visited.len() > 0);
    }
    assert(roots.visited.len() <= start.visited.len()) by {
        vstd::set_lib::lemma_len_subset(roots.visited, start.visited);
    }
}

/// Where fewer results are found than asked for, although no bound keeps any point out, nothing
/// that can be reached is missing: every point visited is a result, and so is every neighbor of a
/// result.
pub proof fn what_can_be_reached_is_found(
    graph: SearchGraph,
    distance: spec_fn(int) -> Single,
    bound: spec_fn(Single) -> Single,
    k: nat,
    fills: bool,
    full: bool,
    visited: Set<int>,
    indices: Seq<i32>,
    distances: Seq<Single>,
)
    requires
        graph.wf(),
        thorough(graph, distance, bound, k, fills, full, visited, indices, distances),
        suffices(bound, distance, graph.n_vertices as int, full),
        indices.len() < k,
        forall|v: int|
            visited.contains(v) ==> (#[trigger] distance(v)).below(Single::spec_infinity())
                && distance(v).below(bound(Single::spec_infinity())),
    ensures
        forall|v: int| #[trigger] visited.contains(v) ==> indices.contains(v as i32),
        forall|i: int, j: int|
            0 <= i < indices.len() && 0 <= j < graph.row(indices[i] as int).len()
                && #[trigger] graph.row(indices[i] as int)[j] >= 0 ==> indices.contains(
                graph.row(indices[i] as int)[j],
            ),
{
    assert forall|v: int| #[trigger] visited.contains(v) implies indices.contains(v as i32) by {
        assert(distance(v).below(Single::spec_infinity()));
    }
    assert forall|i: int, j: int|
        0 <= i < indices.len() && 0 <= j < graph.row(indices[i] as int).len()
            && #[trigger] graph.row(indices[i] as int)[j] >= 0 implies indices.contains(
        graph.row(indices[i] as int)[j],
    ) by {
        assert(visited.contains(indices[i] as int));
        assert(distance(indices[i] as int).below(bound(Single::spec_infinity())));
        assert(looked_around(graph, visited, indices[i] as int));
        assert(visited.contains(graph.row(indices[i] as int)[j] as int));
    }
}

} // verus!
