//! The phases of a greedy graph search.

use crate::calls;
use crate::graph::SearchGraph;
use crate::heap::bounded;
use crate::rng::FastRng;
use crate::search::model;
use crate::search::workspace::SearchWorkspace;
use crate::single::Single;
use vstd::prelude::*;

verus! {

/// `f` may be called on every point, and gives its distance.
pub(crate) open spec fn answers<F: Fn(i32) -> Single>(
    f: F,
    distance: spec_fn(int) -> Single,
    n: int,
) -> bool {
    &&& forall|i: i32| 0 <= i < n ==> #[trigger] call_requires(f, (i,))
    &&& forall|i: i32, d: Single| #[trigger] call_ensures(f, (i,), d) ==> d == distance(i as int)
}

/// Take a point to start from, unless it is a placeholder or visited.
fn seed_one<F: Fn(i32) -> Single>(
    idx: i32,
    distance_to: &F,
    workspace: &mut SearchWorkspace,
    Ghost(q): Ghost<model::Quest>,
    Ghost(p): Ghost<model::Progress>,
    Ghost(from_tree): Ghost<bool>,
)
    requires
        old(workspace).holds(old(workspace).visited.n_elements, old(workspace).k, p),
        idx < old(workspace).visited.n_elements,
        q.k == old(workspace).k,
        answers(*distance_to, q.distance, old(workspace).visited.n_elements as int),
    ensures
        final(workspace).holds(
            old(workspace).visited.n_elements,
            old(workspace).k,
            model::seeded(q, p, idx, from_tree),
        ),
        final(workspace).tree_leaves == old(workspace).tree_leaves,
{
    if idx >= 0 && !workspace.visited.check_and_mark(idx) {
        let d: Single = distance_to(idx);
        let _ = workspace.result_heap.push(d, idx);
        workspace.seed_set.push(d, idx);
    } else {
        proof {
            if idx >= 0 {
                assert(p.visited.insert(idx as int) =~= p.visited);
            }
        }
    }
}

/// Take the points of the leaves that the workspace holds to start from.
pub(crate) fn seed_leaves<F: Fn(i32) -> Single>(
    indices: &Vec<i32>,
    distance_to: &F,
    workspace: &mut SearchWorkspace,
    Ghost(q): Ghost<model::Quest>,
    Ghost(p): Ghost<model::Progress>,
)
    requires
        old(workspace).holds(old(workspace).visited.n_elements, old(workspace).k, p),
        q.k == old(workspace).k,
        answers(*distance_to, q.distance, old(workspace).visited.n_elements as int),
        forall|i: int|
            0 <= i < indices@.len() ==> #[trigger] indices@[i]
                < old(workspace).visited.n_elements,
        forall|i: int|
            0 <= i < old(workspace).tree_leaves@.len() ==> (
            #[trigger] old(workspace).tree_leaves@[i]).0 <= old(workspace).tree_leaves@[i].1
                <= indices@.len(),
    ensures
        final(workspace).holds(
            old(workspace).visited.n_elements,
            old(workspace).k,
            model::seeded_leaves(q, p, indices@, old(workspace).tree_leaves@),
        ),
{
    let ghost n = workspace.visited.n_elements;
    let ghost k = workspace.k;
    let ghost leaves = workspace.tree_leaves@;
    let mut l: usize = 0;
    while l < workspace.tree_leaves.len()
        invariant
            l <= leaves.len(),
            workspace.tree_leaves@ == leaves,
            workspace.holds(
                n,
                k,
                model::seeded_leaves(q, p, indices@, leaves.take(l as int)),
            ),
            q.k == k,
            answers(*distance_to, q.distance, n as int),
            forall|i: int| 0 <= i < indices@.len() ==> #[trigger] indices@[i] < n,
            forall|i: int|
                0 <= i < leaves.len() ==> (#[trigger] leaves[i]).0 <= leaves[i].1 <= indices@.len(),
        decreases leaves.len() - l,
    {
        let (start, end) = workspace.tree_leaves[l];
        assert(leaves[l as int].0 <= leaves[l as int].1 <= indices@.len());
        let ghost before = model::seeded_leaves(q, p, indices@, leaves.take(l as int));
        let ghost ids = indices@.subrange(start as int, end as int);
        let mut i: usize = start;
        assert(ids.take(0) =~= Seq::empty());
        while i < end
            invariant
                start <= i <= end <= indices@.len(),
                ids == indices@.subrange(start as int, end as int),
                workspace.tree_leaves@ == leaves,
                workspace.holds(
                    n,
                    k,
                    model::seeded_all(q, before, ids.take(i - start)),
                ),
                q.k == k,
                answers(*distance_to, q.distance, n as int),
                forall|i: int| 0 <= i < indices@.len() ==> #[trigger] indices@[i] < n,
            decreases end - i,
        {
            assert(indices@[i as int] < n);
            assert(ids.take(i + 1 - start).drop_last() =~= ids.take(i - start));
            seed_one(
                indices[i],
                distance_to,
                workspace,
                Ghost(q),
                Ghost(model::seeded_all(q, before, ids.take(i - start))),
                Ghost(true),
            );
            i = i + 1;
        }
        proof {
            assert(ids.take(end - start) =~= ids);
            assert(leaves.take(l + 1).drop_last() =~= leaves.take(l as int));
        }
        l = l + 1;
    }
    assert(leaves.take(l as int) =~= leaves);
}

/// Draw random points to start from where there are fewer seeds than results asked for.
pub(crate) fn fill_random<F: Fn(i32) -> Single>(
    n_points: usize,
    k: usize,
    distance_to: &F,
    rng: &mut FastRng,
    workspace: &mut SearchWorkspace,
    Ghost(q): Ghost<model::Quest>,
    Ghost(p): Ghost<model::Progress>,
)
    requires
        old(workspace).holds(n_points, k, p),
        k == 0 || n_points > 0,
        n_points <= i32::MAX,
        q.k == k,
        answers(*distance_to, q.distance, n_points as int),
    ensures
        final(workspace).holds(
            n_points,
            k,
            model::scattered(q, p, n_points as int, model::missing(q, p), *old(rng)).0,
        ),
        *final(rng) == model::scattered(
            q,
            p,
            n_points as int,
            model::missing(q, p),
            *old(rng),
        ).1,
{
    let missing: usize = k.saturating_sub(workspace.seed_set.len());
    let ghost start = *rng;
    let mut m: usize = 0;
    while m < missing
        invariant
            m <= missing,
            missing > 0 ==> n_points > 0,
            n_points <= i32::MAX,
            q.k == k,
            answers(*distance_to, q.distance, n_points as int),
            workspace.holds(
                n_points,
                k,
                model::scattered(q, p, n_points as int, m as nat, start).0,
            ),
            *rng == model::scattered(q, p, n_points as int, m as nat, start).1,
        decreases missing - m,
    {
        let idx: i32 = rng.next_index(n_points) as i32;
        seed_one(
            idx,
            distance_to,
            workspace,
            Ghost(q),
            Ghost(model::scattered(q, p, n_points as int, m as nat, start).0),
            Ghost(false),
        );
        m = m + 1;
    }
}

/// Go through the graph from the seeds, nearest first, until the nearest is too far.
pub(crate) fn traverse<F: Fn(i32) -> Single, B: Fn(Single, Single, Single) -> Single>(
    graph: &SearchGraph,
    k: usize,
    epsilon: Single,
    min_distance: Single,
    fills: bool,
    distance_to: &F,
    bound: &B,
    workspace: &mut SearchWorkspace,
    Ghost(q): Ghost<model::Quest>,
    Ghost(p): Ghost<model::Progress>,
)
    requires
        graph.wf(),
        old(workspace).holds(graph.n_vertices, k, p),
        model::consistent(q, graph.n_vertices as int, p),
        q.k == k,
        q.fills == fills,
        q.bound == (|furthest: Single|
            calls::image3(*bound, furthest, epsilon, min_distance)),
        calls::maps3(*bound),
        answers(*distance_to, q.distance, graph.n_vertices as int),
    ensures
        final(workspace).holds(
            graph.n_vertices,
            k,
            model::traversed(q, *graph, p, (q.bound)(bounded::furthest(p.found, q.k))),
        ),
{
    let n: usize = graph.n_vertices;
    let mut distance_bound: Single = bound(
        workspace.result_heap.max_distance(),
        epsilon,
        min_distance,
    );
    let ghost end = model::traversed(q, *graph, p, distance_bound);
    let ghost mut now = p;
    loop
        invariant_except_break
            model::traversed(q, *graph, now, distance_bound) == end,
            workspace.holds(n, k, now),
            model::consistent(q, n as int, now),
        invariant
            graph.wf(),
            n == graph.n_vertices,
            q.k == k,
            q.fills == fills,
            q.bound == (|furthest: Single|
                calls::image3(*bound, furthest, epsilon, min_distance)),
            calls::maps3(*bound),
            answers(*distance_to, q.distance, n as int),
        ensures
            workspace.holds(n, k, end),
        decreases model::remaining(n as int, now),
    {
        match workspace.seed_set.pop() {
            None => {
                break;
            },
            Some((vertex_distance, vertex)) => {
                proof {
                    model::popping_keeps(q, n as int, now);
                }
                if (!fills || workspace.result_heap.is_full()) && vertex_distance.ge(
                    distance_bound,
                ) {
                    break;
                }
                let ghost row = graph.row(vertex as int);
                let ghost start = model::popped(now);
                let ghost bound_before = distance_bound;
                let neighbors = graph.neighbors(vertex as usize);
                let mut i: usize = 0;
                proof {
                    assert(row.take(0) =~= Seq::empty());
                }
                while i < neighbors.len()
                    invariant
                        i <= neighbors@.len(),
                        neighbors@ == row,
                        n == graph.n_vertices,
                        forall|j: int| 0 <= j < row.len() ==> #[trigger] row[j] < n,
                        q.k == k,
                        q.bound == (|furthest: Single|
                            calls::image3(*bound, furthest, epsilon, min_distance)),
                        calls::maps3(*bound),
                        answers(*distance_to, q.distance, n as int),
                        workspace.holds(
                            n,
                            k,
                            model::scanned_all(q, start, bound_before, row.take(i as int)).0,
                        ),
                        distance_bound == model::scanned_all(
                            q,
                            start,
                            bound_before,
                            row.take(i as int),
                        ).1,
                    decreases neighbors@.len() - i,
                {
                    let neighbor: i32 = neighbors[i];
                    let ghost s = model::scanned_all(q, start, bound_before, row.take(i as int));
                    proof {
                        assert(row.take(i + 1).drop_last() =~= row.take(i as int));
                        assert(row[i as int] < n);
                    }
                    i = i + 1;
                    if neighbor < 0 {
                        continue;
                    }
                    if workspace.visited.check_and_mark(neighbor) {
                        assert(s.0.visited.insert(neighbor as int) =~= s.0.visited);
                        continue;
                    }
                    let d: Single = distance_to(neighbor);
                    if d.lt(distance_bound) {
                        let inserted: bool = workspace.result_heap.push(d, neighbor);
                        workspace.seed_set.push(d, neighbor);
                        if inserted {
                            distance_bound = bound(
                                workspace.result_heap.max_distance(),
                                epsilon,
                                min_distance,
                            );
                        }
                    }
                }
                proof {
                    assert(row.take(row.len() as int) =~= row);
                    model::row_is_within(*graph, vertex as int);
                    model::scanning_all_keeps(q, n as int, start, bound_before, row);
                    model::visited_stays_within(
                        q,
                        n as int,
                        model::scanned_all(q, start, bound_before, row).0,
                    );
                    now = model::scanned_all(q, start, bound_before, row).0;
                }
            },
        }
    }
}

} // verus!
