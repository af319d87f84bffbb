//! A bounded max-heap over two parallel slices, with duplicate checking.

use crate::heap::order;
use crate::heap::order::{new_root, sink, sunk};
use crate::single::Single;
use vstd::prelude::*;
use vstd::slice::slice_subrange;

verus! {

/// The position of the largest priority among `pos` and what lies directly below it; the
/// earliest of several.
pub open spec fn highest(p: Seq<Single>, pos: int) -> int {
    let left = 2 * pos + 1;
    let right = 2 * pos + 2;
    let upper = if left < p.len() && p[pos].below(p[left]) {
        left
    } else {
        pos
    };
    if right < p.len() && p[upper].below(p[right]) {
        right
    } else {
        upper
    }
}

/// The priorities and the indices after the pair at `pos` has sunk to its place.
pub open spec fn settled(p: Seq<Single>, x: Seq<i32>, pos: int) -> (Seq<Single>, Seq<i32>)
    decreases p.len() - pos,
    when 0 <= pos < p.len()
{
    let top = highest(p, pos);
    if top == pos {
        (p, x)
    } else {
        settled(order::swapped(p, pos, top), order::swapped(x, pos, top), top)
    }
}

/// The priorities and the indices after a push of `priority` and `index`: unchanged where the
/// priority is no better than the worst one held or the index is held already; otherwise the
/// worst pair gives way.
pub open spec fn after_push(
    p: Seq<Single>,
    x: Seq<i32>,
    priority: Single,
    index: i32,
) -> (Seq<Single>, Seq<i32>) {
    if priority.at_least(p[0]) || x.contains(index) {
        (p, x)
    } else {
        settled(p.update(0, priority), x.update(0, index), 0)
    }
}

/// No priority is NaN, and none exceeds the one above it.
pub open spec fn is_max_heap(p: Seq<Single>) -> bool {
    &&& forall|i: int| 0 <= i < p.len() ==> !(#[trigger] p[i]).nan()
    &&& order::heaped(ranks(p))
}

/// The priorities as integers in the same order.
pub open spec fn ranks(p: Seq<Single>) -> Seq<int> {
    Seq::new(p.len(), |i: int| p[i].rank())
}

/// No index but the placeholder `-1` is held twice.
pub open spec fn without_duplicates(x: Seq<i32>) -> bool {
    forall|i: int, j: int|
        0 <= i < j < x.len() && #[trigger] x[i] == #[trigger] x[j] ==> x[i] == -1
}

/// Priorities paired with indices.
pub open spec fn pairs(p: Seq<Single>, x: Seq<i32>) -> Seq<(Single, i32)> {
    Seq::new(p.len(), |i: int| (p[i], x[i]))
}

proof fn settling_keeps_pairs(p: Seq<Single>, x: Seq<i32>, pos: int)
    requires
        0 <= pos < p.len(),
        p.len() == x.len(),
    ensures
        settled(p, x, pos).0.len() == p.len(),
        settled(p, x, pos).1.len() == p.len(),
        pairs(settled(p, x, pos).0, settled(p, x, pos).1).to_multiset() == pairs(
            p,
            x,
        ).to_multiset(),
        without_duplicates(x) ==> without_duplicates(settled(p, x, pos).1),
    decreases p.len() - pos,
{
    let top = highest(p, pos);
    if top != pos {
        let q = order::swapped(p, pos, top);
        let y = order::swapped(x, pos, top);
        order::swap_multiset(pairs(p, x), pos, top);
        assert(pairs(q, y) =~= order::swapped(pairs(p, x), pos, top));
        settling_keeps_pairs(q, y, top);
    }
}

proof fn settling_restores_order(p: Seq<Single>, x: Seq<i32>, pos: int)
    requires
        0 <= pos < p.len(),
        p.len() == x.len(),
        forall|i: int| 0 <= i < p.len() ==> !(#[trigger] p[i]).nan(),
        order::heaped_but_below(ranks(p), pos),
    ensures
        is_max_heap(settled(p, x, pos).0),
    decreases p.len() - pos,
{
    let top = highest(p, pos);
    if top == pos {
        sunk(ranks(p), pos);
    } else {
        let q = order::swapped(p, pos, top);
        sink(ranks(p), pos, top);
        assert(ranks(q) =~= order::swapped(ranks(p), pos, top));
        settling_restores_order(q, order::swapped(x, pos, top), top);
    }
}

/// A push drops the worst pair for the new one, or does nothing.
pub proof fn push_replaces_the_worst(p: Seq<Single>, x: Seq<i32>, priority: Single, index: i32)
    requires
        p.len() == x.len(),
        p.len() > 0,
    ensures
        ({
            let (q, y) = after_push(p, x, priority, index);
            let taken = !priority.at_least(p[0]) && !x.contains(index);
            &&& q.len() == p.len()
            &&& y.len() == p.len()
            &&& !taken ==> q == p && y == x
            &&& taken ==> pairs(q, y).to_multiset() == pairs(p, x).to_multiset().remove(
                (p[0], x[0]),
            ).insert((priority, index))
        }),
{
    if !priority.at_least(p[0]) && !x.contains(index) {
        settling_keeps_pairs(p.update(0, priority), x.update(0, index), 0);
        order::update_multiset(pairs(p, x), 0, (priority, index));
        assert(pairs(p.update(0, priority), x.update(0, index)) =~= pairs(p, x).update(
            0,
            (priority, index),
        ));
    }
}

/// Where no priority is NaN, a push keeps the slices a max-heap.
pub proof fn push_keeps_the_heap(p: Seq<Single>, x: Seq<i32>, priority: Single, index: i32)
    requires
        p.len() == x.len(),
        p.len() > 0,
        is_max_heap(p),
        !priority.nan(),
    ensures
        is_max_heap(after_push(p, x, priority, index).0),
{
    if !priority.at_least(p[0]) && !x.contains(index) {
        new_root(ranks(p), priority.rank());
        assert(ranks(p.update(0, priority)) =~= ranks(p).update(0, priority.rank()));
        settling_restores_order(p.update(0, priority), x.update(0, index), 0);
    }
}

/// A push puts no index in that is there already.
pub proof fn push_keeps_indices_distinct(p: Seq<Single>, x: Seq<i32>, priority: Single, index: i32)
    requires
        p.len() == x.len(),
        p.len() > 0,
        without_duplicates(x),
    ensures
        without_duplicates(after_push(p, x, priority, index).1),
{
    if !priority.at_least(p[0]) && !x.contains(index) {
        let y = x.update(0, index);
        assert forall|i: int, j: int|
            0 <= i < j < y.len() && #[trigger] y[i] == #[trigger] y[j] implies y[i] == -1 by {
            assert(y[j] == x[j]);
            if i > 0 {
                assert(y[i] == x[i]);
            } else {
                assert(x.contains(index));
            }
        }
        settling_keeps_pairs(p.update(0, priority), y, 0);
    }
}

fn exchange<T: Copy>(v: &mut [T], i: usize, j: usize)
    requires
        i < old(v)@.len(),
        j < old(v)@.len(),
    ensures
        final(v)@ == order::swapped(old(v)@, i as int, j as int),
{
    let a = v[i];
    let b = v[j];
    v[i] = b;
    v[j] = a;
}

/// Push to a bounded priority max-heap with duplicate checking.
pub fn checked_heap_push_bench(
    priorities: &mut [Single],
    indices: &mut [i32],
    priority: Single,
    index: i32,
)
    requires
        old(priorities)@.len() == old(indices)@.len(),
        old(priorities)@.len() > 0,
    ensures
        (final(priorities)@, final(indices)@) == after_push(
            old(priorities)@,
            old(indices)@,
            priority,
            index,
        ),
        final(priorities)@.len() == old(priorities)@.len(),
        final(indices)@.len() == old(indices)@.len(),
{
    if priority.ge(priorities[0]) {
        return ;
    }
    let n: usize = priorities.len();
    let mut i: usize = 0;
    while i < n
        invariant
            i <= n,
            n == indices@.len(),
            indices@ == old(indices)@,
            priorities@ == old(priorities)@,
            !priority.at_least(priorities@[0]),
            forall|j: int| 0 <= j < i ==> #[trigger] indices@[j] != index,
        decreases n - i,
    {
        if indices[i] == index {
            return ;
        }
        i = i + 1;
    }
    assert(!indices@.contains(index));
    priorities[0] = priority;
    indices[0] = index;
    let ghost p = priorities@;
    let ghost x = indices@;
    let mut pos: usize = 0;
    loop
        invariant_except_break
            settled(priorities@, indices@, pos as int) == settled(p, x, 0),
        invariant
            priorities@.len() == n,
            indices@.len() == n,
            pos < n,
        ensures
            (priorities@, indices@) == settled(p, x, 0),
        decreases n - pos,
    {
        let mut largest: usize = pos;
        if pos < n / 2 && priorities[largest].lt(priorities[2 * pos + 1]) {
            largest = 2 * pos + 1;
        }
        if pos < (n - 1) / 2 && priorities[largest].lt(priorities[2 * pos + 2]) {
            largest = 2 * pos + 2;
        }
        assert(largest == highest(priorities@, pos as int));
        if largest != pos {
            exchange(priorities, pos, largest);
            exchange(indices, pos, largest);
            pos = largest;
        } else {
            break;
        }
    }
    proof {
        assert(p =~= old(priorities)@.update(0, priority));
        assert(x =~= old(indices)@.update(0, index));
    }
}

/// How many of `x` are no placeholder.
pub open spec fn present(x: Seq<i32>) -> nat
    decreases x.len(),
{
    if x.len() == 0 {
        0
    } else {
        present(x.drop_last()) + if x.last() >= 0 {
            1nat
        } else {
            0
        }
    }
}

/// What is present is counted once for every place that holds no placeholder.
pub proof fn present_takes_every_place(x: Seq<i32>)
    ensures
        present(x) == x.filter(|v: i32| v >= 0).len(),
    decreases x.len(),
{
    reveal(Seq::filter);
    if x.len() > 0 {
        present_takes_every_place(x.drop_last());
    }
}

proof fn present_is_bounded(x: Seq<i32>)
    ensures
        present(x) <= x.len(),
    decreases x.len(),
{
    if x.len() > 0 {
        present_is_bounded(x.drop_last());
    }
}

proof fn row_fits(row: int, rows: int, width: int)
    requires
        0 <= row < rows,
        0 <= width,
    ensures
        0 <= row * width,
        row * width + width <= rows * width,
{
    assert(0 <= row * width && row * width + width <= rows * width) by (nonlinear_arith)
        requires
            0 <= row < rows,
            0 <= width,
    ;
}

fn push_into_row(
    priorities: &mut Vec<Single>,
    indices: &mut Vec<i32>,
    row: usize,
    width: usize,
    priority: Single,
    index: i32,
)
    requires
        old(priorities)@.len() == old(indices)@.len(),
        row * width + width <= old(priorities)@.len(),
        width > 0,
    ensures
        final(priorities)@.len() == old(priorities)@.len(),
        final(indices)@.len() == old(indices)@.len(),
        (
            final(priorities)@.subrange(row * width, row * width + width),
            final(indices)@.subrange(row * width, row * width + width),
        ) == after_push(
            old(priorities)@.subrange(row * width, row * width + width),
            old(indices)@.subrange(row * width, row * width + width),
            priority,
            index,
        ),
{
    proof {
        row_fits(row as int, row + 1, width as int);
    }
    let n: usize = priorities.len();
    assert(row * width <= n);
    let start: usize = row * width;
    let (_, p) = priorities.as_mut_slice().split_at_mut(start);
    let (p, _) = p.split_at_mut(width);
    let (_, x) = indices.as_mut_slice().split_at_mut(start);
    let (x, _) = x.split_at_mut(width);
    assert(p@ =~= old(priorities)@.subrange(start as int, start + width));
    assert(x@ =~= old(indices)@.subrange(start as int, start + width));
    checked_heap_push_bench(p, x, priority, index);
    assert(priorities@.subrange(start as int, start + width) =~= p@);
    assert(indices@.subrange(start as int, start + width) =~= x@);
}

/// Push the forward and the reverse edge of every graph entry into heaps of `max_candidates`
/// pairs, one per vertex, and do so `n_iters` times with the heaps emptied in between; returns
/// the number of pushes.
///
/// `test_indices` holds `k` entries per vertex; a negative one is a placeholder and is passed
/// over. `test_priorities` holds the priorities of both edges of each entry, per iteration.
pub fn benchmark_heap_push(
    n_vertices: usize,
    k: usize,
    max_candidates: usize,
    n_iters: usize,
    test_indices: &[i32],
    test_priorities: &[Single],
) -> (total_pushes: usize)
    requires
        n_vertices * max_candidates <= usize::MAX,
        n_iters > 0 ==> n_vertices * k <= test_indices@.len(),
        n_iters > 0 ==> forall|e: int|
            0 <= e < n_vertices * k && #[trigger] test_indices@[e] >= 0 ==> {
                &&& test_indices@[e] < n_vertices
                &&& max_candidates > 0
                &&& ((n_iters - 1) * (n_vertices * k) + e) * 2 + 1 < test_priorities@.len()
            },
    ensures
        total_pushes == n_iters * present(test_indices@.take(n_vertices * k)) * 2,
{
    if n_iters == 0 {
        return 0;
    }
    let size: usize = n_vertices * max_candidates;
    assert(test_indices@.len() == test_indices.len());
    assert(test_priorities@.len() == test_priorities.len());
    let edges: usize = n_vertices * k;
    let test_indices = slice_subrange(test_indices, 0, edges);
    let mut total_pushes: usize = 0;
    let mut iter_idx: usize = 0;
    while iter_idx < n_iters
        invariant
            iter_idx <= n_iters,
            size == n_vertices * max_candidates,
            edges == n_vertices * k,
            edges == test_indices@.len(),
            forall|e: int|
                0 <= e < edges && #[trigger] test_indices@[e] >= 0 ==> {
                    &&& test_indices@[e] < n_vertices
                    &&& max_candidates > 0
                    &&& ((n_iters - 1) * edges + e) * 2 + 1 < test_priorities@.len()
                },
            test_priorities@.len() <= usize::MAX,
            total_pushes == iter_idx * present(test_indices@) * 2,
            total_pushes <= iter_idx * edges * 2,
        decreases n_iters - iter_idx,
    {
        let mut heap_priorities: Vec<Single> = vec![Single::infinity(); size];
        let mut heap_indices: Vec<i32> = vec![-1; size];
        let ghost start = total_pushes;
        let mut e: usize = 0;
        let mut i: usize = 0;
        while i < n_vertices
            invariant
                i <= n_vertices,
                e == i * k,
                edges == n_vertices * k,
                edges == test_indices@.len(),
                iter_idx < n_iters,
                size == n_vertices * max_candidates,
                heap_priorities@.len() == size,
                heap_indices@.len() == size,
                forall|e: int|
                    0 <= e < edges && #[trigger] test_indices@[e] >= 0 ==> {
                        &&& test_indices@[e] < n_vertices
                        &&& max_candidates > 0
                        &&& ((n_iters - 1) * edges + e) * 2 + 1 < test_priorities@.len()
                    },
                test_priorities@.len() <= usize::MAX,
                total_pushes == start + present(test_indices@.take(e as int)) * 2,
                start <= iter_idx * edges * 2,
                e <= edges,
            decreases n_vertices - i,
        {
            proof {
                row_fits(i as int, n_vertices as int, k as int);
                row_fits(i as int, n_vertices as int, max_candidates as int);
                assert((i + 1) * k == i * k + k) by (nonlinear_arith);
            }
            let mut j: usize = 0;
            while j < k
                invariant
                    i < n_vertices,
                    j <= k,
                    e == i * k + j,
                    i * k + k <= edges,
                    i * max_candidates + max_candidates <= size,
                    edges == test_indices@.len(),
                    iter_idx < n_iters,
                    size == n_vertices * max_candidates,
                    heap_priorities@.len() == size,
                    heap_indices@.len() == size,
                    forall|e: int|
                        0 <= e < edges && #[trigger] test_indices@[e] >= 0 ==> {
                            &&& test_indices@[e] < n_vertices
                            &&& max_candidates > 0
                            &&& ((n_iters - 1) * edges + e) * 2 + 1 < test_priorities@.len()
                        },
                    test_priorities@.len() <= usize::MAX,
                    total_pushes == start + present(test_indices@.take(e as int)) * 2,
                    start <= iter_idx * edges * 2,
                decreases k - j,
            {
                let neighbor: i32 = test_indices[e];
                proof {
                    assert(test_indices@.take(e + 1).drop_last() =~= test_indices@.take(e as int));
                    present_is_bounded(test_indices@.take(e + 1));
                    assert(test_indices@[e as int] < n_vertices);
                }
                if neighbor >= 0 {
                    proof {
                        assert(0 <= iter_idx * edges <= (n_iters - 1) * edges) by (nonlinear_arith)
                            requires
                                0 <= iter_idx <= n_iters - 1,
                                0 <= edges,
                        ;
                    }
                    let at: usize = (iter_idx * edges + e) * 2;
                    push_into_row(
                        &mut heap_priorities,
                        &mut heap_indices,
                        i,
                        max_candidates,
                        test_priorities[at],
                        neighbor,
                    );
                    total_pushes = total_pushes + 1;
                    proof {
                        row_fits(neighbor as int, n_vertices as int, max_candidates as int);
                    }
                    push_into_row(
                        &mut heap_priorities,
                        &mut heap_indices,
                        neighbor as usize,
                        max_candidates,
                        test_priorities[at + 1],
                        i as i32,
                    );
                    total_pushes = total_pushes + 1;
                }
                e = e + 1;
                j = j + 1;
            }
            i = i + 1;
        }
        proof {
            assert(test_indices@.take(edges as int) =~= test_indices@);
            present_is_bounded(test_indices@);
            let p = present(test_indices@) as int;
            assert((iter_idx + 1) * p * 2 == iter_idx * p * 2 + p * 2) by (nonlinear_arith);
            assert((iter_idx + 1) * edges * 2 == iter_idx * edges * 2 + edges * 2)
                by (nonlinear_arith);
        }
        iter_idx = iter_idx + 1;
    }
    total_pushes
}

} // verus!
