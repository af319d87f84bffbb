//! Array-backed binary heaps of entries, with the first or the last entry on top.

use crate::heap::order;
use crate::heap::order::{before, root_is_largest, rise, sink, sunk, swap_multiset};
use crate::single::Single;
use vstd::prelude::*;

verus! {

/// The keys by which an array is a heap: the larger one is nearer to the top.
pub open spec fn keys(s: Seq<(Single, i32)>, first_on_top: bool) -> Seq<int> {
    Seq::new(
        s.len(),
        |i: int|
            if first_on_top {
                -order::key(s[i])
            } else {
                order::key(s[i])
            },
    )
}

/// `s` is a binary heap.
pub open spec fn is_heap(s: Seq<(Single, i32)>, first_on_top: bool) -> bool {
    order::heaped(keys(s, first_on_top))
}

fn above(a: (Single, i32), b: (Single, i32), first_on_top: bool) -> (r: bool)
    ensures
        first_on_top ==> r == (order::key(a) < order::key(b)),
        !first_on_top ==> r == (order::key(a) > order::key(b)),
{
    if first_on_top {
        before(a, b)
    } else {
        before(b, a)
    }
}

fn exchange(v: &mut Vec<(Single, i32)>, i: usize, j: usize)
    requires
        i < old(v)@.len(),
        j < old(v)@.len(),
    ensures
        final(v)@ == order::swapped(old(v)@, i as int, j as int),
{
    let a = v[i];
    let b = v[j];
    v.set(i, b);
    v.set(j, a);
}

/// Put an entry into a heap.
pub fn insert(v: &mut Vec<(Single, i32)>, e: (Single, i32), first_on_top: bool)
    requires
        is_heap(old(v)@, first_on_top),
    ensures
        is_heap(final(v)@, first_on_top),
        final(v)@.to_multiset() == old(v)@.to_multiset().insert(e),
        final(v)@.len() == old(v)@.len() + 1,
{
    let mut pos: usize = v.len();
    v.push(e);
    proof {
        old(v)@.to_multiset_ensures();
        let before = keys(old(v)@, first_on_top);
        let after = keys(v@, first_on_top);
        assert forall|i: int| 1 <= i < after.len() && i != pos implies #[trigger] after[i]
            <= after[order::parent(i)] by {
            assert(before[i] <= before[order::parent(i)]);
        }
    }
    while pos > 0
        invariant_except_break
            pos < v@.len(),
            order::heaped_but_above(keys(v@, first_on_top), pos as int),
        invariant
            v@.len() == old(v)@.len() + 1,
            v@.to_multiset() == old(v)@.to_multiset().insert(e),
        ensures
            is_heap(v@, first_on_top),
        decreases pos,
    {
        let up: usize = (pos - 1) / 2;
        let ghost now = v@;
        if above(v[pos], v[up], first_on_top) {
            exchange(v, up, pos);
            proof {
                swap_multiset(now, up as int, pos as int);
                rise(keys(now, first_on_top), pos as int);
                assert(keys(v@, first_on_top) =~= order::swapped(
                    keys(now, first_on_top),
                    up as int,
                    pos as int,
                ));
            }
            pos = up;
        } else {
            proof {
                let k = keys(v@, first_on_top);
                assert forall|i: int| 1 <= i < k.len() implies #[trigger] k[i]
                    <= k[order::parent(i)] by {}
            }
            break;
        }
    }
}

/// Restore the heap below its top entry.
pub fn settle(v: &mut Vec<(Single, i32)>, first_on_top: bool)
    requires
        old(v)@.len() > 0 ==> order::heaped_but_below(keys(old(v)@, first_on_top), 0),
    ensures
        is_heap(final(v)@, first_on_top),
        final(v)@.to_multiset() == old(v)@.to_multiset(),
        final(v)@.len() == old(v)@.len(),
{
    let n: usize = v.len();
    if n == 0 {
        return ;
    }
    let mut pos: usize = 0;
    loop
        invariant_except_break
            pos < n,
            order::heaped_but_below(keys(v@, first_on_top), pos as int),
        invariant
            v@.len() == n,
            n == old(v)@.len(),
            v@.to_multiset() == old(v)@.to_multiset(),
        ensures
            is_heap(v@, first_on_top),
        decreases n - pos,
    {
        let mut top: usize = pos;
        let ghost now = v@;
        if pos < n / 2 && above(v[2 * pos + 1], v[top], first_on_top) {
            top = 2 * pos + 1;
        }
        if pos < (n - 1) / 2 && above(v[2 * pos + 2], v[top], first_on_top) {
            top = 2 * pos + 2;
        }
        if top == pos {
            proof {
                sunk(keys(v@, first_on_top), pos as int);
            }
            break;
        }
        exchange(v, pos, top);
        proof {
            swap_multiset(now, pos as int, top as int);
            sink(keys(now, first_on_top), pos as int, top as int);
            assert(keys(v@, first_on_top) =~= order::swapped(
                keys(now, first_on_top),
                pos as int,
                top as int,
            ));
        }
        pos = top;
    }
}

/// Take the top entry out of a heap that holds one.
pub fn take_top(v: &mut Vec<(Single, i32)>, first_on_top: bool) -> (e: (Single, i32))
    requires
        is_heap(old(v)@, first_on_top),
        old(v)@.len() > 0,
    ensures
        e == old(v)@[0],
        is_heap(final(v)@, first_on_top),
        final(v)@.to_multiset() == old(v)@.to_multiset().remove(e),
        final(v)@.len() == old(v)@.len() - 1,
{
    let e = v.swap_remove(0);
    proof {
        let before = old(v)@;
        let n = before.len() - 1;
        if n > 0 {
            let moved = before.update(0, before[n]);
            assert(v@ =~= moved.remove(n));
            order::update_multiset(before, 0, before[n]);
            moved.to_multiset_ensures();
            before.to_multiset_ensures();
            assert(before.remove(0).contains(before.remove(0)[n - 1]));
            before.remove(0).to_multiset_ensures();
            assert(v@.to_multiset() =~= before.to_multiset().remove(e));
            let k = keys(before, first_on_top);
            let l = keys(v@, first_on_top);
            assert forall|i: int| 1 <= i < l.len() && order::parent(i) != 0 implies #[trigger] l[i]
                <= l[order::parent(i)] by {
                assert(k[i] <= k[order::parent(i)]);
            }
        } else {
            assert(v@ =~= before.remove(0));
            before.to_multiset_ensures();
        }
    }
    settle(v, first_on_top);
    e
}

/// The top entry of a heap is extreme.
pub proof fn top_is_extreme(s: Seq<(Single, i32)>, first_on_top: bool)
    requires
        is_heap(s, first_on_top),
        s.len() > 0,
    ensures
        first_on_top ==> order::is_first(s.to_multiset(), s[0]),
        first_on_top ==> s[0] == order::first(s.to_multiset()),
        !first_on_top ==> order::is_last(s.to_multiset(), s[0]),
        !first_on_top ==> s[0] == order::last(s.to_multiset()),
{
    let m = s.to_multiset();
    s.to_multiset_ensures();
    assert(s.contains(s[0]));
    assert forall|y: (Single, i32)| #[trigger] m.contains(y) implies if first_on_top {
        order::key(s[0]) <= order::key(y)
    } else {
        order::key(y) <= order::key(s[0])
    } by {
        assert(s.contains(y));
        let i = choose|i: int| 0 <= i < s.len() && s[i] == y;
        root_is_largest(keys(s, first_on_top), i);
    }
    if first_on_top {
        order::first_is_unique(m, s[0]);
    } else {
        order::last_is_unique(m, s[0]);
    }
}

} // verus!
