//! The order of heap entries, and what keeps an array in heap order.

use crate::single::Single;
use vstd::multiset::Multiset;
use vstd::prelude::*;
use vstd::seq_lib::to_multiset_remove;

verus! {

/// An integer by which entries are ordered: first the distance, then the index.
pub open spec fn key(e: (Single, i32)) -> int {
    e.0.total() * 0x1_0000_0000 + e.1
}

/// Whether `a` comes before `b`.
pub fn before(a: (Single, i32), b: (Single, i32)) -> (r: bool)
    ensures
        r == (key(a) < key(b)),
{
    let x: i64 = a.0.total_key();
    let y: i64 = b.0.total_key();
    x < y || (x == y && a.1 < b.1)
}

/// Entries with one key are equal.
pub proof fn key_is_injective(a: (Single, i32), b: (Single, i32))
    requires
        key(a) == key(b),
    ensures
        a == b,
{
    Single::total_is_injective(a.0, b.0);
}

/// Each entry is at or before every later one.
pub open spec fn ascending(s: Seq<(Single, i32)>) -> bool {
    forall|i: int, j: int| 0 <= i <= j < s.len() ==> key(#[trigger] s[i]) <= key(#[trigger] s[j])
}

/// `x` is in `m` and no entry of `m` comes before it.
pub open spec fn is_first(m: Multiset<(Single, i32)>, x: (Single, i32)) -> bool {
    m.contains(x) && forall|y: (Single, i32)| #[trigger] m.contains(y) ==> key(x) <= key(y)
}

/// `x` is in `m` and no entry of `m` comes after it.
pub open spec fn is_last(m: Multiset<(Single, i32)>, x: (Single, i32)) -> bool {
    m.contains(x) && forall|y: (Single, i32)| #[trigger] m.contains(y) ==> key(y) <= key(x)
}

/// The first entry of `m`.
pub open spec fn first(m: Multiset<(Single, i32)>) -> (Single, i32) {
    choose|x: (Single, i32)| is_first(m, x)
}

/// The last entry of `m`.
pub open spec fn last(m: Multiset<(Single, i32)>) -> (Single, i32) {
    choose|x: (Single, i32)| is_last(m, x)
}

/// The entries of `m` in ascending order.
pub open spec fn in_order(m: Multiset<(Single, i32)>) -> Seq<(Single, i32)> {
    choose|s: Seq<(Single, i32)>| ascending(s) && s.to_multiset() == m
}

/// What is first is determined.
pub proof fn first_is_unique(m: Multiset<(Single, i32)>, x: (Single, i32))
    requires
        is_first(m, x),
    ensures
        x == first(m),
{
    key_is_injective(x, first(m));
}

/// What is last is determined.
pub proof fn last_is_unique(m: Multiset<(Single, i32)>, x: (Single, i32))
    requires
        is_last(m, x),
    ensures
        x == last(m),
{
    key_is_injective(x, last(m));
}

/// What is first in a multiset that holds something is in it.
pub proof fn first_exists(m: Multiset<(Single, i32)>)
    requires
        m.len() > 0,
    ensures
        is_first(m, first(m)),
    decreases m.len(),
{
    broadcast use vstd::multiset::group_multiset_axioms;

    let x = m.choose();
    let rest = m.remove(x);
    if rest.len() == 0 {
        assert forall|y: (Single, i32)| #[trigger] m.contains(y) implies key(x)
            <= key(y) by {
            if y != x {
                assert(rest.count(y) > 0);
                assert(rest.contains(y));
                assert(false);
            }
        }
        assert(is_first(m, x));
    } else {
        first_exists(rest);
        let y = first(rest);
        let z = if key(x) <= key(y) {
            x
        } else {
            y
        };
        assert forall|w: (Single, i32)| #[trigger] m.contains(w) implies key(z)
            <= key(w) by {
            if w != x {
                assert(rest.count(w) > 0);
                assert(rest.contains(w));
            }
        }
        assert(m.contains(y));
        assert(is_first(m, z));
    }
}

/// What is last in a multiset that holds something is in it.
pub proof fn last_exists(m: Multiset<(Single, i32)>)
    requires
        m.len() > 0,
    ensures
        is_last(m, last(m)),
    decreases m.len(),
{
    broadcast use vstd::multiset::group_multiset_axioms;

    let x = m.choose();
    let rest = m.remove(x);
    if rest.len() == 0 {
        assert forall|y: (Single, i32)| #[trigger] m.contains(y) implies key(y)
            <= key(x) by {
            if y != x {
                assert(rest.count(y) > 0);
                assert(rest.contains(y));
                assert(false);
            }
        }
        assert(is_last(m, x));
    } else {
        last_exists(rest);
        let y = last(rest);
        let z = if key(y) <= key(x) {
            x
        } else {
            y
        };
        assert forall|w: (Single, i32)| #[trigger] m.contains(w) implies key(w)
            <= key(z) by {
            if w != x {
                assert(rest.count(w) > 0);
                assert(rest.contains(w));
            }
        }
        assert(m.contains(y));
        assert(is_last(m, z));
    }
}

/// Two ascending arrangements of the same entries are equal.
pub proof fn ascending_is_unique(a: Seq<(Single, i32)>, b: Seq<(Single, i32)>)
    requires
        ascending(a),
        ascending(b),
        a.to_multiset() == b.to_multiset(),
    ensures
        a == b,
    decreases a.len(),
{
    a.to_multiset_ensures();
    b.to_multiset_ensures();
    assert(a.len() == b.len());
    if a.len() > 0 {
        let x = a.last();
        let y = b.last();
        assert(b.contains(x)) by {
            assert(a.contains(x));
            assert(a.to_multiset().count(x) > 0);
        }
        assert(a.contains(y)) by {
            assert(b.contains(y));
            assert(b.to_multiset().count(y) > 0);
        }
        let i = choose|i: int| 0 <= i < b.len() && b[i] == x;
        let j = choose|j: int| 0 <= j < a.len() && a[j] == y;
        assert(key(b[i]) <= key(b[b.len() - 1]));
        assert(key(a[j]) <= key(a[a.len() - 1]));
        key_is_injective(x, y);
        let n = a.len() - 1;
        assert(a.remove(n) =~= a.drop_last());
        assert(b.remove(n) =~= b.drop_last());
        ascending_is_unique(a.drop_last(), b.drop_last());
        assert(a =~= a.drop_last().push(x));
        assert(b =~= b.drop_last().push(y));
    }
}

/// An ascending arrangement is the one that [`in_order`] names.
pub proof fn in_order_is(s: Seq<(Single, i32)>)
    requires
        ascending(s),
    ensures
        in_order(s.to_multiset()) == s,
{
    let t = in_order(s.to_multiset());
    assert(ascending(t) && t.to_multiset() == s.to_multiset());
    ascending_is_unique(s, t);
}

/// A multiset can be put in order.
pub proof fn in_order_exists(m: Multiset<(Single, i32)>)
    ensures
        ascending(in_order(m)),
        in_order(m).to_multiset() == m,
        in_order(m).len() == m.len(),
    decreases m.len(),
{
    broadcast use vstd::multiset::group_multiset_axioms;

    if m.len() == 0 {
        let s = Seq::<(Single, i32)>::empty();
        s.to_multiset_ensures();
        assert(s.to_multiset() =~= Multiset::empty());
        assert(m =~= Multiset::empty());
        in_order_is(s);
    } else {
        last_exists(m);
        let x = last(m);
        let rest = m.remove(x);
        in_order_exists(rest);
        let s = in_order(rest);
        let t = s.push(x);
        s.to_multiset_ensures();
        t.to_multiset_ensures();
        assert(t.to_multiset() =~= m);
        assert forall|i: int, j: int| 0 <= i <= j < t.len() implies key(#[trigger] t[i])
            <= key(#[trigger] t[j]) by {
            if j == s.len() && i < j {
                assert(s.contains(s[i]));
                assert(rest.count(s[i]) > 0);
                assert(m.contains(s[i]));
            }
        }
        in_order_is(t);
    }
}

/// Replacing one element takes it out of the multiset and puts the other in.
pub proof fn update_multiset<T>(s: Seq<T>, i: int, v: T)
    requires
        0 <= i < s.len(),
    ensures
        s.update(i, v).to_multiset() == s.to_multiset().remove(s[i]).insert(v),
{
    broadcast use vstd::multiset::group_multiset_axioms;

    let t = s.update(i, v);
    assert(t.remove(i) =~= s.remove(i));
    to_multiset_remove(s, i);
    to_multiset_remove(t, i);
    t.to_multiset_ensures();
    assert(t.contains(t[i]));
    assert(t.to_multiset().count(v) > 0);
    assert(t.to_multiset() =~= s.to_multiset().remove(s[i]).insert(v));
}

/// `s` with two elements exchanged.
pub open spec fn swapped<T>(s: Seq<T>, i: int, j: int) -> Seq<T> {
    s.update(i, s[j]).update(j, s[i])
}

/// Exchanging two elements keeps the multiset.
pub proof fn swap_multiset<T>(s: Seq<T>, i: int, j: int)
    requires
        0 <= i < s.len(),
        0 <= j < s.len(),
    ensures
        swapped(s, i, j).to_multiset() == s.to_multiset(),
{
    update_multiset(s, i, s[j]);
    update_multiset(s.update(i, s[j]), j, s[i]);
    s.to_multiset_ensures();
    assert(s.contains(s[i]));
    assert(s.contains(s[j]));
    assert(s.to_multiset().count(s[i]) > 0);
    assert(s.to_multiset().count(s[j]) > 0);
    assert(swapped(s, i, j).to_multiset() =~= s.to_multiset());
}

/// The position above `i` in an array-backed binary tree.
pub open spec fn parent(i: int) -> int {
    (i - 1) / 2
}

/// No key exceeds the one above it.
pub open spec fn heaped(keys: Seq<int>) -> bool {
    forall|i: int| 1 <= i < keys.len() ==> #[trigger] keys[i] <= keys[parent(i)]
}

/// Heap order, but for what lies directly below `pos`.
pub open spec fn heaped_but_below(keys: Seq<int>, pos: int) -> bool {
    &&& 0 <= pos < keys.len()
    &&& forall|i: int|
        1 <= i < keys.len() && parent(i) != pos ==> #[trigger] keys[i] <= keys[parent(i)]
    &&& pos > 0 ==> forall|i: int|
        1 <= i < keys.len() && parent(i) == pos ==> #[trigger] keys[i] <= keys[parent(pos)]
}

/// Heap order, but for `pos` and what lies above it.
pub open spec fn heaped_but_above(keys: Seq<int>, pos: int) -> bool {
    &&& 0 <= pos < keys.len()
    &&& forall|i: int| 1 <= i < keys.len() && i != pos ==> #[trigger] keys[i] <= keys[parent(i)]
    &&& pos > 0 ==> forall|i: int|
        1 <= i < keys.len() && parent(i) == pos ==> #[trigger] keys[i] <= keys[parent(pos)]
}

/// The root of a heap has the largest key.
pub proof fn root_is_largest(keys: Seq<int>, i: int)
    requires
        heaped(keys),
        0 <= i < keys.len(),
    ensures
        keys[i] <= keys[0],
    decreases i,
{
    if i > 0 {
        root_is_largest(keys, parent(i));
    }
}

/// Sinking the key at `pos` below its largest child moves the exception down.
pub proof fn sink(keys: Seq<int>, pos: int, child: int)
    requires
        heaped_but_below(keys, pos),
        0 <= child < keys.len(),
        child == 2 * pos + 1 || child == 2 * pos + 2,
        2 * pos + 1 < keys.len() ==> keys[2 * pos + 1] <= keys[child],
        2 * pos + 2 < keys.len() ==> keys[2 * pos + 2] <= keys[child],
        keys[pos] <= keys[child],
    ensures
        heaped_but_below(swapped(keys, pos, child), child),
{
    let next = swapped(keys, pos, child);
    assert forall|i: int| 1 <= i < next.len() && parent(i) != child implies #[trigger] next[i]
        <= next[parent(i)] by {
        if parent(i) == pos {
            assert(i == 2 * pos + 1 || i == 2 * pos + 2);
        }
        assert(keys[i] == keys[i]);
    }
    assert forall|i: int| 1 <= i < next.len() && parent(i) == child implies #[trigger] next[i]
        <= next[parent(child)] by {
        assert(keys[i] <= keys[parent(i)]);
    }
}

/// With no larger key directly below `pos`, the array is a heap.
pub proof fn sunk(keys: Seq<int>, pos: int)
    requires
        heaped_but_below(keys, pos),
        2 * pos + 1 < keys.len() ==> keys[2 * pos + 1] <= keys[pos],
        2 * pos + 2 < keys.len() ==> keys[2 * pos + 2] <= keys[pos],
    ensures
        heaped(keys),
{
    assert forall|i: int| 1 <= i < keys.len() implies #[trigger] keys[i] <= keys[parent(i)] by {
        if parent(i) == pos {
            assert(i == 2 * pos + 1 || i == 2 * pos + 2);
        }
    }
}

/// Raising the key at `pos` above its parent moves the exception up.
pub proof fn rise(keys: Seq<int>, pos: int)
    requires
        heaped_but_above(keys, pos),
        pos > 0,
        keys[parent(pos)] <= keys[pos],
    ensures
        heaped_but_above(swapped(keys, parent(pos), pos), parent(pos)),
{
    let up = parent(pos);
    let next = swapped(keys, up, pos);
    assert forall|i: int| 1 <= i < next.len() && i != up implies #[trigger] next[i]
        <= next[parent(i)] by {
        assert(keys[i] == keys[i]);
        if i != pos {
            assert(keys[i] <= keys[parent(i)]);
        }
    }
    if up > 0 {
        assert(keys[up] <= keys[parent(up)]);
        assert forall|i: int| 1 <= i < next.len() && parent(i) == up implies #[trigger] next[i]
            <= next[parent(up)] by {
            if i != pos {
                assert(keys[i] <= keys[parent(i)]);
            }
        }
    }
}

/// Changing the root breaks the order at most directly below it.
pub proof fn new_root(keys: Seq<int>, k: int)
    requires
        heaped(keys),
        keys.len() > 0,
    ensures
        heaped_but_below(keys.update(0, k), 0),
{
    let next = keys.update(0, k);
    assert forall|i: int| 1 <= i < next.len() && parent(i) != 0 implies #[trigger] next[i]
        <= next[parent(i)] by {
        assert(keys[i] <= keys[parent(i)]);
    }
}

} // verus!
