//! A max-heap that tracks the `k` smallest entries.

use crate::heap::binary;
use crate::heap::order;
use crate::single::Single;
use vstd::multiset::Multiset;
use vstd::prelude::*;

verus! {

/// The `k` smallest entries pushed so far, with the largest of them on top.
#[derive(Debug)]
pub struct BoundedHeap {
    entries: Vec<(Single, i32)>,
    k: usize,
}

/// Whether a heap that holds `m` and has room for `k` entries takes one at distance `d`: it has
/// room, or its furthest entry is further than `d`.
pub open spec fn admits(m: Multiset<(Single, i32)>, k: nat, d: Single) -> bool {
    m.len() < k || (k > 0 && d.total() < order::last(m).0.total())
}

/// What a heap that holds `m` and has room for `k` entries holds after a push of `e`.
pub open spec fn pushed(m: Multiset<(Single, i32)>, k: nat, e: (Single, i32)) -> Multiset<
    (Single, i32),
> {
    if m.len() < k {
        m.insert(e)
    } else if admits(m, k, e.0) {
        m.remove(order::last(m)).insert(e)
    } else {
        m
    }
}

/// The distance of the furthest of `k` entries; infinity while there are fewer.
pub open spec fn furthest(m: Multiset<(Single, i32)>, k: nat) -> Single {
    if m.len() < k || k == 0 {
        Single::spec_infinity()
    } else {
        order::last(m).0
    }
}

/// What a push drops is no nearer than anything that it keeps.
pub proof fn push_keeps_the_nearest(
    m: Multiset<(Single, i32)>,
    k: nat,
    e: (Single, i32),
    kept: (Single, i32),
    dropped: (Single, i32),
)
    requires
        m.len() <= k,
        pushed(m, k, e).contains(kept),
        pushed(m, k, e).count(dropped) < m.insert(e).count(dropped),
    ensures
        kept.0.total() <= dropped.0.total(),
{
    broadcast use vstd::multiset::group_multiset_axioms;

    if k > 0 {
        order::last_exists(m);
        let last = order::last(m);
        assert(m.contains(kept) || kept == e);
        if m.contains(kept) {
            assert(order::key(kept) <= order::key(last));
        }
    }
}

/// While there is room a push only adds. After that an entry that is nearer than some other takes
/// the place of the furthest, which of several as far is the one with the largest number, and any
/// other entry changes nothing.
pub proof fn push_replaces_the_furthest(
    m: Multiset<(Single, i32)>,
    k: nat,
    e: (Single, i32),
    f: (Single, i32),
)
    requires
        m.len() <= k,
        m.len() == k ==> k == 0 || m.contains(f),
        forall|g: (Single, i32)| #[trigger]
            m.contains(g) ==> g.0.total() < f.0.total() || (g.0.total() == f.0.total() && g.1
                <= f.1),
    ensures
        m.len() < k ==> pushed(m, k, e) == m.insert(e) && furthest(m, k).bits == 0x7f80_0000,
        m.len() == k && k > 0 ==> furthest(m, k) == f.0,
        m.len() == k && k > 0 && e.0.total() < f.0.total() ==> pushed(m, k, e) == m.remove(
            f,
        ).insert(e),
        m.len() == k && (k == 0 || e.0.total() >= f.0.total()) ==> pushed(m, k, e) == m,
{
    if m.len() == k && k > 0 {
        order::last_exists(m);
        order::last_is_unique(m, f);
    }
}

/// A push makes the heap no larger than its bound.
pub proof fn push_respects_the_bound(m: Multiset<(Single, i32)>, k: nat, e: (Single, i32))
    requires
        m.len() <= k,
    ensures
        pushed(m, k, e).len() <= k,
        admits(m, k, e.0) ==> pushed(m, k, e).contains(e),
{
    broadcast use vstd::multiset::group_multiset_axioms;

    if k > 0 && m.len() == k {
        order::last_exists(m);
    }
}

impl View for BoundedHeap {
    type V = Multiset<(Single, i32)>;

    closed spec fn view(&self) -> Multiset<(Single, i32)> {
        self.entries@.to_multiset()
    }
}

impl BoundedHeap {
    /// The number of entries that the heap has room for.
    pub closed spec fn bound(&self) -> nat {
        self.k as nat
    }

    /// The entries are a heap, and there are no more than the bound.
    pub closed spec fn wf(&self) -> bool {
        &&& binary::is_heap(self.entries@, false)
        &&& self.entries@.len() <= self.k
    }

    /// A well-formed heap holds no more entries than it has room for.
    pub proof fn len_is_bounded(&self)
        requires
            self.wf(),
        ensures
            self@.len() <= self.bound(),
            self.bound() <= usize::MAX,
    {
        self.entries@.to_multiset_ensures();
    }

    /// Create an empty heap with room for `k` entries.
    pub fn new(k: usize) -> (r: BoundedHeap)
        ensures
            r.wf(),
            r.bound() == k,
            r@ == Multiset::<(Single, i32)>::empty(),
    {
        let r = BoundedHeap { entries: Vec::new(), k };
        proof {
            r.entries@.to_multiset_ensures();
            assert(r.entries@.to_multiset() =~= Multiset::empty());
        }
        r
    }

    /// Offer an entry; returns whether it was taken in.
    ///
    /// A full heap takes an entry that is nearer than its furthest one and drops that one.
    pub fn push(&mut self, distance: Single, index: i32) -> (inserted: bool)
        requires
            old(self).wf(),
        ensures
            final(self).wf(),
            final(self).bound() == old(self).bound(),
            inserted == admits(old(self)@, old(self).bound(), distance),
            final(self)@ == pushed(old(self)@, old(self).bound(), (distance, index)),
    {
        proof {
            self.entries@.to_multiset_ensures();
        }
        if self.entries.len() < self.k {
            binary::insert(&mut self.entries, (distance, index), false);
            return true;
        }
        if self.k == 0 {
            return false;
        }
        proof {
            binary::top_is_extreme(self.entries@, false);
        }
        if distance.total_key() >= self.entries[0].0.total_key() {
            return false;
        }
        let ghost entries = self.entries@;
        self.entries.set(0, (distance, index));
        proof {
            order::update_multiset(entries, 0, (distance, index));
            order::new_root(binary::keys(entries, false), order::key((distance, index)));
            assert(binary::keys(self.entries@, false) =~= binary::keys(entries, false).update(
                0,
                order::key((distance, index)),
            ));
        }
        binary::settle(&mut self.entries, false);
        true
    }

    /// The distance of the furthest entry; infinity while the heap is not full.
    pub fn max_distance(&self) -> (d: Single)
        requires
            self.wf(),
        ensures
            d == furthest(self@, self.bound()),
    {
        proof {
            self.entries@.to_multiset_ensures();
        }
        if self.entries.len() < self.k || self.k == 0 {
            return Single::infinity();
        }
        proof {
            binary::top_is_extreme(self.entries@, false);
        }
        self.entries[0].0
    }

    /// Whether there is no more room.
    pub fn is_full(&self) -> (r: bool)
        requires
            self.wf(),
        ensures
            r == (self@.len() == self.bound()),
    {
        proof {
            self.entries@.to_multiset_ensures();
        }
        self.entries.len() >= self.k
    }

    /// Drop all entries.
    pub fn clear(&mut self)
        ensures
            final(self).wf(),
            final(self).bound() == old(self).bound(),
            final(self)@ == Multiset::<(Single, i32)>::empty(),
    {
        self.entries.clear();
        proof {
            self.entries@.to_multiset_ensures();
            assert(self.entries@.to_multiset() =~= Multiset::empty());
        }
    }

    fn into_descending(self) -> (r: Vec<(Single, i32)>)
        requires
            self.wf(),
        ensures
            r@.reverse() == order::in_order(self@),
            r@.len() == self@.len(),
    {
        broadcast use vstd::multiset::group_multiset_axioms;

        let ghost all = self@;
        let mut rest = self.entries;
        let mut r: Vec<(Single, i32)> = Vec::new();
        proof {
            rest@.to_multiset_ensures();
            r@.to_multiset_ensures();
            assert(all =~= rest@.to_multiset().add(r@.to_multiset()));
        }
        while rest.len() > 0
            invariant
                binary::is_heap(rest@, false),
                all == rest@.to_multiset().add(r@.to_multiset()),
                all.len() == rest@.len() + r@.len(),
                order::ascending(r@.reverse()),
                forall|x: (Single, i32), i: int|
                    #[trigger] rest@.to_multiset().contains(x) && 0 <= i < r@.len() ==> order::key(
                        x,
                    ) <= order::key(#[trigger] r@[i]),
            decreases rest@.len(),
        {
            let ghost before = rest@.to_multiset();
            let ghost sorted = r@;
            proof {
                binary::top_is_extreme(rest@, false);
            }
            let e = binary::take_top(&mut rest, false);
            r.push(e);
            proof {
                sorted.to_multiset_ensures();
                assert(before.count(e) > 0);
                assert(all =~= rest@.to_multiset().add(r@.to_multiset()));
                assert(r@.reverse() =~= seq![e] + sorted.reverse());
                assert forall|i: int, j: int| 0 <= i <= j < r@.len() implies order::key(
                    #[trigger] r@.reverse()[i],
                ) <= order::key(#[trigger] r@.reverse()[j]) by {
                    if i > 0 {
                        assert(r@.reverse()[i] == sorted.reverse()[i - 1]);
                        assert(r@.reverse()[j] == sorted.reverse()[j - 1]);
                    } else if j > 0 {
                        assert(r@.reverse()[j] == sorted[sorted.len() - j]);
                        assert(order::key(e) <= order::key(sorted[sorted.len() - j]));
                    }
                }
                assert forall|x: (Single, i32), i: int|
                    #[trigger] rest@.to_multiset().contains(x) && 0 <= i
                        < r@.len() implies order::key(x) <= order::key(#[trigger] r@[i]) by {
                    assert(before.contains(x));
                    if i < sorted.len() {
                        assert(r@[i] == sorted[i]);
                    }
                }
            }
        }
        proof {
            rest@.to_multiset_ensures();
            r@.to_multiset_ensures();
            assert(rest@.to_multiset() =~= Multiset::empty());
            assert(all =~= r@.to_multiset());
            r@.lemma_reverse_to_multiset();
            order::in_order_is(r@.reverse());
            r@.reverse().to_multiset_ensures();
        }
        r
    }

    /// The indices and the distances of the entries, nearest first.
    pub fn into_sorted(self) -> (r: (Vec<i32>, Vec<Single>))
        requires
            self.wf(),
        ensures
            r.0@ == order::in_order(self@).map_values(|e: (Single, i32)| e.1),
            r.1@ == order::in_order(self@).map_values(|e: (Single, i32)| e.0),
            order::in_order(self@).len() == self@.len(),
    {
        let ghost all = order::in_order(self@);
        let mut rest = self.into_descending();
        let mut indices: Vec<i32> = Vec::new();
        let mut distances: Vec<Single> = Vec::new();
        let ghost descending = rest@;
        while rest.len() > 0
            invariant
                all == descending.reverse(),
                indices@.len() + rest@.len() == descending.len(),
                distances@.len() == indices@.len(),
                rest@ == descending.take(rest@.len() as int),
                forall|i: int| 0 <= i < indices@.len() ==> #[trigger] indices@[i] == all[i].1,
                forall|i: int| 0 <= i < distances@.len() ==> #[trigger] distances@[i] == all[i].0,
            decreases rest@.len(),
        {
            let ghost n = rest@.len() as int;
            match rest.pop() {
                Some(e) => {
                    assert(e == descending[n - 1]);
                    indices.push(e.1);
                    distances.push(e.0);
                    assert(rest@ =~= descending.take(n - 1));
                },
                None => {},
            }
        }
        assert(indices@ =~= all.map_values(|e: (Single, i32)| e.1));
        assert(distances@ =~= all.map_values(|e: (Single, i32)| e.0));
        (indices, distances)
    }

    /// The indices of the entries, nearest first.
    pub fn into_sorted_indices(self) -> (r: Vec<i32>)
        requires
            self.wf(),
        ensures
            r@ == order::in_order(self@).map_values(|e: (Single, i32)| e.1),
            order::in_order(self@).len() == self@.len(),
    {
        let ghost all = order::in_order(self@);
        let mut rest = self.into_descending();
        let mut indices: Vec<i32> = Vec::new();
        let ghost descending = rest@;
        while rest.len() > 0
            invariant
                all == descending.reverse(),
                indices@.len() + rest@.len() == descending.len(),
                rest@ == descending.take(rest@.len() as int),
                forall|i: int| 0 <= i < indices@.len() ==> #[trigger] indices@[i] == all[i].1,
            decreases rest@.len(),
        {
            let ghost n = rest@.len() as int;
            match rest.pop() {
                Some(e) => {
                    assert(e == descending[n - 1]);
                    indices.push(e.1);
                    assert(rest@ =~= descending.take(n - 1));
                },
                None => {},
            }
        }
        assert(indices@ =~= all.map_values(|e: (Single, i32)| e.1));
        indices
    }
}

impl Clone for BoundedHeap {
    fn clone(&self) -> (r: BoundedHeap)
        ensures
            r@ == self@,
            r.bound() == self.bound(),
            r.wf() == self.wf(),
    {
        let mut entries: Vec<(Single, i32)> = Vec::new();
        let mut i: usize = 0;
        while i < self.entries.len()
            invariant
                i <= self.entries@.len(),
                entries@ == self.entries@.take(i as int),
            decreases self.entries@.len() - i,
        {
            entries.push(self.entries[i]);
            i = i + 1;
            assert(entries@ =~= self.entries@.take(i as int));
        }
        assert(entries@ =~= self.entries@);
        BoundedHeap { entries, k: self.k }
    }
}

} // verus!
