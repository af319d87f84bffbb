//! Choosing the hyperplane that divides a set of points.

use crate::calls;
use crate::layout;
use crate::rng::FastRng;
use crate::single::{Single, TIE_MARGIN_BITS};
use vstd::prelude::*;

verus! {

/// A hyperplane.
#[derive(Debug)]
pub struct Split {
    /// The normal vector.
    pub hyperplane: Vec<Single>,
    /// The offset.
    pub offset: Single,
}

/// The contents of a hyperplane, where there is one.
pub open spec fn contents(split: Option<Split>) -> Option<(Seq<Single>, Single)> {
    match split {
        Some(s) => Some((s.hyperplane@, s.offset)),
        None => None,
    }
}

/// `f` returned a hyperplane with contents `r`, or none, on points with these contents.
pub open spec fn divided<F: Fn(&[Single], &[Single]) -> Option<Split>>(
    f: F,
    p: Seq<Single>,
    q: Seq<Single>,
    r: Option<(Seq<Single>, Single)>,
) -> bool {
    exists|a: &[Single], b: &[Single], s: Option<Split>|
        a@ == p && b@ == q && #[trigger] call_ensures(f, (a, b), s) && contents(s) == r
}

/// `f` may be called on every two points of one length, their contents determine the contents of
/// the result, and a hyperplane has the length of the points.
pub open spec fn divides<F: Fn(&[Single], &[Single]) -> Option<Split>>(f: F) -> bool {
    &&& forall|a: &[Single], b: &[Single]|
        a@.len() == b@.len() ==> #[trigger] call_requires(f, (a, b))
    &&& forall|
        p: Seq<Single>,
        q: Seq<Single>,
        x: Option<(Seq<Single>, Single)>,
        y: Option<(Seq<Single>, Single)>,
    | #[trigger]
        divided(f, p, q, x) && #[trigger] divided(f, p, q, y) ==> x == y
    &&& forall|p: Seq<Single>, q: Seq<Single>, x: (Seq<Single>, Single)| #[trigger]
        divided(f, p, q, Some(x)) ==> x.0.len() == p.len()
}

/// The hyperplane that `f` lays between two points, if any.
pub open spec fn between<F: Fn(&[Single], &[Single]) -> Option<Split>>(
    f: F,
    p: Seq<Single>,
    q: Seq<Single>,
) -> Option<(Seq<Single>, Single)> {
    choose|r: Option<(Seq<Single>, Single)>| divided(f, p, q, r)
}

/// `m` is the number of draws below `n` that repeat `first`.
pub open spec fn repeats(rng: FastRng, n: int, first: int, m: nat) -> bool {
    &&& rng.after(m).drawn(n) != first
    &&& forall|j: nat| j < m ==> (#[trigger] rng.after(j)).drawn(n) == first
}

/// The first draw below `n` that differs from `first`.
pub open spec fn other(rng: FastRng, n: int, first: int) -> int {
    rng.after(choose|m: nat| repeats(rng, n, first, m)).drawn(n)
}

/// The positions of the two points that a node's seed picks among `n`: two different ones where
/// there are two.
pub open spec fn picked(seed: u64, n: int) -> (int, int) {
    let rng = FastRng { state: seed };
    let first = rng.drawn(n);
    let second = if n > 1 {
        other(rng.stepped(), n, first)
    } else {
        rng.stepped().drawn(n)
    };
    (first, second)
}

proof fn repeats_is_unique(rng: FastRng, n: int, first: int, a: nat, b: nat)
    requires
        repeats(rng, n, first, a),
        repeats(rng, n, first, b),
    ensures
        a == b,
{
    if a < b {
        assert(rng.after(a).drawn(n) == first);
    } else if b < a {
        assert(rng.after(b).drawn(n) == first);
    }
}

proof fn repeating_ends(rng: FastRng, n: int, first: int, m: nat) -> (least: nat)
    requires
        rng.after(m).drawn(n) != first,
    ensures
        repeats(rng, n, first, least),
    decreases m,
{
    if forall|j: nat| j < m ==> (#[trigger] rng.after(j)).drawn(n) == first {
        m
    } else {
        let j = choose|j: nat| j < m && (#[trigger] rng.after(j)).drawn(n) != first;
        repeating_ends(rng, n, first, j)
    }
}

/// Where there are two points, two different ones are picked.
pub proof fn picks_differ(seed: u64, n: int)
    requires
        1 < n <= usize::MAX,
    ensures
        0 <= picked(seed, n).0 < n,
        0 <= picked(seed, n).1 < n,
        picked(seed, n).0 != picked(seed, n).1,
{
    let rng = FastRng { state: seed };
    let start = rng.stepped();
    let first = rng.drawn(n);
    vstd::arithmetic::div_mod::lemma_mod_bound(crate::rng::mixed(seed) as int, n);
    start.draws_vary(n, first);
    let m = choose|m: nat| #[trigger] start.after(m).drawn(n) != first;
    let least = repeating_ends(start, n, first, m);
    let found = choose|m: nat| repeats(start, n, first, m);
    assert(repeats(start, n, first, found));
    vstd::arithmetic::div_mod::lemma_mod_bound(
        crate::rng::mixed(start.after(found).state) as int,
        n,
    );
}

/// Pick the positions of two points among `n`.
pub fn pick_pair(seed: u64, n: usize) -> (r: (usize, usize))
    requires
        n > 0,
    ensures
        (r.0 as int, r.1 as int) == picked(seed, n as int),
        r.0 < n,
        r.1 < n,
        n > 1 ==> r.0 != r.1,
{
    let mut rng = FastRng::new(seed);
    let first: usize = rng.next_index(n);
    let ghost start = rng;
    let mut second: usize = rng.next_index(n);
    let ghost mut m: nat = 0;
    let ghost mut limit: nat = 0;
    proof {
        assert(start.after(0) == start);
        assert(start.after(1) == start.stepped()) by {
            start.after_steps(0);
        }
        if n > 1 {
            start.draws_vary(n as int, first as int);
            limit = choose|m: nat| #[trigger] start.after(m).drawn(n as int) != first;
        }
    }
    while second == first && n > 1
        invariant
            n > 0,
            second < n,
            second == start.after(m).drawn(n as int),
            rng == start.after(m + 1),
            forall|j: nat| j < m ==> (#[trigger] start.after(j)).drawn(n as int) == first,
            n > 1 ==> start.after(limit).drawn(n as int) != first,
            n > 1 ==> m <= limit,
            n == 1 ==> m == 0,
        decreases limit - m,
    {
        proof {
            start.after_steps(m + 1);
            m = m + 1;
        }
        second = rng.next_index(n);
    }
    proof {
        if n > 1 {
            assert(repeats(start, n as int, first as int, m));
            repeats_is_unique(
                start,
                n as int,
                first as int,
                m,
                choose|m: nat| repeats(start, n as int, first as int, m),
            );
        }
    }
    (first, second)
}

/// Lay a hyperplane between the two points that a node's seed picks among `indices`.
pub fn make_split<
    A: Fn(&[Single], &[Single]) -> Option<Split>,
    E: Fn(&[Single], &[Single]) -> Option<Split>,
>(
    data: &[Single],
    n_points: usize,
    dim: usize,
    indices: &[i32],
    seed: u64,
    angular: bool,
    angular_split: &A,
    euclidean_split: &E,
) -> (r: Option<Split>)
    requires
        data@.len() == n_points * dim,
        indices@.len() > 0,
        forall|i: int| 0 <= i < indices@.len() ==> 0 <= #[trigger] indices@[i] < n_points,
        divides(*angular_split),
        divides(*euclidean_split),
    ensures
        contents(r) == hyperplane_for(
            data@,
            dim as int,
            indices@,
            seed,
            angular,
            *angular_split,
            *euclidean_split,
        ),
        r matches Some(s) ==> s.hyperplane@.len() == dim,
{
    let (first, second) = pick_pair(seed, indices.len());
    assert(0 <= indices@[first as int] < n_points);
    assert(0 <= indices@[second as int] < n_points);
    let point1 = layout::row_of(data, n_points, dim, indices[first] as usize);
    let point2 = layout::row_of(data, n_points, dim, indices[second] as usize);
    if angular {
        let r = angular_split(point1, point2);
        assert(divided(*angular_split, point1@, point2@, contents(r)));
        r
    } else {
        let r = euclidean_split(point1, point2);
        assert(divided(*euclidean_split, point1@, point2@, contents(r)));
        r
    }
}

/// The hyperplane between the two points that a node's seed picks among `indices`, if any.
pub open spec fn hyperplane_for<
    A: Fn(&[Single], &[Single]) -> Option<Split>,
    E: Fn(&[Single], &[Single]) -> Option<Split>,
>(
    data: Seq<Single>,
    dim: int,
    indices: Seq<i32>,
    seed: u64,
    angular: bool,
    angular_split: A,
    euclidean_split: E,
) -> Option<(Seq<Single>, Single)> {
    let (first, second) = picked(seed, indices.len() as int);
    let point1 = layout::row(data, dim, indices[first] as int);
    let point2 = layout::row(data, dim, indices[second] as int);
    if angular {
        between(angular_split, point1, point2)
    } else {
        between(euclidean_split, point1, point2)
    }
}

/// A length too small to divide by.
pub open spec fn negligible(length: Single) -> bool {
    length.below(Single { bits: TIE_MARGIN_BITS })
}

fn is_negligible(length: Single) -> (r: bool)
    ensures
        r == negligible(length),
{
    length.lt(Single { bits: TIE_MARGIN_BITS })
}

/// The hyperplane between two directions, through the origin: none where one of the points, or
/// the difference of their directions, has a negligible length.
pub open spec fn angular_plane<
    L: Fn(&[Single]) -> Single,
    G: Fn(Single, Single, Single, Single) -> Single,
    H: Fn(Single, Single) -> Single,
>(p: Seq<Single>, q: Seq<Single>, length: L, direction: G, shrink: H) -> Option<
    (Seq<Single>, Single),
> {
    let norm1 = calls::measure(length, p);
    let norm2 = calls::measure(length, q);
    let raw = p.map(|i: int, x: Single| calls::image4(direction, x, norm1, q[i], norm2));
    let norm = calls::measure(length, raw);
    if negligible(norm1) || negligible(norm2) || negligible(norm) {
        None
    } else {
        Some((raw.map_values(|x: Single| calls::image2(shrink, x, norm)), Single::spec_zero()))
    }
}

/// A hyperplane between two directions is the difference of these, shrunk by its own length, and
/// goes through the origin. There is one unless one of the three lengths is below `1e-8`.
pub proof fn angular_planes_part_directions<
    L: Fn(&[Single]) -> Single,
    G: Fn(Single, Single, Single, Single) -> Single,
    H: Fn(Single, Single) -> Single,
>(
    p: Seq<Single>,
    q: Seq<Single>,
    length: L,
    direction: G,
    shrink: H,
    raw: Seq<Single>,
)
    requires
        p.len() == q.len(),
        raw.len() == p.len(),
        forall|i: int|
            0 <= i < raw.len() ==> #[trigger] raw[i] == calls::image4(
                direction,
                p[i],
                calls::measure(length, p),
                q[i],
                calls::measure(length, q),
            ),
    ensures
        ({
            let small = Single { bits: 0x322b_cc77 };
            let plane = angular_plane(p, q, length, direction, shrink);
            &&& plane is None <==> calls::measure(length, p).below(small) || calls::measure(
                length,
                q,
            ).below(small) || calls::measure(length, raw).below(small)
            &&& plane matches Some((hyperplane, offset)) ==> {
                &&& hyperplane.len() == p.len()
                &&& forall|i: int|
                    0 <= i < p.len() ==> #[trigger] hyperplane[i] == calls::image2(
                        shrink,
                        raw[i],
                        calls::measure(length, raw),
                    )
                &&& offset.bits == 0
            }
        }),
{
    let norm1 = calls::measure(length, p);
    let norm2 = calls::measure(length, q);
    assert(raw =~= p.map(|i: int, x: Single| calls::image4(direction, x, norm1, q[i], norm2)));
}

/// Lay a hyperplane between the directions of two points.
///
/// `length(v)` is to be the Euclidean length, `direction(a, norm_a, b, norm_b)` to be
/// `b / norm_b - a / norm_a`, and `shrink(x, norm)` to be `x / norm`.
pub fn make_angular_split<
    L: Fn(&[Single]) -> Single,
    G: Fn(Single, Single, Single, Single) -> Single,
    H: Fn(Single, Single) -> Single,
>(point1: &[Single], point2: &[Single], length: &L, direction: &G, shrink: &H) -> (r: Option<Split>)
    requires
        point1@.len() == point2@.len(),
        calls::measures(*length),
        calls::maps4(*direction),
        calls::maps2(*shrink),
    ensures
        contents(r) == angular_plane(point1@, point2@, *length, *direction, *shrink),
        r matches Some(s) ==> s.hyperplane@.len() == point1@.len(),
{
    let norm1: Single = length(point1);
    assert(calls::measured(*length, point1@, norm1));
    let norm2: Single = length(point2);
    assert(calls::measured(*length, point2@, norm2));
    if is_negligible(norm1) || is_negligible(norm2) {
        return None;
    }
    let ghost raw = point1@.map(
        |i: int, x: Single| calls::image4(*direction, x, norm1, point2@[i], norm2),
    );
    let mut hyperplane: Vec<Single> = Vec::with_capacity(point1.len());
    let mut i: usize = 0;
    while i < point1.len()
        invariant
            i <= point1@.len(),
            point1@.len() == point2@.len(),
            calls::maps4(*direction),
            raw == point1@.map(
                |i: int, x: Single| calls::image4(*direction, x, norm1, point2@[i], norm2),
            ),
            hyperplane@ == raw.take(i as int),
        decreases point1@.len() - i,
    {
        hyperplane.push(direction(point1[i], norm1, point2[i], norm2));
        i = i + 1;
        assert(hyperplane@ =~= raw.take(i as int));
    }
    assert(hyperplane@ =~= raw);
    let norm: Single = length(hyperplane.as_slice());
    assert(calls::measured(*length, raw, norm));
    if is_negligible(norm) {
        return None;
    }
    let ghost plane = raw.map_values(|x: Single| calls::image2(*shrink, x, norm));
    let mut j: usize = 0;
    while j < hyperplane.len()
        invariant
            j <= hyperplane@.len(),
            hyperplane@.len() == raw.len(),
            calls::maps2(*shrink),
            plane == raw.map_values(|x: Single| calls::image2(*shrink, x, norm)),
            forall|l: int| 0 <= l < j ==> #[trigger] hyperplane@[l] == plane[l],
            forall|l: int| j <= l < raw.len() ==> #[trigger] hyperplane@[l] == raw[l],
        decreases hyperplane@.len() - j,
    {
        let x: Single = hyperplane[j];
        let y: Single = shrink(x, norm);
        hyperplane.set(j, y);
        j = j + 1;
    }
    assert(hyperplane@ =~= plane);
    Some(Split { hyperplane, offset: Single::zero() })
}

/// What `step` accumulates from zero over the difference vector.
pub open spec fn squares<S: Fn(Single, Single) -> Single>(step: S, v: Seq<Single>) -> Single
    decreases v.len(),
{
    if v.len() == 0 {
        Single::spec_zero()
    } else {
        calls::image2(step, squares(step, v.drop_last()), v.last())
    }
}

/// What `step` accumulates from zero over the difference vector and the two points.
pub open spec fn midpoints<S: Fn(Single, Single, Single, Single) -> Single>(
    step: S,
    v: Seq<Single>,
    p: Seq<Single>,
    q: Seq<Single>,
) -> Single
    decreases v.len(),
{
    if v.len() == 0 {
        Single::spec_zero()
    } else {
        let i = v.len() - 1;
        calls::image4(step, midpoints(step, v.drop_last(), p, q), v[i], p[i], q[i])
    }
}

/// The arithmetic of a bisecting hyperplane.
pub struct Bisection<D, S, M, R, I, T, N> {
    /// `difference(a, b)` is to be `b - a`.
    pub difference: D,
    /// `add_square(acc, v)` is to be `acc + v * v`.
    pub add_square: S,
    /// `add_midpoint(acc, v, a, b)` is to be `acc + v * (a + b) * 0.5`.
    pub add_midpoint: M,
    /// `root(x)` is to be the square root.
    pub root: R,
    /// `inverse(x)` is to be `1 / x`.
    pub inverse: I,
    /// `times(a, b)` is to be `a * b`.
    pub times: T,
    /// `negate(x)` is to be `-x`.
    pub negate: N,
}

impl<
    D: Fn(Single, Single) -> Single,
    S: Fn(Single, Single) -> Single,
    M: Fn(Single, Single, Single, Single) -> Single,
    R: Fn(Single) -> Single,
    I: Fn(Single) -> Single,
    T: Fn(Single, Single) -> Single,
    N: Fn(Single) -> Single,
> Bisection<D, S, M, R, I, T, N> {
    /// Every operation is a function of its arguments.
    pub open spec fn wf(&self) -> bool {
        &&& calls::maps2(self.difference)
        &&& calls::maps2(self.add_square)
        &&& calls::maps4(self.add_midpoint)
        &&& calls::maps1(self.root)
        &&& calls::maps1(self.inverse)
        &&& calls::maps2(self.times)
        &&& calls::maps1(self.negate)
    }

    /// The vector from one point to the other.
    pub open spec fn differences(&self, p: Seq<Single>, q: Seq<Single>) -> Seq<Single> {
        p.map(|i: int, x: Single| calls::image2(self.difference, x, q[i]))
    }

    /// The hyperplane halfway between two points, across the line that joins them: none where
    /// their distance is negligible.
    pub open spec fn plane(&self, p: Seq<Single>, q: Seq<Single>) -> Option<
        (Seq<Single>, Single),
    > {
        let v = self.differences(p, q);
        let norm = calls::image1(self.root, squares(self.add_square, v));
        let inverse_norm = calls::image1(self.inverse, norm);
        let midpoint = midpoints(self.add_midpoint, v, p, q);
        if negligible(norm) {
            None
        } else {
            Some(
                (
                    v.map_values(|x: Single| calls::image2(self.times, x, inverse_norm)),
                    calls::image2(
                        self.times,
                        calls::image1(self.negate, midpoint),
                        inverse_norm,
                    ),
                ),
            )
        }
    }
}

proof fn squares_take_every_dimension<S: Fn(Single, Single) -> Single>(step: S, v: Seq<Single>)
    ensures
        squares(step, v) == v.fold_left(
            Single::spec_zero(),
            |acc: Single, x: Single| calls::image2(step, acc, x),
        ),
    decreases v.len(),
{
    if v.len() > 0 {
        squares_take_every_dimension(step, v.drop_last());
    }
}

proof fn midpoints_take_every_dimension<S: Fn(Single, Single, Single, Single) -> Single>(
    step: S,
    v: Seq<Single>,
    p: Seq<Single>,
    q: Seq<Single>,
)
    ensures
        midpoints(step, v, p, q) == Seq::new(v.len(), |i: int| i).fold_left(
            Single::spec_zero(),
            |acc: Single, i: int| calls::image4(step, acc, v[i], p[i], q[i]),
        ),
    decreases v.len(),
{
    let all = Seq::new(v.len(), |i: int| i);
    if v.len() > 0 {
        let rest = v.drop_last();
        let f = |acc: Single, i: int| calls::image4(step, acc, v[i], p[i], q[i]);
        let g = |acc: Single, i: int| calls::image4(step, acc, rest[i], p[i], q[i]);
        midpoints_take_every_dimension(step, rest, p, q);
        let fewer = Seq::new(rest.len(), |i: int| i);
        assert(all.drop_last() =~= fewer);
        folds_agree(fewer, f, g);
    }
}

/// Two ways of accumulating that agree on every entry come to the same.
proof fn folds_agree(
    s: Seq<int>,
    f: spec_fn(Single, int) -> Single,
    g: spec_fn(Single, int) -> Single,
)
    requires
        forall|acc: Single, j: int|
            0 <= j < s.len() ==> #[trigger] f(acc, s[j]) == g(acc, s[j]),
    ensures
        s.fold_left(Single::spec_zero(), f) == s.fold_left(Single::spec_zero(), g),
    decreases s.len(),
{
    if s.len() > 0 {
        let rest = s.drop_last();
        assert forall|acc: Single, j: int| 0 <= j < rest.len() implies #[trigger] f(acc, rest[j])
            == g(acc, rest[j]) by {
            assert(f(acc, s[j]) == g(acc, s[j]));
        }
        folds_agree(rest, f, g);
        let acc = rest.fold_left(Single::spec_zero(), f);
        assert(f(acc, s[s.len() - 1]) == g(acc, s[s.len() - 1]));
    }
}

impl<
    D: Fn(Single, Single) -> Single,
    S: Fn(Single, Single) -> Single,
    M: Fn(Single, Single, Single, Single) -> Single,
    R: Fn(Single) -> Single,
    I: Fn(Single) -> Single,
    T: Fn(Single, Single) -> Single,
    N: Fn(Single) -> Single,
> Bisection<D, S, M, R, I, T, N> {
    /// A bisecting hyperplane is the vector from one point to the other, divided by its length, and
    /// its offset is what the middle of the two accumulates over all dimensions, with its sign
    /// changed and divided by that length too. There is one unless the length is below `1e-8`.
    pub proof fn planes_bisect(self, p: Seq<Single>, q: Seq<Single>, v: Seq<Single>)
        requires
            p.len() == q.len(),
            v.len() == p.len(),
            forall|i: int|
                0 <= i < v.len() ==> #[trigger] v[i] == calls::image2(
                    self.difference,
                    p[i],
                    q[i],
                ),
        ensures
            ({
                let norm = calls::image1(
                    self.root,
                    v.fold_left(
                        Single::spec_zero(),
                        |acc: Single, x: Single| calls::image2(self.add_square, acc, x),
                    ),
                );
                let inverse_norm = calls::image1(self.inverse, norm);
                let midpoint = Seq::new(v.len(), |i: int| i).fold_left(
                    Single::spec_zero(),
                    |acc: Single, i: int|
                        calls::image4(self.add_midpoint, acc, v[i], p[i], q[i]),
                );
                let plane = self.plane(p, q);
                &&& plane is None <==> norm.below(Single { bits: 0x322b_cc77 })
                &&& plane matches Some((hyperplane, offset)) ==> {
                    &&& hyperplane.len() == p.len()
                    &&& forall|i: int|
                        0 <= i < p.len() ==> #[trigger] hyperplane[i] == calls::image2(
                            self.times,
                            v[i],
                            inverse_norm,
                        )
                    &&& offset == calls::image2(
                        self.times,
                        calls::image1(self.negate, midpoint),
                        inverse_norm,
                    )
                }
            }),
    {
        assert(v =~= self.differences(p, q));
        squares_take_every_dimension(self.add_square, v);
        midpoints_take_every_dimension(self.add_midpoint, v, p, q);
    }
}

/// Lay a hyperplane halfway between two points, across the line that joins them.
pub fn make_euclidean_split<
    D: Fn(Single, Single) -> Single,
    S: Fn(Single, Single) -> Single,
    M: Fn(Single, Single, Single, Single) -> Single,
    R: Fn(Single) -> Single,
    I: Fn(Single) -> Single,
    T: Fn(Single, Single) -> Single,
    N: Fn(Single) -> Single,
>(
    point1: &[Single],
    point2: &[Single],
    arithmetic: &Bisection<D, S, M, R, I, T, N>,
) -> (r: Option<Split>)
    requires
        point1@.len() == point2@.len(),
        arithmetic.wf(),
    ensures
        contents(r) == arithmetic.plane(point1@, point2@),
        r matches Some(s) ==> s.hyperplane@.len() == point1@.len(),
{
    let ghost v = arithmetic.differences(point1@, point2@);
    let mut hyperplane: Vec<Single> = Vec::with_capacity(point1.len());
    let mut norm_squared: Single = Single::zero();
    let mut midpoint_dot: Single = Single::zero();
    let mut i: usize = 0;
    while i < point1.len()
        invariant
            i <= point1@.len(),
            point1@.len() == point2@.len(),
            arithmetic.wf(),
            v == arithmetic.differences(point1@, point2@),
            hyperplane@ == v.take(i as int),
            norm_squared == squares(arithmetic.add_square, v.take(i as int)),
            midpoint_dot == midpoints(
                arithmetic.add_midpoint,
                v.take(i as int),
                point1@,
                point2@,
            ),
        decreases point1@.len() - i,
    {
        let value: Single = (arithmetic.difference)(point1[i], point2[i]);
        hyperplane.push(value);
        assert(v.take(i + 1).drop_last() =~= v.take(i as int));
        norm_squared = (arithmetic.add_square)(norm_squared, value);
        midpoint_dot = (arithmetic.add_midpoint)(midpoint_dot, value, point1[i], point2[i]);
        i = i + 1;
        assert(hyperplane@ =~= v.take(i as int));
    }
    assert(v.take(point1@.len() as int) =~= v);
    let norm: Single = (arithmetic.root)(norm_squared);
    if is_negligible(norm) {
        return None;
    }
    let inverse_norm: Single = (arithmetic.inverse)(norm);
    let ghost plane = v.map_values(|x: Single| calls::image2(arithmetic.times, x, inverse_norm));
    let mut j: usize = 0;
    while j < hyperplane.len()
        invariant
            j <= hyperplane@.len(),
            hyperplane@.len() == v.len(),
            arithmetic.wf(),
            plane == v.map_values(|x: Single| calls::image2(arithmetic.times, x, inverse_norm)),
            forall|l: int| 0 <= l < j ==> #[trigger] hyperplane@[l] == plane[l],
            forall|l: int| j <= l < v.len() ==> #[trigger] hyperplane@[l] == v[l],
        decreases hyperplane@.len() - j,
    {
        let x: Single = hyperplane[j];
        let y: Single = (arithmetic.times)(x, inverse_norm);
        hyperplane.set(j, y);
        j = j + 1;
    }
    assert(hyperplane@ =~= plane);
    let offset: Single = (arithmetic.times)((arithmetic.negate)(midpoint_dot), inverse_norm);
    Some(Split { hyperplane, offset })
}

} // verus!
