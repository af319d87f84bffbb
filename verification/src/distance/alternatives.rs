//! Alternative/proxy distance functions and correction functions.
//!
//! These distances are cheaper to compute during graph construction. A correction function is
//! applied to final results to recover the true distance. The branches are taken here; sums,
//! roots and logarithms come from the caller.

use crate::calls;
use crate::distance::quantized;
use crate::distance::quantized::accumulate_pairs;
use crate::single::{Single, LARGEST_BITS, ONE_BITS};
use vstd::prelude::*;

verus! {

/// Bit pattern of `-1.0`.
pub const MINUS_ONE_BITS: u32 = 0xbf80_0000;

/// The dot product of two vectors, four products to a step: the sum of each four is added to the
/// total, and what is left over is added one by one.
pub open spec fn dot_by_fours<T: Fn(Single, Single) -> Single, A: Fn(Single, Single) -> Single>(
    times: T,
    plus: A,
    a: Seq<Single>,
    b: Seq<Single>,
) -> Single
    decreases a.len(),
{
    let n = a.len() as int;
    let product = |i: int| calls::image2(times, a[i], b[i]);
    let sum = |x: Single, y: Single| calls::image2(plus, x, y);
    if n == 0 {
        Single::spec_zero()
    } else if n % 4 == 0 {
        sum(
            dot_by_fours(times, plus, a.take(n - 4), b.take(n - 4)),
            sum(sum(sum(product(n - 4), product(n - 3)), product(n - 2)), product(n - 1)),
        )
    } else {
        sum(dot_by_fours(times, plus, a.take(n - 1), b.take(n - 1)), product(n - 1))
    }
}

/// What is added up for a dot product of `n` dimensions: the sum of each four products, and then
/// the products that are left over.
pub open spec fn addends<T: Fn(Single, Single) -> Single, A: Fn(Single, Single) -> Single>(
    times: T,
    plus: A,
    a: Seq<Single>,
    b: Seq<Single>,
) -> Seq<Single> {
    let product = |i: int| calls::image2(times, a[i], b[i]);
    let sum = |x: Single, y: Single| calls::image2(plus, x, y);
    let whole = a.len() / 4;
    Seq::new(
        whole,
        |c: int|
            sum(
                sum(sum(product(4 * c), product(4 * c + 1)), product(4 * c + 2)),
                product(4 * c + 3),
            ),
    ) + Seq::new(a.len() % 4, |j: int| product(4 * whole + j))
}

/// Every dimension has its place in a dot product: dimensions `4 c` to `4 c + 3` are summed and
/// added together, for each whole four of them, and each dimension that is left over is added by
/// itself.
pub proof fn dot_products_add_up<
    T: Fn(Single, Single) -> Single,
    A: Fn(Single, Single) -> Single,
>(times: T, plus: A, a: Seq<Single>, b: Seq<Single>)
    requires
        a.len() == b.len(),
    ensures
        dot_by_fours(times, plus, a, b) == addends(times, plus, a, b).fold_left(
            Single::spec_zero(),
            |x: Single, y: Single| calls::image2(plus, x, y),
        ),
    decreases a.len(),
{
    let n = a.len() as int;
    let sum = |x: Single, y: Single| calls::image2(plus, x, y);
    let all = addends(times, plus, a, b);
    if n > 0 {
        let m = if n % 4 == 0 {
            n - 4
        } else {
            n - 1
        };
        dot_products_add_up(times, plus, a.take(m), b.take(m));
        assert(all.drop_last() =~= addends(times, plus, a.take(m), b.take(m)));
    }
}

/// Where sums do not depend on how they are bracketed, a dot product is the sum of the products of
/// all dimensions, for every number of dimensions.
pub proof fn dot_products_take_every_dimension<
    T: Fn(Single, Single) -> Single,
    A: Fn(Single, Single) -> Single,
>(times: T, plus: A, a: Seq<Single>, b: Seq<Single>)
    requires
        a.len() == b.len(),
        forall|x: Single, y: Single, z: Single|
            #![trigger calls::image2(plus, calls::image2(plus, x, y), z)]
            calls::image2(plus, calls::image2(plus, x, y), z) == calls::image2(
                plus,
                x,
                calls::image2(plus, y, z),
            ),
    ensures
        dot_by_fours(times, plus, a, b) == Seq::new(
            a.len(),
            |i: int| calls::image2(times, a[i], b[i]),
        ).fold_left(Single::spec_zero(), |x: Single, y: Single| calls::image2(plus, x, y)),
    decreases a.len(),
{
    let n = a.len() as int;
    let sum = |x: Single, y: Single| calls::image2(plus, x, y);
    let product = |i: int| calls::image2(times, a[i], b[i]);
    let all = Seq::new(a.len(), product);
    if n > 0 {
        let m = if n % 4 == 0 {
            n - 4
        } else {
            n - 1
        };
        let before = Seq::new(m as nat, |i: int| calls::image2(times, a.take(m)[i], b.take(m)[i]));
        dot_products_take_every_dimension(times, plus, a.take(m), b.take(m));
        assert(all.take(m) =~= before);
        let zero = Single::spec_zero();
        if m == n - 1 {
            assert(all.drop_last() =~= before);
        } else {
            let d1 = all.drop_last();
            let d2 = d1.drop_last();
            let d3 = d2.drop_last();
            assert(d3.drop_last() =~= before);
            assert(all.fold_left(zero, sum) == sum(d1.fold_left(zero, sum), product(n - 1)));
            assert(d1.fold_left(zero, sum) == sum(d2.fold_left(zero, sum), product(n - 2)));
            assert(d2.fold_left(zero, sum) == sum(d3.fold_left(zero, sum), product(n - 3)));
            assert(d3.fold_left(zero, sum) == sum(before.fold_left(zero, sum), product(n - 4)));
        }
    }
}

/// The dot product of two vectors of one length, four products to a step; `times(x, y)` is to be
/// `x * y`, and `plus(x, y)` to be `x + y`.
fn normalized_dot<T: Fn(Single, Single) -> Single, A: Fn(Single, Single) -> Single>(
    a: &[Single],
    b: &[Single],
    times: &T,
    plus: &A,
) -> (r: Single)
    requires
        a@.len() == b@.len(),
        calls::maps2(*times),
        calls::maps2(*plus),
    ensures
        r == dot_by_fours(*times, *plus, a@, b@),
{
    let mut dot: Single = Single::zero();
    let mut i: usize = 0;
    while a.len() - i >= 4
        invariant
            i <= a@.len(),
            i % 4 == 0,
            a@.len() == b@.len(),
            calls::maps2(*times),
            calls::maps2(*plus),
            dot == dot_by_fours(*times, *plus, a@.take(i as int), b@.take(i as int)),
        decreases a@.len() - i,
    {
        let first: Single = plus(times(a[i], b[i]), times(a[i + 1], b[i + 1]));
        let three: Single = plus(first, times(a[i + 2], b[i + 2]));
        let four: Single = plus(three, times(a[i + 3], b[i + 3]));
        assert(a@.take(i + 4).take(i as int) =~= a@.take(i as int));
        assert(b@.take(i + 4).take(i as int) =~= b@.take(i as int));
        dot = plus(dot, four);
        i = i + 4;
    }
    let ghost start = i as int;
    while i < a.len()
        invariant
            start <= i <= a@.len(),
            a@.len() - start < 4,
            start % 4 == 0,
            a@.len() == b@.len(),
            calls::maps2(*times),
            calls::maps2(*plus),
            dot == dot_by_fours(*times, *plus, a@.take(i as int), b@.take(i as int)),
        decreases a@.len() - i,
    {
        assert(a@.take(i + 1).take(i as int) =~= a@.take(i as int));
        assert(b@.take(i + 1).take(i as int) =~= b@.take(i as int));
        dot = plus(dot, times(a[i], b[i]));
        i = i + 1;
    }
    assert(a@.take(a@.len() as int) =~= a@);
    assert(b@.take(b@.len() as int) =~= b@);
    dot
}

/// Alternative dot product distance using log transform.
///
/// For pre-normalized vectors `-log2(a . b)`, and the largest finite number for non-positive
/// dot products.
#[derive(Clone, Copy, Debug)]
pub struct AlternativeDot;

/// Direct cosine distance for vectors that have already been L2-normalized.
///
/// This is an explicit alternative search geometry to [`AlternativeDot`]. It is monotonic with
/// cosine similarity but avoids a logarithm per candidate.
#[derive(Clone, Copy, Debug)]
pub struct DirectNormalizedCosine;

/// Alternative inner product distance using reciprocal transform: `1 / (a . b)` for positive
/// inner products, the largest finite number otherwise.
#[derive(Clone, Copy, Debug)]
pub struct AlternativeInnerProduct;

/// Alternative cosine using log transform: `log2(|a| |b| / (a . b))`, and the largest finite
/// number for non-positive similarities.
#[derive(Clone, Copy, Debug)]
pub struct AlternativeCosine;

/// Proxy inner product: hybrid log-cosine and magnitude normalization.
///
/// Used during graph construction; results should be reranked with the true inner product
/// distance.
#[derive(Clone, Copy, Debug)]
pub struct ProxyInnerProduct;

impl Default for AlternativeDot {
    fn default() -> (r: AlternativeDot)
        ensures
            r == AlternativeDot,
    {
        AlternativeDot
    }
}

impl AlternativeDot {
    /// The distance between two vectors; `times(x, y)` is to be `x * y`,
    /// `plus(x, y)` to be `x + y`, and `neg_log2(s)` to be `-log2(s)`.
    pub fn distance<
        T: Fn(Single, Single) -> Single,
        A: Fn(Single, Single) -> Single,
        F: Fn(Single) -> Single,
    >(&self, a: &[Single], b: &[Single], times: &T, plus: &A, neg_log2: &F) -> (r: Single)
        requires
            a@.len() == b@.len(),
            calls::maps2(*times),
            calls::maps2(*plus),
            calls::maps1(*neg_log2),
        ensures
            r == quantized::transformed(
                dot_by_fours(*times, *plus, a@, b@),
                |s: Single| calls::image1(*neg_log2, s),
            ),
    {
        self.from_similarity(normalized_dot(a, b, times, plus), neg_log2)
    }

    /// The distance that belongs to a dot product; `neg_log2(s)` is to be `-log2(s)`.
    pub fn from_similarity<F: Fn(Single) -> Single>(&self, dot: Single, neg_log2: &F) -> (r: Single)
        requires
            calls::maps1(*neg_log2),
        ensures
            r == quantized::transformed(dot, |s: Single| calls::image1(*neg_log2, s)),
    {
        if Single::zero().ge(dot) {
            Single { bits: LARGEST_BITS }
        } else {
            neg_log2(dot)
        }
    }

    /// The name of the distance.
    pub fn name(&self) -> (r: &'static str)
        ensures
            r@ == "alternative_dot"@,
    {
        "alternative_dot"
    }
}

/// `similarity` moved into `[-1, 1]`; NaN stays.
pub open spec fn clamped(similarity: Single) -> Single {
    if similarity.below(Single { bits: MINUS_ONE_BITS }) {
        Single { bits: MINUS_ONE_BITS }
    } else if (Single { bits: ONE_BITS }).below(similarity) {
        Single { bits: ONE_BITS }
    } else {
        similarity
    }
}

/// Clamping leads into `[-1, 1]`, keeps what is there already, and keeps the order.
pub proof fn clamping_keeps_the_order(lesser: Single, greater: Single)
    requires
        greater.at_least(lesser),
    ensures
        clamped(greater).at_least(clamped(lesser)),
        clamped(lesser).at_least(Single { bits: 0xbf80_0000 }),
        (Single { bits: 0x3f80_0000 }).at_least(clamped(greater)),
        lesser.at_least(Single { bits: 0xbf80_0000 }) && (Single { bits: 0x3f80_0000 }).at_least(
            lesser,
        ) ==> clamped(lesser) == lesser,
{
}

/// Move a similarity into `[-1, 1]`; NaN stays.
pub fn clamp_similarity(similarity: Single) -> (r: Single)
    ensures
        r == clamped(similarity),
{
    if similarity.lt(Single { bits: MINUS_ONE_BITS }) {
        Single { bits: MINUS_ONE_BITS }
    } else if (Single { bits: ONE_BITS }).lt(similarity) {
        Single { bits: ONE_BITS }
    } else {
        similarity
    }
}

impl Default for DirectNormalizedCosine {
    fn default() -> (r: DirectNormalizedCosine)
        ensures
            r == DirectNormalizedCosine,
    {
        DirectNormalizedCosine
    }
}

impl DirectNormalizedCosine {
    /// The distance between two vectors; `times(x, y)` is to be `x * y`,
    /// `plus(x, y)` to be `x + y`, and `one_minus(s)` to be `1 - s`.
    pub fn distance<
        T: Fn(Single, Single) -> Single,
        A: Fn(Single, Single) -> Single,
        F: Fn(Single) -> Single,
    >(&self, a: &[Single], b: &[Single], times: &T, plus: &A, one_minus: &F) -> (r: Single)
        requires
            a@.len() == b@.len(),
            calls::maps2(*times),
            calls::maps2(*plus),
            calls::maps1(*one_minus),
        ensures
            r == calls::image1(*one_minus, clamped(dot_by_fours(*times, *plus, a@, b@))),
    {
        self.from_similarity(normalized_dot(a, b, times, plus), one_minus)
    }

    /// The distance that belongs to a similarity; `one_minus(s)` is to be `1 - s`.
    pub fn from_similarity<F: Fn(Single) -> Single>(
        &self,
        similarity: Single,
        one_minus: &F,
    ) -> (r: Single)
        requires
            calls::maps1(*one_minus),
        ensures
            r == calls::image1(*one_minus, clamped(similarity)),
    {
        one_minus(clamp_similarity(similarity))
    }

    /// The name of the distance.
    pub fn name(&self) -> (r: &'static str)
        ensures
            r@ == "direct_normalized_cosine"@,
    {
        "direct_normalized_cosine"
    }
}

impl Default for AlternativeInnerProduct {
    fn default() -> (r: AlternativeInnerProduct)
        ensures
            r == AlternativeInnerProduct,
    {
        AlternativeInnerProduct
    }
}

impl AlternativeInnerProduct {
    /// The distance between two vectors; `times(x, y)` is to be `x * y`,
    /// `plus(x, y)` to be `x + y`, and `reciprocal(s)` to be `1 / s`.
    pub fn distance<
        T: Fn(Single, Single) -> Single,
        A: Fn(Single, Single) -> Single,
        F: Fn(Single) -> Single,
    >(&self, a: &[Single], b: &[Single], times: &T, plus: &A, reciprocal: &F) -> (r: Single)
        requires
            a@.len() == b@.len(),
            calls::maps2(*times),
            calls::maps2(*plus),
            calls::maps1(*reciprocal),
        ensures
            r == quantized::transformed(
                dot_by_fours(*times, *plus, a@, b@),
                |s: Single| calls::image1(*reciprocal, s),
            ),
    {
        self.from_similarity(normalized_dot(a, b, times, plus), reciprocal)
    }

    /// The distance that belongs to an inner product; `reciprocal(s)` is to be `1 / s`.
    pub fn from_similarity<F: Fn(Single) -> Single>(
        &self,
        dot: Single,
        reciprocal: &F,
    ) -> (r: Single)
        requires
            calls::maps1(*reciprocal),
        ensures
            r == quantized::transformed(dot, |s: Single| calls::image1(*reciprocal, s)),
    {
        if Single::zero().ge(dot) {
            Single { bits: LARGEST_BITS }
        } else {
            reciprocal(dot)
        }
    }

    /// The name of the distance.
    pub fn name(&self) -> (r: &'static str)
        ensures
            r@ == "alternative_inner_product"@,
    {
        "alternative_inner_product"
    }
}

impl Default for AlternativeCosine {
    fn default() -> (r: AlternativeCosine)
        ensures
            r == AlternativeCosine,
    {
        AlternativeCosine
    }
}

impl AlternativeCosine {
    /// The distance between two vectors; `add_product(acc, x, y)` is to be `acc + x * y`, and
    /// `finish` as in [`AlternativeCosine::from_sums`].
    pub fn distance<
        P: Fn(Single, Single, Single) -> Single,
        F: Fn(Single, Single, Single) -> Single,
    >(&self, a: &[Single], b: &[Single], add_product: &P, finish: &F) -> (r: Single)
        requires
            a@.len() == b@.len(),
            calls::maps3(*add_product),
            calls::maps3(*finish),
        ensures
            r == quantized::cosine_from_sums(
                quantized::paired(*add_product, a@, b@),
                quantized::paired(*add_product, a@, a@),
                quantized::paired(*add_product, b@, b@),
                |d: Single, x: Single, y: Single| calls::image3(*finish, d, x, y),
            ),
    {
        self.from_sums(
            accumulate_pairs(a, b, add_product),
            accumulate_pairs(a, a, add_product),
            accumulate_pairs(b, b, add_product),
            finish,
        )
    }

    /// The distance that belongs to a dot product and two squared norms; `finish(d, a, b)` is to
    /// be `log2(sqrt(a * b) / d)`.
    pub fn from_sums<F: Fn(Single, Single, Single) -> Single>(
        &self,
        dot: Single,
        norm_a: Single,
        norm_b: Single,
        finish: &F,
    ) -> (r: Single)
        requires
            calls::maps3(*finish),
        ensures
            r == quantized::cosine_from_sums(
                dot,
                norm_a,
                norm_b,
                |d: Single, a: Single, b: Single| calls::image3(*finish, d, a, b),
            ),
    {
        quantized::alternative_cosine_from_sums(dot, norm_a, norm_b, finish)
    }

    /// The name of the distance.
    pub fn name(&self) -> (r: &'static str)
        ensures
            r@ == "alternative_cosine"@,
    {
        "alternative_cosine"
    }
}

/// The proxy distance that belongs to an inner product and two squared norms.
pub open spec fn proxy_from_sums<F: Fn(Single, Single, Single) -> Single>(
    ip: Single,
    norm_a: Single,
    norm_b: Single,
    finish: F,
) -> Single {
    if norm_a.magnitude() == 0 || norm_b.magnitude() == 0 || !ip.at_least(Single::spec_zero()) {
        Single { bits: LARGEST_BITS }
    } else {
        calls::image3(finish, ip, norm_a, norm_b)
    }
}

/// The proxy distance is what `finish` makes of the sums where both vectors have a norm and the
/// product is no less than zero, and the largest finite number elsewhere.
pub proof fn proxies_need_norms_and_a_product<F: Fn(Single, Single, Single) -> Single>(
    ip: Single,
    norm_a: Single,
    norm_b: Single,
    finish: F,
)
    ensures
        norm_a.unsigned().bits != 0 && norm_b.unsigned().bits != 0 && ip.at_least(
            Single::spec_zero(),
        ) ==> proxy_from_sums(ip, norm_a, norm_b, finish) == calls::image3(
            finish,
            ip,
            norm_a,
            norm_b,
        ),
        norm_a.unsigned().bits == 0 || norm_b.unsigned().bits == 0 || ip.nan() || ip.below(
            Single::spec_zero(),
        ) ==> proxy_from_sums(ip, norm_a, norm_b, finish).bits == 0x7f7f_ffff,
{
}

impl Default for ProxyInnerProduct {
    fn default() -> (r: ProxyInnerProduct)
        ensures
            r == ProxyInnerProduct,
    {
        ProxyInnerProduct
    }
}

impl ProxyInnerProduct {
    /// The distance between two vectors; `add_product(acc, x, y)` is to be `acc + x * y`, and
    /// `finish` as in [`ProxyInnerProduct::from_sums`].
    pub fn distance<
        P: Fn(Single, Single, Single) -> Single,
        F: Fn(Single, Single, Single) -> Single,
    >(&self, a: &[Single], b: &[Single], add_product: &P, finish: &F) -> (r: Single)
        requires
            a@.len() == b@.len(),
            calls::maps3(*add_product),
            calls::maps3(*finish),
        ensures
            r == proxy_from_sums(
                quantized::paired(*add_product, a@, b@),
                quantized::paired(*add_product, a@, a@),
                quantized::paired(*add_product, b@, b@),
                *finish,
            ),
    {
        self.from_sums(
            accumulate_pairs(a, b, add_product),
            accumulate_pairs(a, a, add_product),
            accumulate_pairs(b, b, add_product),
            finish,
        )
    }

    /// The distance that belongs to an inner product and two squared norms: the largest finite
    /// number where a norm is zero or the product is negative or NaN, and `finish(ip, a, b)`,
    /// which is to be `-log2(ip / sqrt(a * b)) + 1 / sqrt(ip)`, elsewhere.
    pub fn from_sums<F: Fn(Single, Single, Single) -> Single>(
        &self,
        ip: Single,
        norm_a: Single,
        norm_b: Single,
        finish: &F,
    ) -> (r: Single)
        requires
            calls::maps3(*finish),
        ensures
            r == proxy_from_sums(ip, norm_a, norm_b, *finish),
    {
        if norm_a.abs().bits == 0 || norm_b.abs().bits == 0 || !ip.ge(Single::zero()) {
            Single { bits: LARGEST_BITS }
        } else {
            finish(ip, norm_a, norm_b)
        }
    }

    /// The name of the distance.
    pub fn name(&self) -> (r: &'static str)
        ensures
            r@ == "proxy_inner_product"@,
    {
        "proxy_inner_product"
    }
}

/// Correction for alternative cosine and dot distances; `half_power(d)` is to be `2^(-d)`, which
/// is a similarity, and `one_minus(s)` to be `1 - s`.
pub fn correct_alternative_cosine<P: Fn(Single) -> Single, F: Fn(Single) -> Single>(
    d: Single,
    half_power: &P,
    one_minus: &F,
) -> (r: Single)
    requires
        calls::maps1(*half_power),
        calls::maps1(*one_minus),
    ensures
        r == calls::image1(*one_minus, calls::image1(*half_power, d)),
{
    one_minus(half_power(d))
}

/// Correction for true angular distances from alternative cosine ones; `half_power(d)` is to be
/// `2^(-d)`, `half_turns(s)` the arc cosine of `s` divided by pi, and `one_minus(x)` to be `1 - x`.
pub fn true_angular_from_alt_cosine<
    P: Fn(Single) -> Single,
    A: Fn(Single) -> Single,
    F: Fn(Single) -> Single,
>(d: Single, half_power: &P, half_turns: &A, one_minus: &F) -> (r: Single)
    requires
        calls::maps1(*half_power),
        calls::maps1(*half_turns),
        calls::maps1(*one_minus),
    ensures
        r == calls::image1(
            *one_minus,
            calls::image1(*half_turns, calls::image1(*half_power, d)),
        ),
{
    one_minus(half_turns(half_power(d)))
}

/// Correction for alternative inner product: `0` for the largest finite number and beyond, and
/// `negative_reciprocal(d)`, which is to be `-1 / d`, elsewhere.
pub fn correct_alternative_inner_product<F: Fn(Single) -> Single>(
    d: Single,
    negative_reciprocal: &F,
) -> (r: Single)
    requires
        calls::maps1(*negative_reciprocal),
    ensures
        r == if d.at_least(Single { bits: LARGEST_BITS }) {
            Single::spec_zero()
        } else {
            calls::image1(*negative_reciprocal, d)
        },
{
    if d.ge(Single { bits: LARGEST_BITS }) {
        Single::zero()
    } else {
        negative_reciprocal(d)
    }
}

} // verus!
