//! Distances of given pairs of rows, for measurement.

use crate::calls;
use crate::distance::metric;
use crate::distance::quantized;
use crate::distance::quantized::{
    quantized_i8_alternative_dot, quantized_i8_dot, quantized_u8_sq_euclidean,
};
use crate::distance::{Distance, Metric};
use crate::layout;
use crate::layout::row_of;
use crate::single;
use crate::single::Single;
use vstd::prelude::*;

verus! {

/// Why distances of pairs are refused.
#[derive(Clone, Copy, PartialEq, Eq, Structural, Debug)]
pub enum PairError {
    /// There are not as many reciprocal norms as rows.
    NormsMismatch,
    /// The two lists of pairs have different lengths.
    LengthMismatch,
    /// There is no metric of this name.
    UnknownMetric,
    /// The metric is not among those that are measured.
    UnsupportedMetric,
    /// The first row of a pair is negative.
    FirstNegative {
        /// The pair.
        pair: usize,
    },
    /// The second row of a pair is negative.
    SecondNegative {
        /// The pair.
        pair: usize,
    },
    /// The first row of a pair is not there.
    FirstOutOfRange {
        /// The pair.
        pair: usize,
    },
    /// The second row of a pair is not there.
    SecondOutOfRange {
        /// The pair.
        pair: usize,
    },
}

/// The first thing that is wrong with a pair.
pub open spec fn pair_fault(i: i32, j: i32, n: int, pair: usize) -> Option<PairError> {
    if i < 0 {
        Some(PairError::FirstNegative { pair })
    } else if j < 0 {
        Some(PairError::SecondNegative { pair })
    } else if i >= n {
        Some(PairError::FirstOutOfRange { pair })
    } else if j >= n {
        Some(PairError::SecondOutOfRange { pair })
    } else {
        None
    }
}

/// The first thing that is wrong with the pairs from `pair` on.
pub open spec fn fault_from(is: Seq<i32>, js: Seq<i32>, n: int, pair: int) -> Option<PairError>
    decreases is.len() - pair,
{
    if pair >= is.len() {
        None
    } else {
        match pair_fault(is[pair], js[pair], n, pair as usize) {
            Some(fault) => Some(fault),
            None => fault_from(is, js, n, pair + 1),
        }
    }
}

/// The first thing that is wrong with pairs of `n` rows.
pub open spec fn pairs_fault(is: Seq<i32>, js: Seq<i32>, n: int) -> Option<PairError> {
    if is.len() != js.len() {
        Some(PairError::LengthMismatch)
    } else {
        fault_from(is, js, n, 0)
    }
}

/// Pairs without a fault are pairs of rows.
pub proof fn faultless_pairs_are_rows(is: Seq<i32>, js: Seq<i32>, n: int)
    ensures
        pairs_fault(is, js, n) is None <==> {
            &&& is.len() == js.len()
            &&& forall|p: int|
                0 <= p < is.len() ==> 0 <= #[trigger] is[p] < n && 0 <= js[p] < n
        },
{
    if is.len() == js.len() {
        faultless_from(is, js, n, 0);
    }
}

proof fn faultless_from(is: Seq<i32>, js: Seq<i32>, n: int, pair: int)
    requires
        0 <= pair <= is.len(),
    ensures
        fault_from(is, js, n, pair) is None <==> forall|p: int|
            pair <= p < is.len() ==> 0 <= #[trigger] is[p] < n && 0 <= js[p] < n,
    decreases is.len() - pair,
{
    if pair < is.len() {
        faultless_from(is, js, n, pair + 1);
        if pair_fault(is[pair], js[pair], n, pair as usize) is Some {
            assert(!(0 <= is[pair] < n && 0 <= js[pair] < n));
        }
    }
}

/// What is reported is wrong with the first pair that is not of rows.
pub proof fn the_first_fault_is_reported(is: Seq<i32>, js: Seq<i32>, n: int, p: int)
    requires
        is.len() == js.len(),
        is.len() <= usize::MAX,
        0 <= p < is.len(),
        forall|i: int| 0 <= i < p ==> 0 <= #[trigger] is[i] < n && 0 <= js[i] < n,
        !(0 <= is[p] < n && 0 <= js[p] < n),
    ensures
        pairs_fault(is, js, n) == Some(
            if is[p] < 0 {
                PairError::FirstNegative { pair: p as usize }
            } else if js[p] < 0 {
                PairError::SecondNegative { pair: p as usize }
            } else if is[p] >= n {
                PairError::FirstOutOfRange { pair: p as usize }
            } else {
                PairError::SecondOutOfRange { pair: p as usize }
            },
        ),
{
    faults_start(is, js, n, 0, p);
}

proof fn faults_start(is: Seq<i32>, js: Seq<i32>, n: int, from: int, p: int)
    requires
        0 <= from <= p < is.len(),
        forall|i: int| 0 <= i < p ==> 0 <= #[trigger] is[i] < n && 0 <= js[i] < n,
        !(0 <= is[p] < n && 0 <= js[p] < n),
    ensures
        fault_from(is, js, n, from) == pair_fault(is[p], js[p], n, p as usize),
    decreases p - from,
{
    if from < p {
        assert(0 <= is[from] < n);
        faults_start(is, js, n, from + 1, p);
    }
}

/// `r` holds the value of `distance` on each pair, or what is wrong with the pairs.
pub open spec fn measured(
    r: Result<Vec<Single>, PairError>,
    is: Seq<i32>,
    js: Seq<i32>,
    n: int,
    distance: spec_fn(int, int) -> Single,
) -> bool {
    match pairs_fault(is, js, n) {
        Some(fault) => r == Err::<Vec<Single>, PairError>(fault),
        None => {
            &&& r is Ok
            &&& r->Ok_0@ == Seq::new(
                is.len(),
                |p: int| distance(is[p] as int, js[p] as int),
            )
        },
    }
}

/// Evaluate `f` on each pair of rows.
fn measure<F: Fn(usize, usize) -> Single>(
    pairs_i: &[i32],
    pairs_j: &[i32],
    n_points: usize,
    f: F,
    Ghost(distance): Ghost<spec_fn(int, int) -> Single>,
) -> (r: Result<Vec<Single>, PairError>)
    requires
        forall|i: usize, j: usize|
            i < n_points && j < n_points ==> #[trigger] call_requires(f, (i, j)),
        forall|i: usize, j: usize, d: Single| #[trigger]
            call_ensures(f, (i, j), d) ==> d == distance(i as int, j as int),
    ensures
        measured(r, pairs_i@, pairs_j@, n_points as int, distance),
{
    if pairs_i.len() != pairs_j.len() {
        return Err(PairError::LengthMismatch);
    }
    let mut results: Vec<Single> = Vec::with_capacity(pairs_i.len());
    let mut k: usize = 0;
    while k < pairs_i.len()
        invariant
            k <= pairs_i@.len(),
            pairs_i@.len() == pairs_j@.len(),
            forall|i: usize, j: usize|
                i < n_points && j < n_points ==> #[trigger] call_requires(f, (i, j)),
            forall|i: usize, j: usize, d: Single| #[trigger]
                call_ensures(f, (i, j), d) ==> d == distance(i as int, j as int),
            fault_from(pairs_i@, pairs_j@, n_points as int, k as int) == pairs_fault(
                pairs_i@,
                pairs_j@,
                n_points as int,
            ),
            results@.len() == k,
            forall|p: int|
                0 <= p < k ==> #[trigger] results@[p] == distance(
                    pairs_i@[p] as int,
                    pairs_j@[p] as int,
                ),
        decreases pairs_i@.len() - k,
    {
        if pairs_i[k] < 0 {
            return Err(PairError::FirstNegative { pair: k });
        }
        if pairs_j[k] < 0 {
            return Err(PairError::SecondNegative { pair: k });
        }
        let i: usize = pairs_i[k] as usize;
        let j: usize = pairs_j[k] as usize;
        if i >= n_points {
            return Err(PairError::FirstOutOfRange { pair: k });
        }
        if j >= n_points {
            return Err(PairError::SecondOutOfRange { pair: k });
        }
        results.push(f(i, j));
        k = k + 1;
    }
    assert(results@ =~= Seq::new(
        pairs_i@.len(),
        |p: int| distance(pairs_i@[p] as int, pairs_j@[p] as int),
    ));
    Ok(results)
}

/// A metric is among those that are measured.
pub open spec fn is_measured(metric: Metric) -> bool {
    metric is SquaredEuclidean || metric is Euclidean || metric is L2 || metric is Cosine
        || metric is Dot || metric is InnerProduct
}

/// The distances of the rows of `data` from each other.
pub open spec fn between_rows<D: Distance>(
    distance: D,
    data: Seq<Single>,
    dim: int,
) -> spec_fn(int, int) -> Single {
    |i: int, j: int| distance.between(layout::row(data, dim, i), layout::row(data, dim, j))
}

/// Compute distances of given pairs of rows, under a metric that is given by its name.
///
/// `kernel(metric)` is to be the distance of that metric.
pub fn benchmark_distances<D: Distance, F: Fn(Metric) -> D>(
    data: &[Single],
    n_points: usize,
    dim: usize,
    pairs_i: &[i32],
    pairs_j: &[i32],
    metric: &str,
    kernel: &F,
) -> (r: Result<Vec<Single>, PairError>)
    requires
        data@.len() == n_points * dim,
        calls::maps1(*kernel),
    ensures
        pairs_i@.len() != pairs_j@.len() ==> r == Err::<Vec<Single>, PairError>(
            PairError::LengthMismatch,
        ),
        pairs_i@.len() == pairs_j@.len() && (forall|m: Metric| #[trigger]
            metric::name_of(m) != metric@) ==> r == Err::<Vec<Single>, PairError>(
            PairError::UnknownMetric,
        ),
        pairs_i@.len() == pairs_j@.len() ==> forall|m: Metric| #[trigger]
            metric::name_of(m) == metric@ ==> if is_measured(m) {
                measured(
                    r,
                    pairs_i@,
                    pairs_j@,
                    n_points as int,
                    between_rows(calls::image1(*kernel, m), data@, dim as int),
                )
            } else {
                r == Err::<Vec<Single>, PairError>(PairError::UnsupportedMetric)
            },
{
    if pairs_i.len() != pairs_j.len() {
        return Err(PairError::LengthMismatch);
    }
    let ghost name = metric@;
    let metric = match Metric::from_str(metric) {
        None => return Err(PairError::UnknownMetric),
        Some(metric) => metric,
    };
    proof {
        assert forall|m: Metric| #[trigger] metric::name_of(m) == name implies m == metric by {
            Metric::names_are_distinct(m, metric);
        }
    }
    match metric {
        Metric::SquaredEuclidean
        | Metric::Euclidean
        | Metric::L2
        | Metric::Cosine
        | Metric::Dot
        | Metric::InnerProduct => {},
        _ => return Err(PairError::UnsupportedMetric),
    }
    let distance = kernel(metric);
    let law: Ghost<spec_fn(int, int) -> Single> = Ghost(
        between_rows(distance, data@, dim as int),
    );
    let of_pair = |i: usize, j: usize| -> (d: Single)
        requires
            i < n_points,
            j < n_points,
        ensures
            d == (law@)(i as int, j as int),
        {
            distance.distance(row_of(data, n_points, dim, i), row_of(data, n_points, dim, j))
        };
    measure(pairs_i, pairs_j, n_points, of_pair, law)
}

/// Bit pattern of minus infinity.
pub const NEGATIVE_INFINITY_BITS: u32 = 0xff80_0000;

/// The least of some numbers, and infinity where there is none; NaN is passed over.
pub open spec fn least(data: Seq<Single>) -> Single
    decreases data.len(),
{
    if data.len() == 0 {
        Single::spec_infinity()
    } else if data.last().below(least(data.drop_last())) {
        data.last()
    } else {
        least(data.drop_last())
    }
}

/// The greatest of some numbers, and minus infinity where there is none; NaN is passed over.
pub open spec fn greatest(data: Seq<Single>) -> Single
    decreases data.len(),
{
    if data.len() == 0 {
        Single { bits: NEGATIVE_INFINITY_BITS }
    } else if greatest(data.drop_last()).below(data.last()) {
        data.last()
    } else {
        greatest(data.drop_last())
    }
}

/// The least and the greatest of some numbers bound every one of them, and are among them, unless
/// there is none.
pub proof fn extremes_bound_all(data: Seq<Single>)
    ensures
        !least(data).nan(),
        !greatest(data).nan(),
        forall|i: int|
            0 <= i < data.len() && !(#[trigger] data[i]).nan() ==> data[i].at_least(least(data))
                && greatest(data).at_least(data[i]),
        least(data).bits == 0x7f80_0000 || data.contains(least(data)),
        greatest(data).bits == 0xff80_0000 || data.contains(greatest(data)),
    decreases data.len(),
{
    if data.len() > 0 {
        let rest = data.drop_last();
        extremes_bound_all(rest);
        assert(data[data.len() - 1] == data.last());
        assert forall|x: Single| #[trigger] rest.contains(x) implies data.contains(x) by {
            let i = choose|i: int| 0 <= i < rest.len() && rest[i] == x;
            assert(data[i] == x);
        }
        assert forall|i: int|
            0 <= i < data.len() && !(#[trigger] data[i]).nan() implies data[i].at_least(
            least(data),
        ) && greatest(data).at_least(data[i]) by {
            if i < rest.len() {
                assert(rest[i] == data[i]);
            }
        }
    }
}

fn range_of(data: &[Single]) -> (r: (Single, Single))
    ensures
        r.0 == least(data@),
        r.1 == greatest(data@),
{
    let mut min_v: Single = Single::infinity();
    let mut max_v: Single = Single { bits: NEGATIVE_INFINITY_BITS };
    let mut i: usize = 0;
    while i < data.len()
        invariant
            i <= data@.len(),
            min_v == least(data@.take(i as int)),
            max_v == greatest(data@.take(i as int)),
        decreases data@.len() - i,
    {
        assert(data@.take(i + 1).drop_last() =~= data@.take(i as int));
        if data[i].lt(min_v) {
            min_v = data[i];
        }
        if max_v.lt(data[i]) {
            max_v = data[i];
        }
        i = i + 1;
    }
    assert(data@.take(i as int) =~= data@);
    (min_v, max_v)
}

/// The arithmetic of unsigned byte codes.
pub struct ByteCoding<P, E, C, S> {
    /// `step(min, max)` is to be the larger of `max - min` and `1e-12`, divided by 255.
    pub step: P,
    /// `entry(min, step, i)` is to be `min + step * i`.
    pub entry: E,
    /// `code(x, min, step)` is to be `(x - min) / step`, rounded and moved into `[0, 255]`.
    pub code: C,
    /// `add_square(acc, a, b)` is to be `acc + (a - b) * (a - b)`.
    pub add_square: S,
}

impl<
    P: Fn(Single, Single) -> Single,
    E: Fn(Single, Single, u8) -> Single,
    C: Fn(Single, Single, Single) -> u8,
    S: Fn(Single, Single, Single) -> Single,
> ByteCoding<P, E, C, S> {
    /// Every operation is a function of its arguments.
    pub open spec fn wf(&self) -> bool {
        &&& calls::maps2(self.step)
        &&& calls::maps3(self.entry)
        &&& calls::maps3(self.code)
        &&& calls::maps3(self.add_square)
    }

    /// The codebook for numbers from `min`, in steps of `step`.
    pub open spec fn codebook(&self, min: Single, step: Single) -> Seq<Single> {
        Seq::new(256, |i: int| calls::image3(self.entry, min, step, i as u8))
    }

    /// The codes of some numbers.
    pub open spec fn codes(&self, data: Seq<Single>, min: Single, step: Single) -> Seq<u8> {
        data.map_values(|x: Single| calls::image3(self.code, x, min, step))
    }

    /// The distances of rows of `data` from coded rows.
    pub open spec fn coded_distances(&self, data: Seq<Single>, dim: int) -> spec_fn(
        int,
        int,
    ) -> Single {
        let min = least(data);
        let step = calls::image2(self.step, min, greatest(data));
        |i: int, j: int|
            quantized::paired(
                self.add_square,
                layout::row(data, dim, i),
                quantized::looked_up_u8(
                    layout::row(self.codes(data, min, step), dim, j),
                    self.codebook(min, step),
                ),
            )
    }

    fn build_codebook(&self, min: Single, step: Single) -> (r: Vec<Single>)
        requires
            self.wf(),
        ensures
            r@ == self.codebook(min, step),
    {
        let mut r: Vec<Single> = Vec::with_capacity(256);
        let mut i: usize = 0;
        while i < 256
            invariant
                i <= 256,
                self.wf(),
                r@ == self.codebook(min, step).take(i as int),
            decreases 256 - i,
        {
            let c: Single = (self.entry)(min, step, i as u8);
            r.push(c);
            i = i + 1;
            assert(r@ =~= self.codebook(min, step).take(i as int));
        }
        assert(r@ =~= self.codebook(min, step));
        r
    }

    fn encode(&self, data: &[Single], min: Single, step: Single) -> (r: Vec<u8>)
        requires
            self.wf(),
        ensures
            r@ == self.codes(data@, min, step),
    {
        let mut r: Vec<u8> = Vec::with_capacity(data.len());
        let mut i: usize = 0;
        while i < data.len()
            invariant
                i <= data@.len(),
                self.wf(),
                r@ == self.codes(data@, min, step).take(i as int),
            decreases data@.len() - i,
        {
            let c: u8 = (self.code)(data[i], min, step);
            r.push(c);
            i = i + 1;
            assert(r@ =~= self.codes(data@, min, step).take(i as int));
        }
        assert(r@ =~= self.codes(data@, min, step));
        r
    }
}

/// Code all rows in unsigned bytes, and compute squared distances between the first rows of given
/// pairs and the codes of the second ones.
pub fn benchmark_quantized_distances_u8<
    P: Fn(Single, Single) -> Single,
    E: Fn(Single, Single, u8) -> Single,
    C: Fn(Single, Single, Single) -> u8,
    S: Fn(Single, Single, Single) -> Single,
>(
    data: &[Single],
    n_points: usize,
    dim: usize,
    pairs_i: &[i32],
    pairs_j: &[i32],
    coding: &ByteCoding<P, E, C, S>,
) -> (r: Result<Vec<Single>, PairError>)
    requires
        data@.len() == n_points * dim,
        coding.wf(),
    ensures
        measured(
            r,
            pairs_i@,
            pairs_j@,
            n_points as int,
            coding.coded_distances(data@, dim as int),
        ),
{
    if pairs_i.len() != pairs_j.len() {
        return Err(PairError::LengthMismatch);
    }
    let (min_v, max_v) = range_of(data);
    let step: Single = (coding.step)(min_v, max_v);
    let codebook: Vec<Single> = coding.build_codebook(min_v, step);
    let quantized: Vec<u8> = coding.encode(data, min_v, step);
    let of_pair = |i: usize, j: usize| -> (d: Single)
        requires
            i < n_points,
            j < n_points,
        ensures
            d == coding.coded_distances(data@, dim as int)(i as int, j as int),
        {
            quantized_u8_sq_euclidean(
                row_of(data, n_points, dim, i),
                row_of(quantized.as_slice(), n_points, dim, j),
                codebook.as_slice(),
                &coding.add_square,
            )
        };
    measure(
        pairs_i,
        pairs_j,
        n_points,
        of_pair,
        Ghost(coding.coded_distances(data@, dim as int)),
    )
}

impl<
    P: Fn(Single, Single) -> Single,
    E: Fn(Single, Single, u8) -> Single,
    C: Fn(Single, Single, Single) -> u8,
    S: Fn(Single, Single, Single) -> Single,
> ByteCoding<P, E, C, S> {
    /// The distance of a row from a coded row takes all dimensions, each once: the number of the
    /// first row as it is, and that of the second as its code stands for it. The codes reach from
    /// the least number of all data to the greatest.
    pub proof fn coded_distances_take_every_dimension(
        self,
        data: Seq<Single>,
        dim: int,
        n: int,
        i: int,
        j: int,
    )
        requires
            data.len() == n * dim,
            0 <= dim,
            0 <= i < n,
            0 <= j < n,
        ensures
            ({
                let low = least(data);
                let step = calls::image2(self.step, low, greatest(data));
                self.coded_distances(data, dim)(i, j) == Seq::new(
                    dim as nat,
                    |d: int|
                        (
                            data[i * dim + d],
                            calls::image3(
                                self.entry,
                                low,
                                step,
                                calls::image3(self.code, data[j * dim + d], low, step),
                            ),
                        ),
                ).fold_left(
                    Single::spec_zero(),
                    |acc: Single, pair: (Single, Single)|
                        calls::image3(self.add_square, acc, pair.0, pair.1),
                )
            }),
    {
        let low = least(data);
        let step = calls::image2(self.step, low, greatest(data));
        layout::row_fits(i, n, dim);
        layout::row_fits(j, n, dim);
        let x = layout::row(data, dim, i);
        let y = quantized::looked_up_u8(
            layout::row(self.codes(data, low, step), dim, j),
            self.codebook(low, step),
        );
        quantized::pairs_take_every_dimension(self.add_square, x, y);
        assert(x.zip_with(y) =~= Seq::new(
            dim as nat,
            |d: int|
                (
                    data[i * dim + d],
                    calls::image3(
                        self.entry,
                        low,
                        step,
                        calls::image3(self.code, data[j * dim + d], low, step),
                    ),
                ),
        ));
    }
}

/// The distances of coded rows: transformed, or else their similarities with the sign changed.
pub open spec fn angular_distances<
    F: Fn(i32, Single, Single) -> Single,
    G: Fn(Single) -> Single,
>(
    data: Seq<i8>,
    dim: int,
    inv_norms: Seq<Single>,
    is_transformed: bool,
    scaled: F,
    neg_log2: G,
) -> spec_fn(int, int) -> Single {
    |i: int, j: int|
        {
            let product = quantized::register(
                quantized::dot(
                    quantized::integers(layout::row(data, dim, i)),
                    quantized::integers(layout::row(data, dim, j)),
                ),
            ) as i32;
            let similarity = calls::image3(scaled, product, inv_norms[i], inv_norms[j]);
            if is_transformed {
                quantized::transformed(
                    similarity,
                    |s: Single| calls::image1(neg_log2, s.smaller(Single { bits: single::ONE_BITS })),
                )
            } else {
                similarity.opposite()
            }
        }
}

/// The distance of two coded rows is made of the sum of the products of their codes in all
/// dimensions and of the norms of both: the similarity with its sign changed, or what `neg_log2`
/// makes of a positive similarity, moved down to one, and the largest finite number for any other.
pub proof fn angular_distances_take_every_dimension<
    F: Fn(i32, Single, Single) -> Single,
    G: Fn(Single) -> Single,
>(
    data: Seq<i8>,
    dim: int,
    n: int,
    inv_norms: Seq<Single>,
    scaled: F,
    neg_log2: G,
    i: int,
    j: int,
    product: i32,
)
    requires
        data.len() == n * dim,
        0 <= dim,
        0 <= i < n,
        0 <= j < n,
        (Seq::new(dim as nat, |d: int| data[i * dim + d] * data[j * dim + d]).fold_left(
            0int,
            |sum: int, product: int| sum + product,
        ) - product) % 0x1_0000_0000 == 0,
    ensures
        ({
            let similarity = calls::image3(scaled, product, inv_norms[i], inv_norms[j]);
            let plain = angular_distances(data, dim, inv_norms, false, scaled, neg_log2)(i, j);
            let log = angular_distances(data, dim, inv_norms, true, scaled, neg_log2)(i, j);
            &&& plain == similarity.opposite()
            &&& Single::spec_zero().below(similarity) && (Single { bits: 0x3f80_0000 }).at_least(
                similarity,
            ) ==> log == calls::image1(neg_log2, similarity)
            &&& (Single { bits: 0x3f80_0000 }).below(similarity) || similarity.nan() ==> log
                == calls::image1(neg_log2, Single { bits: 0x3f80_0000 })
            &&& Single::spec_zero().at_least(similarity) ==> log.bits == 0x7f7f_ffff
        }),
{
    layout::row_fits(i, n, dim);
    layout::row_fits(j, n, dim);
    let x = layout::row(data, dim, i);
    let y = layout::row(data, dim, j);
    assert(Seq::new(x.len(), |d: int| x[d] * y[d]) =~= Seq::new(
        dim as nat,
        |d: int| data[i * dim + d] * data[j * dim + d],
    ));
    quantized::code_products_are_residues(x, y, product);
}

/// Compute distances of given pairs of rows that were symmetrically coded in signed bytes. The
/// coding is not part of this call.
///
/// `scaled(dot, inv_x, inv_y)` is to be the product of the three, and `neg_log2(s)` to be
/// `-log2(s)`.
pub fn benchmark_quantized_angular_i8<
    F: Fn(i32, Single, Single) -> Single,
    G: Fn(Single) -> Single,
>(
    data: &[i8],
    n_points: usize,
    dim: usize,
    inv_norms: &[Single],
    pairs_i: &[i32],
    pairs_j: &[i32],
    transformed: bool,
    scaled: &F,
    neg_log2: &G,
) -> (r: Result<Vec<Single>, PairError>)
    requires
        data@.len() == n_points * dim,
        calls::maps3(*scaled),
        calls::maps1(*neg_log2),
    ensures
        inv_norms@.len() != n_points ==> r == Err::<Vec<Single>, PairError>(
            PairError::NormsMismatch,
        ),
        inv_norms@.len() == n_points ==> measured(
            r,
            pairs_i@,
            pairs_j@,
            n_points as int,
            angular_distances(data@, dim as int, inv_norms@, transformed, *scaled, *neg_log2),
        ),
{
    if inv_norms.len() != n_points {
        return Err(PairError::NormsMismatch);
    }
    let of_pair = |i: usize, j: usize| -> (d: Single)
        requires
            i < n_points,
            j < n_points,
        ensures
            d == angular_distances(
                data@,
                dim as int,
                inv_norms@,
                transformed,
                *scaled,
                *neg_log2,
            )(i as int, j as int),
        {
            let x = row_of(data, n_points, dim, i);
            let y = row_of(data, n_points, dim, j);
            if transformed {
                quantized_i8_alternative_dot(x, y, inv_norms[i], inv_norms[j], scaled, neg_log2)
            } else {
                scaled(quantized_i8_dot(x, y), inv_norms[i], inv_norms[j]).negate()
            }
        };
    measure(
        pairs_i,
        pairs_j,
        n_points,
        of_pair,
        Ghost(
            angular_distances(data@, dim as int, inv_norms@, transformed, *scaled, *neg_log2),
        ),
    )
}

} // verus!
