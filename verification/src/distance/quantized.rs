//! Quantized distance functions.
//!
//! Signed codes are compared with exact integer dot products. Distances between a
//! full-precision query and a `u8` or nibble-packed `u4` vector look the codes up in a codebook
//! and leave the floating-point steps to functions that the caller supplies.

use crate::calls;
use crate::single::{Single, LARGEST_BITS, ONE_BITS};
use vstd::arithmetic::div_mod::lemma_mod_multiples_vanish;
use vstd::prelude::*;

verus! {

/// The value that a 32-bit signed accumulator holds where the exact value is `x`: `x` itself
/// where it fits.
pub open spec fn register(x: int) -> int {
    (x + 0x8000_0000) % 0x1_0000_0000 - 0x8000_0000
}

proof fn register_steps(x: int, y: int)
    ensures
        register(register(x) + y) == register(x + y),
        -0x8000_0000 <= register(x) < 0x8000_0000,
        -0x8000_0000 <= x < 0x8000_0000 ==> register(x) == x,
{
    let size: int = 0x1_0000_0000;
    let turns = (x + 0x8000_0000) / size;
    lemma_mod_multiples_vanish(-turns, x + y + 0x8000_0000, size);
}

/// `acc + y` in a 32-bit signed accumulator.
fn accumulate(acc: i32, y: i32, Ghost(x): Ghost<int>) -> (r: i32)
    requires
        acc == register(x),
    ensures
        r == register(x + y),
{
    proof {
        register_steps(x, y as int);
        register_steps(acc + y, 0);
        lemma_mod_multiples_vanish(-1, acc + y + 0x8000_0000, 0x1_0000_0000);
        lemma_mod_multiples_vanish(1, acc + y + 0x8000_0000, 0x1_0000_0000);
    }
    acc.wrapping_add(y)
}

/// The exact dot product of two integer vectors of one length.
pub open spec fn dot(x: Seq<int>, y: Seq<int>) -> int
    decreases x.len(),
{
    if x.len() == 0 {
        0
    } else {
        dot(x.drop_last(), y.drop_last()) + x.last() * y.last()
    }
}

/// The integers that signed bytes stand for.
pub open spec fn integers(x: Seq<i8>) -> Seq<int> {
    x.map_values(|v: i8| v as int)
}

/// Integer dot product for two symmetrically quantized vectors.
///
/// Values are widened before multiplication, so the result is exact wherever it fits an `i32`
/// accumulator, and wraps around where it does not.
pub fn quantized_i8_dot(x: &[i8], y: &[i8]) -> (r: i32)
    requires
        x@.len() == y@.len(),
    ensures
        r == register(dot(integers(x@), integers(y@))),
{
    let mut acc: i32 = 0;
    let mut i: usize = 0;
    while i < x.len()
        invariant
            i <= x@.len(),
            x@.len() == y@.len(),
            acc == register(dot(integers(x@).take(i as int), integers(y@).take(i as int))),
        decreases x@.len() - i,
    {
        let ghost xs = integers(x@);
        let ghost ys = integers(y@);
        assert(xs.take(i + 1).drop_last() =~= xs.take(i as int));
        assert(ys.take(i + 1).drop_last() =~= ys.take(i as int));
        let a: i32 = x[i] as i32;
        let b: i32 = y[i] as i32;
        assert(-16384 <= a * b <= 16384) by (nonlinear_arith)
            requires
                -128 <= a <= 128,
                -128 <= b <= 128,
        ;
        acc = accumulate(acc, a * b, Ghost(dot(xs.take(i as int), ys.take(i as int))));
        i = i + 1;
    }
    assert(integers(x@).take(x@.len() as int) =~= integers(x@));
    assert(integers(y@).take(y@.len() as int) =~= integers(y@));
    acc
}

/// The dot product is the sum of the products of all dimensions.
pub proof fn dot_takes_every_dimension(x: Seq<int>, y: Seq<int>)
    requires
        x.len() == y.len(),
    ensures
        dot(x, y) == Seq::new(x.len(), |i: int| x[i] * y[i]).fold_left(
            0int,
            |sum: int, product: int| sum + product,
        ),
    decreases x.len(),
{
    if x.len() > 0 {
        dot_takes_every_dimension(x.drop_last(), y.drop_last());
        assert(Seq::new(x.len(), |i: int| x[i] * y[i]).drop_last() =~= Seq::new(
            x.drop_last().len(),
            |i: int| x.drop_last()[i] * y.drop_last()[i],
        ));
    }
}

/// A wider value leaves in the accumulator what is congruent to it, within 32 signed bits.
pub proof fn register_keeps_the_residue(x: int)
    ensures
        i32::MIN <= register(x) <= i32::MAX,
        (x - register(x)) % 0x1_0000_0000 == 0,
        i32::MIN <= x <= i32::MAX ==> register(x) == x,
{
    register_steps(x, 0);
    let size: int = 0x1_0000_0000;
    let turns = (x + 0x8000_0000) / size;
    vstd::arithmetic::div_mod::lemma_fundamental_div_mod(x + 0x8000_0000, size);
    lemma_mod_multiples_vanish(turns, 0, size);
}

/// The dot product of two code vectors, as the accumulator holds it, is the only number of 32
/// signed bits that is congruent to the sum of the products of all dimensions.
pub proof fn code_products_are_residues(a: Seq<i8>, b: Seq<i8>, x: i32)
    requires
        a.len() == b.len(),
        (Seq::new(a.len(), |i: int| a[i] * b[i]).fold_left(
            0int,
            |sum: int, product: int| sum + product,
        ) - x) % 0x1_0000_0000 == 0,
    ensures
        register(dot(integers(a), integers(b))) == x,
{
    let s = dot(integers(a), integers(b));
    dot_takes_every_dimension(integers(a), integers(b));
    assert(Seq::new(a.len(), |i: int| a[i] * b[i]) =~= Seq::new(
        integers(a).len(),
        |i: int| integers(a)[i] * integers(b)[i],
    ));
    register_keeps_the_residue(s);
    let size: int = 0x1_0000_0000;
    let r = register(s);
    vstd::arithmetic::div_mod::lemma_fundamental_div_mod(s - r, size);
    vstd::arithmetic::div_mod::lemma_fundamental_div_mod(s - x, size);
}

/// The dot product does not depend on the order of its arguments.
pub proof fn dot_commutes(x: Seq<int>, y: Seq<int>)
    requires
        x.len() == y.len(),
    ensures
        dot(x, y) == dot(y, x),
    decreases x.len(),
{
    if x.len() > 0 {
        dot_commutes(x.drop_last(), y.drop_last());
        assert(x.last() * y.last() == y.last() * x.last()) by (nonlinear_arith);
    }
}

/// A dot product of vectors whose entries lie within `limit` of zero lies within the length
/// times `limit` squared of zero.
pub proof fn dot_is_bounded(x: Seq<int>, y: Seq<int>, limit: int)
    requires
        x.len() == y.len(),
        limit >= 0,
        forall|i: int| 0 <= i < x.len() ==> -limit <= #[trigger] x[i] <= limit,
        forall|i: int| 0 <= i < y.len() ==> -limit <= #[trigger] y[i] <= limit,
    ensures
        -(x.len() * (limit * limit)) <= dot(x, y) <= x.len() * (limit * limit),
    decreases x.len(),
{
    if x.len() > 0 {
        dot_is_bounded(x.drop_last(), y.drop_last(), limit);
        let a = x[x.len() - 1];
        let b = y[y.len() - 1];
        assert(-(limit * limit) <= a * b <= limit * limit) by (nonlinear_arith)
            requires
                -limit <= a <= limit,
                -limit <= b <= limit,
                limit >= 0,
        ;
        assert(x.len() * (limit * limit) == (x.len() - 1) * (limit * limit) + limit * limit)
            by (nonlinear_arith);
    }
}

/// The accumulator is exact for signed bytes in up to 131071 dimensions.
pub proof fn i8_dot_is_exact(x: Seq<i8>, y: Seq<i8>)
    requires
        x.len() == y.len(),
        x.len() <= 131071,
    ensures
        register(dot(integers(x), integers(y))) == dot(integers(x), integers(y)),
{
    dot_is_bounded(integers(x), integers(y), 128);
    register_steps(dot(integers(x), integers(y)), 0);
}

/// The sum that grows by one supplied step per dimension, from the left.
pub open spec fn gathered(
    term: spec_fn(Single, int) -> Single,
    n: int,
) -> Single
    decreases n,
{
    if n <= 0 {
        Single::spec_zero()
    } else {
        term(gathered(term, n - 1), n - 1)
    }
}

/// The sum takes the dimensions below `n`, each once, from the first to the last.
pub proof fn gathering_takes_every_dimension(term: spec_fn(Single, int) -> Single, n: nat)
    ensures
        gathered(term, n as int) == Seq::new(n, |i: int| i).fold_left(Single::spec_zero(), term),
    decreases n,
{
    if n > 0 {
        gathering_takes_every_dimension(term, (n - 1) as nat);
        assert(Seq::new(n, |i: int| i).drop_last() =~= Seq::new((n - 1) as nat, |i: int| i));
    }
}

/// Reconstruct an inner product for per-dimension symmetric signed-int8 codes.
///
/// `scales[i]` is the dequantization scale shared by the query and every database vector in
/// dimension `i`. `add_term(acc, a, b, scale)` is to be `acc + a * b * scale * scale`.
pub fn quantized_i8_per_dimension_dot<F: Fn(Single, i32, i32, Single) -> Single>(
    x: &[i8],
    y: &[i8],
    scales: &[Single],
    add_term: &F,
) -> (r: Single)
    requires
        x@.len() == y@.len(),
        x@.len() == scales@.len(),
        calls::maps4(*add_term),
    ensures
        r == gathered(
            |acc: Single, i: int| calls::image4(*add_term, acc, x@[i] as i32, y@[i] as i32, scales@[i]),
            x@.len() as int,
        ),
{
    let ghost term = |acc: Single, i: int|
        calls::image4(*add_term, acc, x@[i] as i32, y@[i] as i32, scales@[i]);
    let mut acc: Single = Single::zero();
    let mut i: usize = 0;
    while i < x.len()
        invariant
            i <= x@.len(),
            x@.len() == y@.len(),
            x@.len() == scales@.len(),
            calls::maps4(*add_term),
            term == (|acc: Single, i: int|
                calls::image4(*add_term, acc, x@[i] as i32, y@[i] as i32, scales@[i])),
            acc == gathered(term, i as int),
        decreases x@.len() - i,
    {
        acc = add_term(acc, x[i] as i32, y[i] as i32, scales[i]);
        i = i + 1;
    }
    acc
}

/// Encode one signed SQ4 value in the low four bits.
///
/// Values use a biased representation: signed `-7..=7` maps to nibbles `0..=14`; nibble `15` is
/// reserved and decodes as zero defensively.
pub fn encode_signed_i4(value: i8) -> (r: u8)
    requires
        -7 <= value <= 7,
    ensures
        r == value + 7,
{
    (value + 7) as u8
}

/// The signed value that the low four bits of a byte stand for.
pub open spec fn decoded(nibble: u8) -> int {
    if nibble % 16 == 15 {
        0
    } else {
        nibble % 16 - 7
    }
}

/// Decode one biased signed SQ4 nibble.
pub fn decode_signed_i4(nibble: u8) -> (r: i8)
    ensures
        r == decoded(nibble),
{
    assert(nibble & 0x0f == nibble % 16) by (bit_vector);
    let low: u8 = nibble & 0x0f;
    if low == 15 {
        0
    } else {
        low as i8 - 7
    }
}

/// Decoding gives back every value that was encoded.
pub proof fn decoding_undoes_encoding(value: i8)
    requires
        -7 <= value <= 7,
    ensures
        decoded((value + 7) as u8) == value,
{
}

/// Only the low half of a byte counts; its values run up from minus seven, and the last one, which
/// no value has, stands for zero.
pub proof fn decoding_reads_low_halves(low: u8, high: u8)
    requires
        low < 16,
        high < 16,
    ensures
        decoded((low + 16 * high) as u8) == decoded(low),
        low < 15 ==> decoded(low) == low - 7,
        decoded(15) == 0,
        -7 <= decoded(low) <= 7,
{
    assert((low + 16 * high) % 16 == low);
}

/// The nibble of dimension `i`: even dimensions lie in the low half of a byte.
pub open spec fn nibble_at(packed: Seq<u8>, i: int) -> u8 {
    if i % 2 == 0 {
        packed[i / 2] % 16
    } else {
        packed[i / 2] / 16
    }
}

/// The signed values of the first `dim` dimensions of a nibble-packed vector.
pub open spec fn unpacked(packed: Seq<u8>, dim: int) -> Seq<int> {
    Seq::new(dim as nat, |i: int| decoded(nibble_at(packed, i)))
}

/// Every byte holds two dimensions, the even one in its low half and the odd one in its high half,
/// and nothing else.
pub proof fn nibbles_make_up_bytes(packed: Seq<u8>, b: int)
    requires
        0 <= b < packed.len(),
    ensures
        nibble_at(packed, 2 * b) < 16,
        nibble_at(packed, 2 * b + 1) < 16,
        packed[b] == nibble_at(packed, 2 * b) + 16 * nibble_at(packed, 2 * b + 1),
{
}

/// The nibble of one dimension.
fn nibble(packed: &[u8], i: usize) -> (r: u8)
    requires
        i < 2 * packed@.len(),
    ensures
        r == nibble_at(packed@, i as int),
        r < 16,
{
    let byte: u8 = packed[i / 2];
    assert(byte & 0x0f == byte % 16) by (bit_vector);
    assert((byte >> 4) & 0x0f == byte / 16) by (bit_vector);
    assert(byte / 16 < 16);
    if i % 2 == 0 {
        byte & 0x0f
    } else {
        (byte >> 4) & 0x0f
    }
}

/// Exact integer dot product for two nibble-packed signed SQ4 vectors.
///
/// Dimension zero occupies the low nibble, dimension one the high nibble. `dim` is explicit so
/// an odd final dimension never consumes the padding nibble.
pub fn quantized_i4_dot(x: &[u8], y: &[u8], dim: usize) -> (r: i32)
    requires
        dim <= 2 * x@.len(),
        dim <= 2 * y@.len(),
    ensures
        r == register(dot(unpacked(x@, dim as int), unpacked(y@, dim as int))),
{
    let mut result: i32 = 0;
    let mut i: usize = 0;
    while i < dim
        invariant
            i <= dim,
            dim <= 2 * x@.len(),
            dim <= 2 * y@.len(),
            result == register(dot(unpacked(x@, i as int), unpacked(y@, i as int))),
        decreases dim - i,
    {
        let a: i8 = decode_signed_i4(nibble(x, i));
        let b: i8 = decode_signed_i4(nibble(y, i));
        assert(unpacked(x@, i + 1).drop_last() =~= unpacked(x@, i as int));
        assert(unpacked(y@, i + 1).drop_last() =~= unpacked(y@, i as int));
        assert(-64 <= a * b <= 64) by (nonlinear_arith)
            requires
                -8 <= a <= 8,
                -8 <= b <= 8,
        ;
        result = accumulate(
            result,
            a as i32 * b as i32,
            Ghost(dot(unpacked(x@, i as int), unpacked(y@, i as int))),
        );
        i = i + 1;
    }
    result
}

/// What lies beyond the last dimension of a nibble-packed vector does not matter: neither the
/// padding nibble of an odd dimension nor any further byte.
pub proof fn padding_is_ignored(x: Seq<u8>, y: Seq<u8>, dim: int)
    requires
        0 <= dim <= 2 * x.len(),
        dim <= 2 * y.len(),
        forall|i: int| 0 <= i < dim ==> #[trigger] nibble_at(x, i) == nibble_at(y, i),
    ensures
        unpacked(x, dim) == unpacked(y, dim),
{
    assert(unpacked(x, dim) =~= unpacked(y, dim));
}

/// The accumulator is exact for nibbles in up to 43,826,196 dimensions.
pub proof fn i4_dot_is_exact(x: Seq<u8>, y: Seq<u8>, dim: int)
    requires
        0 <= dim <= 43_826_196,
        dim <= 2 * x.len(),
        dim <= 2 * y.len(),
    ensures
        register(dot(unpacked(x, dim), unpacked(y, dim))) == dot(unpacked(x, dim), unpacked(y, dim)),
{
    dot_is_bounded(unpacked(x, dim), unpacked(y, dim), 7);
    register_steps(dot(unpacked(x, dim), unpacked(y, dim)), 0);
}

/// The alternative distance that belongs to a similarity: the largest finite number where the
/// similarity is not positive, and `transform` of it elsewhere.
pub open spec fn transformed(similarity: Single, transform: spec_fn(Single) -> Single) -> Single {
    if Single::spec_zero().at_least(similarity) {
        Single { bits: LARGEST_BITS }
    } else {
        transform(similarity)
    }
}

/// A positive similarity is transformed, and any other number gives the largest finite number. So
/// the greater similarity has the smaller distance, wherever `transform` turns the order of
/// positive similarities round and stays finite.
pub proof fn transforming_reverses_order(
    lesser: Single,
    greater: Single,
    transform: spec_fn(Single) -> Single,
)
    requires
        greater.at_least(lesser),
        forall|x: Single, y: Single|
            Single::spec_zero().below(x) && y.at_least(x) ==> (#[trigger] transform(x)).at_least(
                #[trigger] transform(y),
            ),
        forall|x: Single|
            Single::spec_zero().below(x) ==> (Single { bits: LARGEST_BITS }).at_least(
                #[trigger] transform(x),
            ),
    ensures
        transformed(lesser, transform).at_least(transformed(greater, transform)),
        Single::spec_zero().below(greater) ==> transformed(greater, transform) == transform(
            greater,
        ),
        Single::spec_zero().at_least(lesser) ==> transformed(lesser, transform).bits
            == 0x7f7f_ffff,
{
}

/// Alternative angular distance for two symmetrically quantized vectors.
///
/// `inv_norm_x` and `inv_norm_y` are precomputed reciprocal L2 norms in the integer domain.
/// `scaled(dot, inv_x, inv_y)` is to be the product of the three, and `neg_log2(s)` to be
/// `-log2(s)`. A similarity that rounding has carried beyond one counts as one, and so does NaN.
pub fn quantized_i8_alternative_dot<
    F: Fn(i32, Single, Single) -> Single,
    G: Fn(Single) -> Single,
>(
    x: &[i8],
    y: &[i8],
    inv_norm_x: Single,
    inv_norm_y: Single,
    scaled: &F,
    neg_log2: &G,
) -> (r: Single)
    requires
        x@.len() == y@.len(),
        calls::maps3(*scaled),
        calls::maps1(*neg_log2),
    ensures
        r == transformed(
            calls::image3(
                *scaled,
                register(dot(integers(x@), integers(y@))) as i32,
                inv_norm_x,
                inv_norm_y,
            ),
            |s: Single| calls::image1(*neg_log2, s.smaller(Single { bits: ONE_BITS })),
        ),
{
    let similarity: Single = scaled(quantized_i8_dot(x, y), inv_norm_x, inv_norm_y);
    if Single::zero().ge(similarity) {
        Single { bits: LARGEST_BITS }
    } else {
        neg_log2(similarity.min(Single { bits: ONE_BITS }))
    }
}

/// The codebook entries that the bytes of `codes` select.
pub open spec fn looked_up_u8(codes: Seq<u8>, codebook: Seq<Single>) -> Seq<Single> {
    codes.map_values(|c: u8| codebook[c as int])
}

/// The codebook entries that the first `dim` nibbles of `packed` select.
pub open spec fn looked_up_u4(packed: Seq<u8>, dim: int, codebook: Seq<Single>) -> Seq<Single> {
    Seq::new(dim as nat, |i: int| codebook[nibble_at(packed, i) as int])
}

/// Every byte selects an entry of the codebook.
pub open spec fn covers_u8(codebook: Seq<Single>, codes: Seq<u8>) -> bool {
    forall|i: int| 0 <= i < codes.len() ==> #[trigger] codes[i] < codebook.len()
}

/// Every nibble of the first `dim` selects an entry of the codebook.
pub open spec fn covers_u4(codebook: Seq<Single>, packed: Seq<u8>, dim: int) -> bool {
    forall|i: int| 0 <= i < dim ==> #[trigger] nibble_at(packed, i) < codebook.len()
}

/// Dequantize a vector of byte codes.
pub fn dequantize_u8(y: &[u8], codebook: &[Single]) -> (r: Vec<Single>)
    requires
        covers_u8(codebook@, y@),
    ensures
        r@ == looked_up_u8(y@, codebook@),
{
    let mut r: Vec<Single> = Vec::with_capacity(y.len());
    let mut i: usize = 0;
    while i < y.len()
        invariant
            i <= y@.len(),
            r@.len() == i,
            covers_u8(codebook@, y@),
            forall|j: int| 0 <= j < i ==> #[trigger] r@[j] == codebook@[y@[j] as int],
        decreases y@.len() - i,
    {
        r.push(codebook[y[i] as usize]);
        i = i + 1;
    }
    assert(r@ =~= looked_up_u8(y@, codebook@));
    r
}

/// Extract the value for dimension `i` from a nibble-packed byte array.
pub fn dequant_u4(y: &[u8], i: usize, codebook: &[Single]) -> (r: Single)
    requires
        i < 2 * y@.len(),
        nibble_at(y@, i as int) < codebook@.len(),
    ensures
        r == codebook@[nibble_at(y@, i as int) as int],
{
    codebook[nibble(y, i) as usize]
}

/// Dequantize the first `dim` dimensions of a nibble-packed vector.
pub fn dequantize_u4(y: &[u8], dim: usize, codebook: &[Single]) -> (r: Vec<Single>)
    requires
        dim <= 2 * y@.len(),
        covers_u4(codebook@, y@, dim as int),
    ensures
        r@ == looked_up_u4(y@, dim as int, codebook@),
{
    let mut r: Vec<Single> = Vec::with_capacity(dim);
    let mut i: usize = 0;
    while i < dim
        invariant
            i <= dim,
            r@.len() == i,
            dim <= 2 * y@.len(),
            covers_u4(codebook@, y@, dim as int),
            forall|j: int|
                0 <= j < i ==> #[trigger] r@[j] == codebook@[nibble_at(y@, j) as int],
        decreases dim - i,
    {
        r.push(dequant_u4(y, i, codebook));
        i = i + 1;
    }
    assert(r@ =~= looked_up_u4(y@, dim as int, codebook@));
    r
}

/// What `step` accumulates over the pairs of two vectors, from the left and from zero.
pub open spec fn paired<F: Fn(Single, Single, Single) -> Single>(
    step: F,
    x: Seq<Single>,
    y: Seq<Single>,
) -> Single
    decreases x.len(),
{
    if x.len() == 0 {
        Single::spec_zero()
    } else {
        calls::image3(step, paired(step, x.drop_last(), y.drop_last()), x.last(), y.last())
    }
}

/// What is accumulated takes the pairs of all dimensions, each once, from the first to the last.
pub proof fn pairs_take_every_dimension<F: Fn(Single, Single, Single) -> Single>(
    step: F,
    x: Seq<Single>,
    y: Seq<Single>,
)
    requires
        x.len() == y.len(),
    ensures
        paired(step, x, y) == x.zip_with(y).fold_left(
            Single::spec_zero(),
            |acc: Single, pair: (Single, Single)| calls::image3(step, acc, pair.0, pair.1),
        ),
    decreases x.len(),
{
    if x.len() > 0 {
        pairs_take_every_dimension(step, x.drop_last(), y.drop_last());
        assert(x.zip_with(y).drop_last() =~= x.drop_last().zip_with(y.drop_last()));
    }
}

/// Accumulate `step(acc, x[i], y[i])` over two vectors of one length.
pub fn accumulate_pairs<F: Fn(Single, Single, Single) -> Single>(
    x: &[Single],
    y: &[Single],
    step: &F,
) -> (r: Single)
    requires
        x@.len() == y@.len(),
        calls::maps3(*step),
    ensures
        r == paired(*step, x@, y@),
{
    let mut acc: Single = Single::zero();
    let mut i: usize = 0;
    while i < x.len()
        invariant
            i <= x@.len(),
            x@.len() == y@.len(),
            calls::maps3(*step),
            acc == paired(*step, x@.take(i as int), y@.take(i as int)),
        decreases x@.len() - i,
    {
        assert(x@.take(i + 1).drop_last() =~= x@.take(i as int));
        assert(y@.take(i + 1).drop_last() =~= y@.take(i as int));
        acc = step(acc, x[i], y[i]);
        i = i + 1;
    }
    assert(x@.take(x@.len() as int) =~= x@);
    assert(y@.take(y@.len() as int) =~= y@);
    acc
}

/// The alternative cosine distance that belongs to a dot product and two squared norms: zero
/// between two zero vectors, the largest finite number where one is zero or the product is not
/// positive, and `finish` of the three elsewhere.
pub open spec fn cosine_from_sums(
    product: Single,
    norm_x: Single,
    norm_y: Single,
    finish: spec_fn(Single, Single, Single) -> Single,
) -> Single {
    let x_is_zero = norm_x.magnitude() == 0;
    let y_is_zero = norm_y.magnitude() == 0;
    if x_is_zero && y_is_zero {
        Single::spec_zero()
    } else if x_is_zero || y_is_zero || Single::spec_zero().at_least(product) {
        Single { bits: LARGEST_BITS }
    } else {
        finish(product, norm_x, norm_y)
    }
}

/// Vectors of norm zero are at distance zero from each other and as far as can be from all others;
/// and so are vectors at a right angle or beyond, in the alternative cosine distance. Elsewhere the
/// distance is what `finish` makes of the sums.
pub proof fn zero_vectors_stand_apart(
    product: Single,
    norm_x: Single,
    norm_y: Single,
    finish: spec_fn(Single, Single, Single) -> Single,
)
    ensures
        ({
            let zero_x = norm_x.bits == 0 || norm_x.bits == 0x8000_0000;
            let zero_y = norm_y.bits == 0 || norm_y.bits == 0x8000_0000;
            let cosine = cosine_from_sums(product, norm_x, norm_y, finish);
            let mapped = mapped_from_sums(product, norm_x, norm_y, finish);
            &&& zero_x && zero_y ==> cosine.bits == 0 && mapped.bits == 0
            &&& zero_x != zero_y ==> cosine.bits == 0x7f7f_ffff && mapped.bits == 0x7f7f_ffff
            &&& !zero_x && !zero_y ==> mapped == finish(product, norm_x, norm_y)
            &&& !zero_x && !zero_y && (Single::spec_zero().below(product) || product.nan())
                ==> cosine == finish(product, norm_x, norm_y)
            &&& !zero_x && !zero_y && Single::spec_zero().at_least(product) ==> cosine.bits
                == 0x7f7f_ffff
        }),
{
}

/// The alternative cosine distance from a dot product and two squared norms.
pub fn alternative_cosine_from_sums<G: Fn(Single, Single, Single) -> Single>(
    product: Single,
    norm_x: Single,
    norm_y: Single,
    finish: &G,
) -> (r: Single)
    requires
        calls::maps3(*finish),
    ensures
        r == cosine_from_sums(
            product,
            norm_x,
            norm_y,
            |d: Single, a: Single, b: Single| calls::image3(*finish, d, a, b),
        ),
{
    let x_is_zero = norm_x.abs().bits == 0;
    let y_is_zero = norm_y.abs().bits == 0;
    if x_is_zero && y_is_zero {
        Single::zero()
    } else if x_is_zero || y_is_zero || Single::zero().ge(product) {
        Single { bits: LARGEST_BITS }
    } else {
        finish(product, norm_x, norm_y)
    }
}

/// The mapped cosine distance that belongs to a dot product and two squared norms: zero between
/// two zero vectors, the largest finite number where one of them is zero, and `finish` of the
/// three elsewhere.
pub open spec fn mapped_from_sums(
    product: Single,
    norm_x: Single,
    norm_y: Single,
    finish: spec_fn(Single, Single, Single) -> Single,
) -> Single {
    let x_is_zero = norm_x.magnitude() == 0;
    let y_is_zero = norm_y.magnitude() == 0;
    if x_is_zero && y_is_zero {
        Single::spec_zero()
    } else if x_is_zero || y_is_zero {
        Single { bits: LARGEST_BITS }
    } else {
        finish(product, norm_x, norm_y)
    }
}

/// Squared Euclidean between float query `x` and quantized uint8 `y`.
///
/// `codebook[y[i]]` gives the dequantized value for dimension `i`. `add_square(acc, a, b)` is to
/// be `acc + (a - b) * (a - b)`.
pub fn quantized_u8_sq_euclidean<F: Fn(Single, Single, Single) -> Single>(
    x: &[Single],
    y: &[u8],
    codebook: &[Single],
    add_square: &F,
) -> (r: Single)
    requires
        x@.len() == y@.len(),
        covers_u8(codebook@, y@),
        calls::maps3(*add_square),
    ensures
        r == paired(*add_square, x@, looked_up_u8(y@, codebook@)),
{
    let values = dequantize_u8(y, codebook);
    accumulate_pairs(x, values.as_slice(), add_square)
}

/// Alternative cosine between float query `x` and quantized uint8 `y`.
///
/// The similarity is mapped through `(s + 1) / 2` to keep it non-negative even where the vectors
/// point away from each other: `add_product(acc, a, b)` is to be `acc + a * b`, and
/// `finish(d, a, b)` to be `-log2((d / sqrt(a * b) + 1) / 2)`.
pub fn quantized_u8_alternative_cosine<
    F: Fn(Single, Single, Single) -> Single,
    G: Fn(Single, Single, Single) -> Single,
>(x: &[Single], y: &[u8], codebook: &[Single], add_product: &F, finish: &G) -> (r: Single)
    requires
        x@.len() == y@.len(),
        covers_u8(codebook@, y@),
        calls::maps3(*add_product),
        calls::maps3(*finish),
    ensures
        r == ({
            let values = looked_up_u8(y@, codebook@);
            mapped_from_sums(
                paired(*add_product, x@, values),
                paired(*add_product, x@, x@),
                paired(*add_product, values, values),
                |d: Single, a: Single, b: Single| calls::image3(*finish, d, a, b),
            )
        }),
{
    let values = dequantize_u8(y, codebook);
    let product: Single = accumulate_pairs(x, values.as_slice(), add_product);
    let norm_x: Single = accumulate_pairs(x, x, add_product);
    let norm_y: Single = accumulate_pairs(values.as_slice(), values.as_slice(), add_product);
    let x_is_zero = norm_x.abs().bits == 0;
    let y_is_zero = norm_y.abs().bits == 0;
    if x_is_zero && y_is_zero {
        Single::zero()
    } else if x_is_zero || y_is_zero {
        Single { bits: LARGEST_BITS }
    } else {
        finish(product, norm_x, norm_y)
    }
}

/// Alternative dot between float query `x` and quantized uint8 `y`.
///
/// `y` is assumed to be from a normalized dataset. `finish(dot, norm_y)` is to be
/// `-log2(dot / sqrt(norm_y))`.
pub fn quantized_u8_alternative_dot<
    F: Fn(Single, Single, Single) -> Single,
    G: Fn(Single, Single) -> Single,
>(x: &[Single], y: &[u8], codebook: &[Single], add_product: &F, finish: &G) -> (r: Single)
    requires
        x@.len() == y@.len(),
        covers_u8(codebook@, y@),
        calls::maps3(*add_product),
        calls::maps2(*finish),
    ensures
        r == ({
            let values = looked_up_u8(y@, codebook@);
            transformed(
                paired(*add_product, x@, values),
                |d: Single| calls::image2(*finish, d, paired(*add_product, values, values)),
            )
        }),
{
    let values = dequantize_u8(y, codebook);
    let product: Single = accumulate_pairs(x, values.as_slice(), add_product);
    let norm_y: Single = accumulate_pairs(values.as_slice(), values.as_slice(), add_product);
    if Single::zero().ge(product) {
        Single { bits: LARGEST_BITS }
    } else {
        finish(product, norm_y)
    }
}

/// Squared Euclidean between float query `x` and quantized uint4 `y`.
pub fn quantized_u4_sq_euclidean<F: Fn(Single, Single, Single) -> Single>(
    x: &[Single],
    y: &[u8],
    codebook: &[Single],
    add_square: &F,
) -> (r: Single)
    requires
        x@.len() <= 2 * y@.len(),
        covers_u4(codebook@, y@, x@.len() as int),
        calls::maps3(*add_square),
    ensures
        r == paired(*add_square, x@, looked_up_u4(y@, x@.len() as int, codebook@)),
{
    let values = dequantize_u4(y, x.len(), codebook);
    accumulate_pairs(x, values.as_slice(), add_square)
}

/// Alternative cosine between float query `x` and quantized uint4 `y`.
///
/// `add_product(acc, a, b)` is to be `acc + a * b`, and `finish(d, a, b)` to be
/// `-log2((d / sqrt(a * b) + 1) / 2)`.
pub fn quantized_u4_alternative_cosine<
    F: Fn(Single, Single, Single) -> Single,
    G: Fn(Single, Single, Single) -> Single,
>(x: &[Single], y: &[u8], codebook: &[Single], add_product: &F, finish: &G) -> (r: Single)
    requires
        x@.len() <= 2 * y@.len(),
        covers_u4(codebook@, y@, x@.len() as int),
        calls::maps3(*add_product),
        calls::maps3(*finish),
    ensures
        r == ({
            let values = looked_up_u4(y@, x@.len() as int, codebook@);
            cosine_from_sums(
                paired(*add_product, x@, values),
                paired(*add_product, x@, x@),
                paired(*add_product, values, values),
                |d: Single, a: Single, b: Single| calls::image3(*finish, d, a, b),
            )
        }),
{
    let values = dequantize_u4(y, x.len(), codebook);
    let product: Single = accumulate_pairs(x, values.as_slice(), add_product);
    let norm_x: Single = accumulate_pairs(x, x, add_product);
    let norm_y: Single = accumulate_pairs(values.as_slice(), values.as_slice(), add_product);
    alternative_cosine_from_sums(product, norm_x, norm_y, finish)
}

/// Alternative dot between float query `x` and quantized uint4 `y`.
pub fn quantized_u4_alternative_dot<
    F: Fn(Single, Single, Single) -> Single,
    G: Fn(Single, Single) -> Single,
>(x: &[Single], y: &[u8], codebook: &[Single], add_product: &F, finish: &G) -> (r: Single)
    requires
        x@.len() <= 2 * y@.len(),
        covers_u4(codebook@, y@, x@.len() as int),
        calls::maps3(*add_product),
        calls::maps2(*finish),
    ensures
        r == ({
            let values = looked_up_u4(y@, x@.len() as int, codebook@);
            transformed(
                paired(*add_product, x@, values),
                |d: Single| calls::image2(*finish, d, paired(*add_product, values, values)),
            )
        }),
{
    let values = dequantize_u4(y, x.len(), codebook);
    let product: Single = accumulate_pairs(x, values.as_slice(), add_product);
    let norm_y: Single = accumulate_pairs(values.as_slice(), values.as_slice(), add_product);
    if Single::zero().ge(product) {
        Single { bits: LARGEST_BITS }
    } else {
        finish(product, norm_y)
    }
}

} // verus!
