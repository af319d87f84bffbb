//! L2 normalization of rows.

use crate::calls;
use crate::single::Single;
use vstd::prelude::*;

verus! {

/// Bit pattern of `1e-12`; a row whose squared norm is no larger stays as it is.
pub const SMALLEST_NORM_BITS: u32 = 0x2b8c_bccc;

/// What `add_square` accumulates over a row, from zero.
pub open spec fn squared_norm<F: Fn(Single, Single) -> Single>(
    add_square: F,
    row: Seq<Single>,
) -> Single
    decreases row.len(),
{
    if row.len() == 0 {
        Single::spec_zero()
    } else {
        calls::image2(add_square, squared_norm(add_square, row.drop_last()), row.last())
    }
}

/// The row that starts at `start`; the last row may be shorter than `dim`.
pub open spec fn row_from(data: Seq<Single>, start: int, dim: int) -> Seq<Single> {
    data.subrange(
        start,
        if start + dim <= data.len() {
            start + dim
        } else {
            data.len() as int
        },
    )
}

/// A row, normalized unless its norm is too small.
pub open spec fn normalized<
    F: Fn(Single, Single) -> Single,
    G: Fn(Single) -> Single,
    H: Fn(Single, Single) -> Single,
>(row: Seq<Single>, add_square: F, inverse_root: G, scale: H) -> Seq<Single> {
    let norm_sq = squared_norm(add_square, row);
    if (Single { bits: SMALLEST_NORM_BITS }).at_least(norm_sq) {
        row
    } else {
        row.map_values(|x: Single| calls::image2(scale, x, calls::image1(inverse_root, norm_sq)))
    }
}

/// What is accumulated takes every number of a row, each once, from the first to the last.
pub proof fn norms_take_every_dimension<F: Fn(Single, Single) -> Single>(
    add_square: F,
    row: Seq<Single>,
)
    ensures
        squared_norm(add_square, row) == row.fold_left(
            Single::spec_zero(),
            |acc: Single, x: Single| calls::image2(add_square, acc, x),
        ),
    decreases row.len(),
{
    if row.len() > 0 {
        norms_take_every_dimension(add_square, row.drop_last());
    }
}

/// Normalizing scales every number of a row by one and the same factor, that of the whole row's
/// norm, and leaves a row alone whose squared norm is no larger than `1e-12`.
pub proof fn normalizing_scales_whole_rows<
    F: Fn(Single, Single) -> Single,
    G: Fn(Single) -> Single,
    H: Fn(Single, Single) -> Single,
>(row: Seq<Single>, add_square: F, inverse_root: G, scale: H)
    ensures
        ({
            let norm_sq = row.fold_left(
                Single::spec_zero(),
                |acc: Single, x: Single| calls::image2(add_square, acc, x),
            );
            let factor = calls::image1(inverse_root, norm_sq);
            let r = normalized(row, add_square, inverse_root, scale);
            &&& r.len() == row.len()
            &&& norm_sq.nan() || (Single { bits: 0x2b8c_bccc }).below(norm_sq) ==> forall|i: int|
                0 <= i < row.len() ==> #[trigger] r[i] == calls::image2(scale, row[i], factor)
            &&& (Single { bits: 0x2b8c_bccc }).at_least(norm_sq) ==> r == row
        }),
{
    norms_take_every_dimension(add_square, row);
}

/// Normalize each row of `data` in place, `dim` numbers each; the last row may be shorter.
///
/// `add_square(acc, x)` is to be `acc + x * x`, `inverse_root(n)` one over the square root of `n`,
/// and `scale(x, s)` to be `x * s`.
pub fn normalize_rows_inplace<
    F: Fn(Single, Single) -> Single,
    G: Fn(Single) -> Single,
    H: Fn(Single, Single) -> Single,
>(data: &mut [Single], dim: usize, add_square: &F, inverse_root: &G, scale: &H)
    requires
        calls::maps2(*add_square),
        calls::maps1(*inverse_root),
        calls::maps2(*scale),
    ensures
        final(data)@.len() == old(data)@.len(),
        dim == 0 ==> final(data)@ == old(data)@,
        dim > 0 ==> forall|c: int|
            0 <= c && c * dim < old(data)@.len() ==> #[trigger] row_from(
                final(data)@,
                c * dim,
                dim as int,
            ) == normalized(
                row_from(old(data)@, c * dim, dim as int),
                *add_square,
                *inverse_root,
                *scale,
            ),
{
    if dim == 0 {
        return ;
    }
    let ghost before = data@;
    let n: usize = data.len();
    let mut start: usize = 0;
    let ghost mut done: int = 0;
    while start < n
        invariant
            dim > 0,
            calls::maps2(*add_square),
            calls::maps1(*inverse_root),
            calls::maps2(*scale),
            n == before.len(),
            data@.len() == n,
            start <= n,
            done >= 0,
            start == done * dim || (start == n && n <= done * dim),
            forall|i: int| start <= i < n ==> #[trigger] data@[i] == before[i],
            forall|c: int|
                0 <= c < done && c * dim < n ==> #[trigger] row_from(data@, c * dim, dim as int)
                    == normalized(
                    row_from(before, c * dim, dim as int),
                    *add_square,
                    *inverse_root,
                    *scale,
                ),
        decreases n - start,
    {
        let ghost here = data@;
        let end: usize = if n - start < dim {
            n
        } else {
            start + dim
        };
        let ghost row = row_from(before, start as int, dim as int);
        let mut norm_sq: Single = Single::zero();
        let mut i: usize = start;
        while i < end
            invariant
                calls::maps2(*add_square),
                start <= i <= end,
                end <= n,
                n == data@.len(),
                n == before.len(),
                data@ == here,
                row == before.subrange(start as int, end as int),
                forall|i: int| start <= i < n ==> #[trigger] data@[i] == before[i],
                norm_sq == squared_norm(*add_square, row.take(i - start)),
            decreases end - i,
        {
            proof {
                assert(row.take(i + 1 - start).drop_last() =~= row.take(i - start));
                assert(data@[i as int] == before[i as int]);
            }
            norm_sq = add_square(norm_sq, data[i]);
            i = i + 1;
        }
        assert(row.take(end - start) =~= row);
        if !(Single { bits: SMALLEST_NORM_BITS }).ge(norm_sq) {
            let inv_norm: Single = inverse_root(norm_sq);
            let mut i: usize = start;
            while i < end
                invariant
                    calls::maps2(*scale),
                    start <= i <= end,
                    end <= n,
                    n == data@.len(),
                    n == before.len(),
                    n == here.len(),
                    row == before.subrange(start as int, end as int),
                    forall|j: int| i <= j < n ==> #[trigger] data@[j] == before[j],
                    forall|j: int| 0 <= j < start ==> #[trigger] data@[j] == here[j],
                    forall|j: int|
                        start <= j < i ==> #[trigger] data@[j] == calls::image2(
                            *scale,
                            before[j],
                            inv_norm,
                        ),
                decreases end - i,
            {
                assert(data@[i as int] == before[i as int]);
                let x: Single = scale(data[i], inv_norm);
                data[i] = x;
                i = i + 1;
            }
        }
        proof {
            assert(row_from(data@, start as int, dim as int) =~= normalized(
                row,
                *add_square,
                *inverse_root,
                *scale,
            ));
            assert((done + 1) * dim == done * dim + dim) by (nonlinear_arith);
            assert forall|c: int| 0 <= c < done + 1 && c * dim < n implies #[trigger] row_from(
                data@,
                c * dim,
                dim as int,
            ) == normalized(
                row_from(before, c * dim, dim as int),
                *add_square,
                *inverse_root,
                *scale,
            ) by {
                if c < done {
                    assert(c * dim + dim <= done * dim) by (nonlinear_arith)
                        requires
                            c < done,
                    ;
                    assert(row_from(data@, c * dim, dim as int) =~= row_from(
                        here,
                        c * dim,
                        dim as int,
                    ));
                }
            }
            done = done + 1;
        }
        start = end;
    }
    proof {
        assert forall|c: int| 0 <= c && c * dim < n implies #[trigger] row_from(
            data@,
            c * dim,
            dim as int,
        ) == normalized(
            row_from(before, c * dim, dim as int),
            *add_square,
            *inverse_root,
            *scale,
        ) by {
            assert(c < done) by (nonlinear_arith)
                requires
                    c * dim < n,
                    n <= done * dim,
                    dim > 0,
            ;
        }
    }
}

} // verus!
