//! Rows of flattened matrices, and physical vertex orders.

use vstd::prelude::*;
use vstd::set_lib::{lemma_int_range, lemma_subset_equality, set_int_range};
use vstd::slice::slice_subrange;

verus! {

/// Row `i` of a flattened matrix with `dim` columns.
pub open spec fn row<T>(data: Seq<T>, dim: int, i: int) -> Seq<T> {
    data.subrange(i * dim, i * dim + dim)
}

/// Rows lie one after the other: entry `j` of row `i` is entry `i * dim + j` of all.
pub proof fn rows_lie_in_order<T>(data: Seq<T>, dim: int, i: int, j: int)
    requires
        0 <= i,
        0 <= j < dim,
        i * dim + dim <= data.len(),
    ensures
        row(data, dim, i).len() == dim,
        row(data, dim, i)[j] == data[i * dim + j],
{
    assert(0 <= i * dim) by (nonlinear_arith)
        requires
            0 <= i,
            0 < dim,
    ;
}

/// A matrix of `n` rows holds each of its rows.
pub proof fn row_fits(i: int, n: int, dim: int)
    requires
        0 <= i < n,
        0 <= dim,
    ensures
        0 <= i * dim,
        i * dim + dim <= n * dim,
        (i + 1) * dim == i * dim + dim,
{
    assert(0 <= i * dim && i * dim + dim <= n * dim && (i + 1) * dim == i * dim + dim)
        by (nonlinear_arith)
        requires
            0 <= i < n,
            0 <= dim,
    ;
}

/// A matrix whose rows are the first rows of another is the beginning of it.
pub proof fn first_rows_are_a_prefix<T>(a: Seq<T>, n: int, b: Seq<T>, m: int, dim: int)
    requires
        0 <= m <= n,
        0 <= dim,
        a.len() == n * dim,
        b.len() == m * dim,
        forall|i: int| 0 <= i < m ==> #[trigger] row(b, dim, i) == row(a, dim, i),
    ensures
        0 <= m * dim <= a.len(),
        b == a.take(m * dim),
{
    assert(0 <= m * dim <= n * dim) by (nonlinear_arith)
        requires
            0 <= m <= n,
            0 <= dim,
    ;
    assert forall|j: int| 0 <= j < b.len() implies b[j] == a[j] by {
        if dim > 0 {
            let i = j / dim;
            let k = j % dim;
            vstd::arithmetic::div_mod::lemma_fundamental_div_mod(j, dim);
            assert(j == i * dim + k && 0 <= i < m && 0 <= k < dim) by (nonlinear_arith)
                requires
                    j == dim * i + k,
                    0 <= j < m * dim,
                    0 <= k < dim,
            ;
            row_fits(i, m, dim);
            row_fits(i, n, dim);
            assert(row(b, dim, i)[k] == row(a, dim, i)[k]);
        } else {
            assert(m * dim == 0) by (nonlinear_arith)
                requires
                    dim == 0,
            ;
        }
    }
    assert(b =~= a.take(m * dim));
}

/// Row `i` of a flattened matrix of `n` rows and `dim` columns.
pub fn row_of<T>(data: &[T], n: usize, dim: usize, i: usize) -> (r: &[T])
    requires
        i < n,
        n * dim <= data@.len(),
    ensures
        r@ == row(data@, dim as int, i as int),
        r@.len() == dim,
{
    proof {
        row_fits(i as int, n as int, dim as int);
    }
    let length: usize = data.len();
    assert(i * dim <= length);
    let start: usize = i * dim;
    slice_subrange(data, start, start + dim)
}

/// `order` holds each of the numbers below `n` exactly once.
pub open spec fn is_permutation(order: Seq<usize>, n: int) -> bool {
    &&& order.len() == n
    &&& forall|i: int| 0 <= i < n ==> #[trigger] order[i] < n
    &&& forall|i: int, j: int| 0 <= i < j < n ==> #[trigger] order[i] != #[trigger] order[j]
}

/// `inverse[order[i]] == i` for each position, and the other way round.
pub open spec fn inverts(inverse: Seq<usize>, order: Seq<usize>) -> bool {
    &&& inverse.len() == order.len()
    &&& forall|i: int| 0 <= i < order.len() ==> 0 <= #[trigger] order[i] < order.len()
    &&& forall|i: int| 0 <= i < order.len() ==> 0 <= #[trigger] inverse[i] < order.len()
    &&& forall|i: int| 0 <= i < order.len() ==> inverse[#[trigger] order[i] as int] == i
    &&& forall|v: int| 0 <= v < order.len() ==> order[#[trigger] inverse[v] as int] == v
}

/// A permutation reaches every number.
pub proof fn permutation_is_onto(order: Seq<usize>, n: int, v: int)
    requires
        is_permutation(order, n),
        0 <= v < n,
    ensures
        exists|i: int| 0 <= i < n && #[trigger] order[i] == v,
{
    let wide = order.map_values(|x: usize| x as int);
    assert(wide.no_duplicates());
    wide.unique_seq_to_set();
    lemma_int_range(0, n);
    assert(wide.to_set().subset_of(set_int_range(0, n)));
    lemma_subset_equality(wide.to_set(), set_int_range(0, n));
    assert(wide.to_set().contains(v));
    let i = choose|i: int| 0 <= i < wide.len() && wide[i] == v;
    assert(order[i] == v);
}

/// What inverts a permutation is one, and the permutation inverts it.
pub proof fn inversion_is_mutual(inverse: Seq<usize>, order: Seq<usize>)
    requires
        inverts(inverse, order),
    ensures
        inverts(order, inverse),
        is_permutation(order, order.len() as int),
        is_permutation(inverse, order.len() as int),
{
    assert forall|i: int, j: int| 0 <= i < j < order.len() implies #[trigger] order[i]
        != #[trigger] order[j] by {
        assert(inverse[order[i] as int] == i);
        assert(inverse[order[j] as int] == j);
    }
    assert forall|i: int, j: int| 0 <= i < j < order.len() implies #[trigger] inverse[i]
        != #[trigger] inverse[j] by {
        assert(order[inverse[i] as int] == i);
        assert(order[inverse[j] as int] == j);
    }
}

/// The inverse of a permutation.
pub open spec fn inverse_of(order: Seq<usize>, n: int) -> Seq<usize> {
    Seq::new(
        n as nat,
        |v: int| (choose|i: int| 0 <= i < n && #[trigger] order[i] == v) as usize,
    )
}

/// A permutation has an inverse.
pub proof fn inverse_exists(order: Seq<usize>, n: int)
    requires
        is_permutation(order, n),
        n <= usize::MAX,
    ensures
        inverts(inverse_of(order, n), order),
{
    let inverse = inverse_of(order, n);
    assert forall|v: int| 0 <= v < n implies 0 <= #[trigger] inverse[v] < n
        && order[inverse[v] as int] == v by {
        permutation_is_onto(order, n, v);
        let i = choose|i: int| 0 <= i < n && #[trigger] order[i] == v;
        assert(order[i] == v);
    }
    assert forall|i: int| 0 <= i < n implies inverse[#[trigger] order[i] as int] == i by {
        let v = order[i] as int;
        let j = inverse[v] as int;
        assert(order[j] == v);
        if i < j {
            assert(order[i] != order[j]);
        } else if j < i {
            assert(order[j] != order[i]);
        }
    }
}

/// A permutation has one inverse only.
pub proof fn inverse_is_unique(a: Seq<usize>, b: Seq<usize>, order: Seq<usize>)
    requires
        inverts(a, order),
        inverts(b, order),
    ensures
        a == b,
{
    assert forall|v: int| 0 <= v < a.len() implies a[v] == b[v] by {
        let i = a[v] as int;
        assert(order[i] == v);
        assert(b[order[i] as int] == i);
    }
    assert(a =~= b);
}

/// Why an order is not usable as a physical layout.
#[derive(Clone, Copy, PartialEq, Eq, Structural, Debug)]
pub enum LayoutError {
    /// The order does not include every point.
    Incomplete,
    /// The order contains an out-of-range point.
    OutOfRange,
    /// The order contains a point twice.
    Duplicate,
}

/// `order[i]` occurs before `i` too.
pub open spec fn repeated(order: Seq<usize>, i: int) -> bool {
    exists|j: int| 0 <= j < i && #[trigger] order[j] == order[i]
}

/// The first thing that is wrong with `order` from position `i` on.
pub open spec fn fault_from(order: Seq<usize>, n: int, i: int) -> Option<LayoutError>
    decreases order.len() - i,
{
    if i >= order.len() {
        None
    } else if order[i] >= n {
        Some(LayoutError::OutOfRange)
    } else if repeated(order, i) {
        Some(LayoutError::Duplicate)
    } else {
        fault_from(order, n, i + 1)
    }
}

/// The first thing that is wrong with `order` as an order of `n` points.
pub open spec fn fault(order: Seq<usize>, n: int) -> Option<LayoutError> {
    if order.len() != n {
        Some(LayoutError::Incomplete)
    } else {
        fault_from(order, n, 0)
    }
}

/// An order without a fault is a permutation, and only such an order.
pub proof fn faultless_is_permutation(order: Seq<usize>, n: int)
    requires
        n >= 0,
    ensures
        fault(order, n) is None <==> is_permutation(order, n),
{
    if order.len() == n {
        faultless_from(order, n, 0);
        if is_permutation(order, n) {
            assert(fault_from(order, n, 0) is None);
        }
        if fault(order, n) is None {
            assert forall|i: int, j: int| 0 <= i < j < n implies #[trigger] order[i]
                != #[trigger] order[j] by {
                assert(!repeated(order, j));
            }
        }
    }
}

/// What is reported is wrong with the first point that is out of range or listed before; and an
/// order of another length is incomplete, whatever it lists.
pub proof fn the_first_fault_is_reported(order: Seq<usize>, n: int, i: int)
    ensures
        order.len() != n ==> fault(order, n) == Some(LayoutError::Incomplete),
        order.len() == n && 0 <= i < n && (forall|j: int| 0 <= j < i ==> #[trigger] order[j] < n)
            && order.take(i).no_duplicates() ==> {
            &&& order[i] >= n ==> fault(order, n) == Some(LayoutError::OutOfRange)
            &&& order[i] < n && order.take(i).contains(order[i]) ==> fault(order, n) == Some(
                LayoutError::Duplicate,
            )
        },
{
    if order.len() == n && 0 <= i < n && (forall|j: int|
        0 <= j < i ==> #[trigger] order[j] < n) && order.take(i).no_duplicates() {
        if order[i] >= n || order.take(i).contains(order[i]) {
            let s = order.take(i);
            if order[i] < n {
                let j = choose|j: int| 0 <= j < s.len() && s[j] == order[i];
                assert(order[j] == order[i]);
                assert(repeated(order, i));
            }
            assert forall|j: int| 0 <= j < i implies !#[trigger] repeated(order, j) by {
                assert forall|l: int| 0 <= l < j implies #[trigger] order[l] != order[j] by {
                    assert(s[l] != s[j]);
                }
            }
            faults_start(order, n, 0, i);
        }
    }
}

proof fn faults_start(order: Seq<usize>, n: int, from: int, i: int)
    requires
        0 <= from <= i < order.len(),
        forall|j: int| 0 <= j < i ==> #[trigger] order[j] < n,
        forall|j: int| 0 <= j < i ==> !#[trigger] repeated(order, j),
        order[i] >= n || repeated(order, i),
    ensures
        fault_from(order, n, from) == Some(
            if order[i] >= n {
                LayoutError::OutOfRange
            } else {
                LayoutError::Duplicate
            },
        ),
    decreases i - from,
{
    if from < i {
        assert(order[from] < n && !repeated(order, from));
        faults_start(order, n, from + 1, i);
    }
}

proof fn faultless_from(order: Seq<usize>, n: int, i: int)
    requires
        order.len() == n,
        0 <= i <= n,
    ensures
        fault_from(order, n, i) is None <==> forall|j: int|
            i <= j < n ==> #[trigger] order[j] < n && !repeated(order, j),
    decreases n - i,
{
    if i < n {
        faultless_from(order, n, i + 1);
        if fault_from(order, n, i) is None {
            assert forall|j: int| i <= j < n implies #[trigger] order[j] < n && !repeated(
                order,
                j,
            ) by {
                if j > i {
                    assert(fault_from(order, n, i + 1) is None);
                }
            }
        } else if fault_from(order, n, i + 1) is None {
            assert(order[i] >= n || repeated(order, i));
        }
    }
}

/// Check that `order` lists each of `n` points once, and return its inverse: at a point, the
/// position of that point.
pub fn invert(order: &[usize], n: usize) -> (r: Result<Vec<usize>, LayoutError>)
    ensures
        r is Ok <==> is_permutation(order@, n as int),
        r matches Ok(inverse) ==> inverts(inverse@, order@),
        r matches Err(e) ==> fault(order@, n as int) == Some(e),
{
    proof {
        faultless_is_permutation(order@, n as int);
    }
    if order.len() != n {
        return Err(LayoutError::Incomplete);
    }
    let mut inverse: Vec<usize> = vec![usize::MAX; n];
    let mut i: usize = 0;
    while i < n
        invariant
            i <= n,
            n == order@.len(),
            inverse@.len() == n,
            fault(order@, n as int) == fault_from(order@, n as int, i as int),
            fault(order@, n as int) is None <==> is_permutation(order@, n as int),
            forall|j: int| 0 <= j < i ==> #[trigger] order@[j] < n,
            forall|j: int| 0 <= j < i ==> inverse@[#[trigger] order@[j] as int] == j,
            forall|v: int|
                0 <= v < n && #[trigger] inverse@[v] != usize::MAX ==> inverse@[v] < i && order@[(
                inverse@[v]) as int] == v,
        decreases n - i,
    {
        let old_idx: usize = order[i];
        if old_idx >= n {
            return Err(LayoutError::OutOfRange);
        }
        if inverse[old_idx] != usize::MAX {
            proof {
                let j = inverse@[old_idx as int] as int;
                assert(order@[j] == order@[i as int]);
                assert(repeated(order@, i as int));
            }
            return Err(LayoutError::Duplicate);
        }
        assert(!repeated(order@, i as int)) by {
            if repeated(order@, i as int) {
                let j = choose|j: int| 0 <= j < i && #[trigger] order@[j] == order@[i as int];
                assert(inverse@[order@[j] as int] == j);
            }
        }
        inverse.set(old_idx, i);
        i = i + 1;
    }
    proof {
        assert(is_permutation(order@, n as int));
        assert forall|v: int| 0 <= v < n implies 0 <= #[trigger] inverse@[v] < n && order@[(
        inverse@[v]) as int] == v by {
            permutation_is_onto(order@, n as int, v);
            let j = choose|j: int| 0 <= j < n && #[trigger] order@[j] == v;
            assert(inverse@[order@[j] as int] == j);
        }
    }
    Ok(inverse)
}

/// `moved` holds the rows of `data` in the given order.
pub open spec fn rows_moved<T>(moved: Seq<T>, data: Seq<T>, dim: int, order: Seq<usize>) -> bool {
    &&& moved.len() == order.len() * dim
    &&& forall|i: int|
        0 <= i < order.len() ==> #[trigger] row(moved, dim, i) == row(data, dim, order[i] as int)
}

/// The rows of a matrix of `n` rows in the given order.
pub fn reorder_rows<T: Copy>(data: &[T], n: usize, dim: usize, order: &[usize]) -> (r: Vec<T>)
    requires
        n * dim <= data@.len(),
        forall|i: int| 0 <= i < order@.len() ==> #[trigger] order@[i] < n,
        order@.len() * dim <= usize::MAX,
    ensures
        rows_moved(r@, data@, dim as int, order@),
{
    let mut r: Vec<T> = Vec::with_capacity(data.len());
    let mut i: usize = 0;
    while i < order.len()
        invariant
            i <= order@.len(),
            r@.len() == i * dim,
            order@.len() * dim <= usize::MAX,
            n * dim <= data@.len(),
            forall|i: int| 0 <= i < order@.len() ==> #[trigger] order@[i] < n,
            forall|j: int|
                0 <= j < i ==> #[trigger] row(r@, dim as int, j) == row(
                    data@,
                    dim as int,
                    order@[j] as int,
                ),
        decreases order@.len() - i,
    {
        let at: usize = order[i];
        let ghost before = r@;
        let source = row_of(data, n, dim, at);
        let mut j: usize = 0;
        while j < dim
            invariant
                j <= dim,
                source@.len() == dim,
                r@ == before + source@.take(j as int),
            decreases dim - j,
        {
            r.push(source[j]);
            j = j + 1;
            assert(r@ =~= before + source@.take(j as int));
        }
        proof {
            assert(source@.take(dim as int) =~= source@);
            row_fits(i as int, order@.len() as int, dim as int);
            assert forall|j: int| 0 <= j < i + 1 implies #[trigger] row(r@, dim as int, j) == row(
                data@,
                dim as int,
                order@[j] as int,
            ) by {
                if j < i {
                    row_fits(j, i as int, dim as int);
                    assert(row(r@, dim as int, j) =~= row(before, dim as int, j));
                } else {
                    assert(row(r@, dim as int, j) =~= source@);
                }
            }
        }
        i = i + 1;
    }
    r
}

} // verus!
