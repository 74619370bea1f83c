//! Dense integer matrices: elementwise sum and difference and the matrix
//! product, each single-pass or band by band over the output rows.

use vstd::prelude::*;
use crate::partition::{partition, is_partition, is_band, band_start, lemma_band_bounds};
use crate::random::draw_in_range;

verus! {

/// Why two matrices cannot be combined.
#[derive(Clone, Copy, Debug, PartialEq, Eq, Structural)]
pub enum MatrixError {
    /// The shapes do not fit the operation.
    DimensionMismatch,
}

/// The entries of `m`, row by row, as mathematical integers.
pub open spec fn mat_view(m: &Vec<Vec<i32>>) -> Seq<Seq<int>> {
    Seq::new(m@.len(), |i: int| Seq::new(m@[i]@.len(), |j: int| m@[i]@[j] as int))
}

/// Column count: the length of the first row, or 0 when there is none.
pub open spec fn cols(m: Seq<Seq<int>>) -> int {
    if m.len() > 0 {
        m[0].len() as int
    } else {
        0
    }
}

/// Every row of `m` has the same length.
pub open spec fn is_rect(m: Seq<Seq<int>>) -> bool {
    forall|i: int| 0 <= i < m.len() ==> (#[trigger] m[i]).len() == cols(m)
}

/// The three operations on a pair of matrices.
#[derive(Clone, Copy, Debug, PartialEq, Eq, Structural)]
pub enum MatrixOp {
    Add,
    Sub,
    Mul,
}

/// `a` and `b` have the same number of rows and of columns.
pub open spec fn same_shape(a: Seq<Seq<int>>, b: Seq<Seq<int>>) -> bool {
    a.len() == b.len() && cols(a) == cols(b)
}

/// The product `a * b` is defined: `a` has no rows (the product is then
/// empty), or as many columns as `b` has rows.
pub open spec fn mul_compatible(a: Seq<Seq<int>>, b: Seq<Seq<int>>) -> bool {
    a.len() == 0 || cols(a) == b.len()
}

/// The elementwise sum, or with `subtract` the elementwise difference.
pub open spec fn mat_elementwise(a: Seq<Seq<int>>, b: Seq<Seq<int>>, subtract: bool) -> Seq<Seq<int>> {
    Seq::new(
        a.len(),
        |i: int|
            Seq::new(
                cols(a) as nat,
                |j: int|
                    if subtract {
                        a[i][j] - b[i][j]
                    } else {
                        a[i][j] + b[i][j]
                    },
            ),
    )
}

/// `a + b`, entry by entry.
pub open spec fn mat_add(a: Seq<Seq<int>>, b: Seq<Seq<int>>) -> Seq<Seq<int>> {
    mat_elementwise(a, b, false)
}

/// `a - b`, entry by entry.
pub open spec fn mat_sub(a: Seq<Seq<int>>, b: Seq<Seq<int>>) -> Seq<Seq<int>> {
    mat_elementwise(a, b, true)
}

/// `sum(k < n) a[i][k] * b[k][j]`.
pub open spec fn dot(a: Seq<Seq<int>>, b: Seq<Seq<int>>, i: int, j: int, n: int) -> int
    decreases n,
{
    if n <= 0 {
        0
    } else {
        dot(a, b, i, j, n - 1) + a[i][n - 1] * b[n - 1][j]
    }
}

/// The matrix product `a * b`.
pub open spec fn mat_mul(a: Seq<Seq<int>>, b: Seq<Seq<int>>) -> Seq<Seq<int>> {
    Seq::new(a.len(), |i: int| Seq::new(cols(b) as nat, |j: int| dot(a, b, i, j, cols(a))))
}

pub open spec fn fits_i32(x: int) -> bool {
    i32::MIN <= x <= i32::MAX
}

/// Every entry of `m` fits in an `i32`.
pub open spec fn entries_fit(m: Seq<Seq<int>>) -> bool {
    forall|i: int, j: int| 0 <= i < m.len() && 0 <= j < m[i].len() ==> fits_i32(#[trigger] m[i][j])
}

/// Every partial sum of every entry of `a * b` fits in an `i32`.
pub open spec fn mul_fits(a: Seq<Seq<int>>, b: Seq<Seq<int>>) -> bool {
    forall|i: int, j: int, n: int|
        0 <= i < a.len() && 0 <= j < cols(b) && 0 <= n <= cols(a) ==> fits_i32(#[trigger] dot(a, b, i, j, n))
}

proof fn lemma_push_row(rows: &Vec<Vec<i32>>, before: Seq<Seq<int>>, row: Seq<int>)
    requires
        rows@.len() == before.len() + 1,
        forall|k: int| 0 <= k < before.len() ==> #[trigger] mat_view(rows)[k] == before[k],
        mat_view(rows)[before.len() as int] == row,
    ensures
        mat_view(rows) == before.push(row),
{
    assert(mat_view(rows) =~= before.push(row));
}

/// Rows `start .. end` of the elementwise sum of `m1` and `m2`, or with
/// `subtract` of their difference.
fn elementwise_rows(m1: &Vec<Vec<i32>>, m2: &Vec<Vec<i32>>, start: usize, end: usize, subtract: bool) -> (r: Vec<Vec<i32>>)
    requires
        is_rect(mat_view(m1)),
        is_rect(mat_view(m2)),
        same_shape(mat_view(m1), mat_view(m2)),
        start <= end <= m1@.len(),
        entries_fit(mat_elementwise(mat_view(m1), mat_view(m2), subtract)),
    ensures
        mat_view(&r) == mat_elementwise(mat_view(m1), mat_view(m2), subtract).subrange(start as int, end as int),
{
    let ghost a = mat_view(m1);
    let ghost b = mat_view(m2);
    let ghost c = mat_elementwise(a, b, subtract);
    let width: usize = if m1.len() > 0 { m1[0].len() } else { 0 };
    let mut result: Vec<Vec<i32>> = Vec::new();
    let mut i: usize = start;
    while i < end
        invariant
            start <= i <= end <= m1@.len(),
            a == mat_view(m1),
            b == mat_view(m2),
            c == mat_elementwise(a, b, subtract),
            is_rect(a),
            is_rect(b),
            same_shape(a, b),
            width == cols(a),
            entries_fit(c),
            mat_view(&result) == c.subrange(start as int, i as int),
        decreases end - i,
    {
        assert(a[i as int].len() == width && b[i as int].len() == width);
        let mut row: Vec<i32> = Vec::new();
        let mut j: usize = 0;
        while j < width
            invariant
                start <= i < end <= m1@.len(),
                a == mat_view(m1),
                b == mat_view(m2),
                c == mat_elementwise(a, b, subtract),
                same_shape(a, b),
                a[i as int].len() == width,
                b[i as int].len() == width,
                width == cols(a),
                entries_fit(c),
                j <= width,
                row@.len() == j,
                forall|t: int| 0 <= t < j ==> #[trigger] row@[t] as int == c[i as int][t],
            decreases width - j,
        {
            assert(fits_i32(c[i as int][j as int]));
            let x = m1[i][j];
            let y = m2[i][j];
            let v = if subtract { x - y } else { x + y };
            row.push(v);
            j = j + 1;
        }
        let ghost before = mat_view(&result);
        result.push(row);
        proof {
            assert(mat_view(&result)[before.len() as int] =~= c[i as int]);
            lemma_push_row(&result, before, c[i as int]);
        }
        i = i + 1;
        assert(mat_view(&result) =~= c.subrange(start as int, i as int));
    }
    result
}

proof fn lemma_i32_product_fits_i64(x: i32, y: i32)
    ensures
        i64::MIN <= (x as int) * (y as int) <= i64::MAX,
{
    let ax: int = if x < 0 { -(x as int) } else { x as int };
    let ay: int = if y < 0 { -(y as int) } else { y as int };
    assert(ax * ay <= 0x8000_0000 * 0x8000_0000) by (nonlinear_arith)
        requires
            0 <= ax <= 0x8000_0000,
            0 <= ay <= 0x8000_0000,
    ;
    assert((x as int) * (y as int) == ax * ay || (x as int) * (y as int) == -(ax * ay)) by (nonlinear_arith)
        requires
            ax == x || ax == -x,
            ay == y || ay == -y,
    ;
}

/// Rows `start .. end` of the product of `m1` and `m2`.
fn mul_rows(m1: &Vec<Vec<i32>>, m2: &Vec<Vec<i32>>, start: usize, end: usize) -> (r: Vec<Vec<i32>>)
    requires
        is_rect(mat_view(m1)),
        is_rect(mat_view(m2)),
        mul_compatible(mat_view(m1), mat_view(m2)),
        start <= end <= m1@.len(),
        mul_fits(mat_view(m1), mat_view(m2)),
    ensures
        mat_view(&r) == mat_mul(mat_view(m1), mat_view(m2)).subrange(start as int, end as int),
{
    let ghost a = mat_view(m1);
    let ghost b = mat_view(m2);
    let ghost c = mat_mul(a, b);
    let inner: usize = if m1.len() > 0 { m1[0].len() } else { 0 };
    let width: usize = if m2.len() > 0 { m2[0].len() } else { 0 };
    let mut result: Vec<Vec<i32>> = Vec::new();
    let mut i: usize = start;
    while i < end
        invariant
            start <= i <= end <= m1@.len(),
            a == mat_view(m1),
            b == mat_view(m2),
            c == mat_mul(a, b),
            is_rect(a),
            is_rect(b),
            mul_compatible(a, b),
            inner == cols(a),
            width == cols(b),
            mul_fits(a, b),
            mat_view(&result) == c.subrange(start as int, i as int),
        decreases end - i,
    {
        assert(a[i as int].len() == inner);
        let mut row: Vec<i32> = Vec::new();
        let mut j: usize = 0;
        while j < width
            invariant
                start <= i < end <= m1@.len(),
                a == mat_view(m1),
                b == mat_view(m2),
                c == mat_mul(a, b),
                is_rect(b),
                mul_compatible(a, b),
                a[i as int].len() == inner,
                inner == cols(a),
                width == cols(b),
                mul_fits(a, b),
                j <= width,
                row@.len() == j,
                forall|t: int| 0 <= t < j ==> #[trigger] row@[t] as int == c[i as int][t],
            decreases width - j,
        {
            let mut sum: i32 = 0;
            let mut k: usize = 0;
            while k < inner
                invariant
                    start <= i < end <= m1@.len(),
                    a == mat_view(m1),
                    b == mat_view(m2),
                    is_rect(b),
                    mul_compatible(a, b),
                    a[i as int].len() == inner,
                    inner == cols(a),
                    width == cols(b),
                    j < width,
                    mul_fits(a, b),
                    k <= inner,
                    sum as int == dot(a, b, i as int, j as int, k as int),
                decreases inner - k,
            {
                assert(b[k as int].len() == width);
                let x = m1[i][k];
                let y = m2[k][j];
                proof {
                    lemma_i32_product_fits_i64(x, y);
                }
                let p: i64 = (x as i64) * (y as i64);
                assert(fits_i32(dot(a, b, i as int, j as int, k + 1)));
                let s: i64 = sum as i64 + p;
                sum = s as i32;
                k = k + 1;
            }
            row.push(sum);
            j = j + 1;
        }
        let ghost before = mat_view(&result);
        result.push(row);
        proof {
            assert(mat_view(&result)[before.len() as int] =~= c[i as int]);
            lemma_push_row(&result, before, c[i as int]);
        }
        i = i + 1;
        assert(mat_view(&result) =~= c.subrange(start as int, i as int));
    }
    result
}

/// The operands' shapes fit `op`.
pub open spec fn shapes_fit(a: Seq<Seq<int>>, b: Seq<Seq<int>>, op: MatrixOp) -> bool {
    match op {
        MatrixOp::Mul => mul_compatible(a, b),
        _ => same_shape(a, b),
    }
}

/// The result of `op` on `a` and `b`.
pub open spec fn combined(a: Seq<Seq<int>>, b: Seq<Seq<int>>, op: MatrixOp) -> Seq<Seq<int>> {
    match op {
        MatrixOp::Add => mat_add(a, b),
        MatrixOp::Sub => mat_sub(a, b),
        MatrixOp::Mul => mat_mul(a, b),
    }
}

/// Where the shapes fit, `op` on `a` and `b` stays within `i32`, partial
/// sums of the product included.
pub open spec fn op_fits(a: Seq<Seq<int>>, b: Seq<Seq<int>>, op: MatrixOp) -> bool {
    shapes_fit(a, b, op) ==> match op {
        MatrixOp::Mul => mul_fits(a, b),
        _ => entries_fit(combined(a, b, op)),
    }
}

/// Both operands are rectangular and `op` on them stays within `i32`.
pub open spec fn operands_ok(m1: &Vec<Vec<i32>>, m2: &Vec<Vec<i32>>, op: MatrixOp) -> bool {
    &&& is_rect(mat_view(m1))
    &&& is_rect(mat_view(m2))
    &&& op_fits(mat_view(m1), mat_view(m2), op)
}

/// What a matrix operation returns: the result where the shapes fit, and
/// otherwise a dimension mismatch.
pub open spec fn op_result(m1: &Vec<Vec<i32>>, m2: &Vec<Vec<i32>>, op: MatrixOp, r: Result<Vec<Vec<i32>>, MatrixError>) -> bool {
    match r {
        Ok(c) => shapes_fit(mat_view(m1), mat_view(m2), op) && mat_view(&c) == combined(mat_view(m1), mat_view(m2), op),
        Err(e) => !shapes_fit(mat_view(m1), mat_view(m2), op) && e == MatrixError::DimensionMismatch,
    }
}

/// Number of columns of `m`: the length of its first row, or 0.
pub fn col_count(m: &Vec<Vec<i32>>) -> (r: usize)
    ensures
        r == cols(mat_view(m)),
{
    if m.len() > 0 {
        m[0].len()
    } else {
        0
    }
}

/// Whether the shapes of `m1` and `m2` fit `op`.
pub fn check_shapes(m1: &Vec<Vec<i32>>, m2: &Vec<Vec<i32>>, op: MatrixOp) -> (r: bool)
    ensures
        r == shapes_fit(mat_view(m1), mat_view(m2), op),
{
    match op {
        MatrixOp::Mul => m1.len() == 0 || col_count(m1) == m2.len(),
        _ => m1.len() == m2.len() && col_count(m1) == col_count(m2),
    }
}

/// Rows `start .. end` of `op` on `m1` and `m2`: the work of one band, which
/// reads whole rows of the operands and no neighbouring ones.
pub fn combine_rows(m1: &Vec<Vec<i32>>, m2: &Vec<Vec<i32>>, op: MatrixOp, start: usize, end: usize) -> (r: Vec<Vec<i32>>)
    requires
        operands_ok(m1, m2, op),
        shapes_fit(mat_view(m1), mat_view(m2), op),
        start <= end <= m1@.len(),
    ensures
        mat_view(&r) == combined(mat_view(m1), mat_view(m2), op).subrange(start as int, end as int),
{
    match op {
        MatrixOp::Add => elementwise_rows(m1, m2, start, end, false),
        MatrixOp::Sub => elementwise_rows(m1, m2, start, end, true),
        MatrixOp::Mul => mul_rows(m1, m2, start, end),
    }
}

/// `op` on `m1` and `m2`, in one pass over the output rows.
fn combine_sequential(m1: &Vec<Vec<i32>>, m2: &Vec<Vec<i32>>, op: MatrixOp) -> (r: Result<Vec<Vec<i32>>, MatrixError>)
    requires
        operands_ok(m1, m2, op),
    ensures
        op_result(m1, m2, op, r),
{
    if !check_shapes(m1, m2, op) {
        return Err(MatrixError::DimensionMismatch);
    }
    let c = combine_rows(m1, m2, op, 0, m1.len());
    assert(combined(mat_view(m1), mat_view(m2), op).subrange(0, m1@.len() as int) =~= combined(mat_view(m1), mat_view(m2), op));
    Ok(c)
}

/// `op` on `m1` and `m2`, with the output rows split into `workers` bands
/// that are computed one by one and joined in order.
fn combine_banded(m1: &Vec<Vec<i32>>, m2: &Vec<Vec<i32>>, op: MatrixOp, workers: usize) -> (r: Result<Vec<Vec<i32>>, MatrixError>)
    requires
        operands_ok(m1, m2, op),
        workers >= 1,
    ensures
        op_result(m1, m2, op, r),
{
    if !check_shapes(m1, m2, op) {
        return Err(MatrixError::DimensionMismatch);
    }
    let ghost c = combined(mat_view(m1), mat_view(m2), op);
    let ghost h = m1@.len() as int;
    let ghost w = workers as int;
    let rows = m1.len();
    let ranges = partition(rows, workers);
    let mut result: Vec<Vec<i32>> = Vec::new();
    let mut k: usize = 0;
    while k < workers
        invariant
            1 <= workers,
            k <= workers,
            h == rows,
            rows == m1@.len(),
            w == workers,
            operands_ok(m1, m2, op),
            shapes_fit(mat_view(m1), mat_view(m2), op),
            c == combined(mat_view(m1), mat_view(m2), op),
            c.len() == h,
            is_partition(ranges@, h, w),
            mat_view(&result) == c.subrange(0, if k < workers { band_start(h, w, k as int) } else { h }),
        decreases workers - k,
    {
        let range = ranges[k];
        proof {
            lemma_band_bounds(h, w, k as int);
            assert(is_band(ranges@[k as int], h, w, k as int));
        }
        let mut part = combine_rows(m1, m2, op, range.start, range.end);
        let ghost before = mat_view(&result);
        let ghost added = mat_view(&part);
        result.append(&mut part);
        assert(mat_view(&result) =~= before + added);
        k = k + 1;
        assert(mat_view(&result) =~= c.subrange(0, if k < workers { band_start(h, w, k as int) } else { h }));
    }
    assert(c.subrange(0, h) =~= c);
    Ok(result)
}

/// The entrywise sum `m1 + m2`, or `DimensionMismatch` when the shapes differ.
pub fn sum_matrix_sequential(m1: &Vec<Vec<i32>>, m2: &Vec<Vec<i32>>) -> (r: Result<Vec<Vec<i32>>, MatrixError>)
    requires
        operands_ok(m1, m2, MatrixOp::Add),
    ensures
        op_result(m1, m2, MatrixOp::Add, r),
{
    combine_sequential(m1, m2, MatrixOp::Add)
}

/// The entrywise sum `m1 + m2` computed in `thr` row bands, or
/// `DimensionMismatch` when the shapes differ.
pub fn sum_matrix_threads(m1: &Vec<Vec<i32>>, m2: &Vec<Vec<i32>>, thr: usize) -> (r: Result<Vec<Vec<i32>>, MatrixError>)
    requires
        operands_ok(m1, m2, MatrixOp::Add),
        thr >= 1,
    ensures
        op_result(m1, m2, MatrixOp::Add, r),
{
    combine_banded(m1, m2, MatrixOp::Add, thr)
}

/// The entrywise difference `m1 - m2`, or `DimensionMismatch` when the shapes
/// differ.
pub fn sub_matrix_sequential(m1: &Vec<Vec<i32>>, m2: &Vec<Vec<i32>>) -> (r: Result<Vec<Vec<i32>>, MatrixError>)
    requires
        operands_ok(m1, m2, MatrixOp::Sub),
    ensures
        op_result(m1, m2, MatrixOp::Sub, r),
{
    combine_sequential(m1, m2, MatrixOp::Sub)
}

/// The entrywise difference `m1 - m2` computed in `thr` row bands, or
/// `DimensionMismatch` when the shapes differ.
pub fn sub_matrix_threads(m1: &Vec<Vec<i32>>, m2: &Vec<Vec<i32>>, thr: usize) -> (r: Result<Vec<Vec<i32>>, MatrixError>)
    requires
        operands_ok(m1, m2, MatrixOp::Sub),
        thr >= 1,
    ensures
        op_result(m1, m2, MatrixOp::Sub, r),
{
    combine_banded(m1, m2, MatrixOp::Sub, thr)
}

/// The product `m1 * m2`, or `DimensionMismatch` when `m1` has rows but not as
/// many columns as `m2` has rows.
pub fn mul_matrix_sequential(m1: &Vec<Vec<i32>>, m2: &Vec<Vec<i32>>) -> (r: Result<Vec<Vec<i32>>, MatrixError>)
    requires
        operands_ok(m1, m2, MatrixOp::Mul),
    ensures
        op_result(m1, m2, MatrixOp::Mul, r),
{
    combine_sequential(m1, m2, MatrixOp::Mul)
}

/// The product `m1 * m2` computed in `thr` bands of output rows, or
/// `DimensionMismatch` when `m1` has rows but not as many columns as `m2`
/// has rows.
pub fn mul_matrix_threads(m1: &Vec<Vec<i32>>, m2: &Vec<Vec<i32>>, thr: usize) -> (r: Result<Vec<Vec<i32>>, MatrixError>)
    requires
        operands_ok(m1, m2, MatrixOp::Mul),
        thr >= 1,
    ensures
        op_result(m1, m2, MatrixOp::Mul, r),
{
    combine_banded(m1, m2, MatrixOp::Mul, thr)
}

/// Any two results that meet the contract of an operation on the same
/// operands agree: the banded forms return what the single-pass forms
/// return, entry for entry, and fail exactly when they fail.
pub proof fn lemma_results_agree(
    m1: &Vec<Vec<i32>>,
    m2: &Vec<Vec<i32>>,
    op: MatrixOp,
    r1: Result<Vec<Vec<i32>>, MatrixError>,
    r2: Result<Vec<Vec<i32>>, MatrixError>,
)
    requires
        op_result(m1, m2, op, r1),
        op_result(m1, m2, op, r2),
    ensures
        match (r1, r2) {
            (Ok(c1), Ok(c2)) => mat_view(&c1) == mat_view(&c2),
            (Err(e1), Err(e2)) => e1 == e2,
            _ => false,
        },
{
}

/// A `maxi` by `maxj` matrix (no rows or columns where a count is not
/// positive) of entries drawn at random from `[0, threshold)`.
pub fn create_matrix_from_random(maxi: i32, maxj: i32, threshold: i32) -> (r: Vec<Vec<i32>>)
    requires
        threshold > 0,
    ensures
        mat_view(&r).len() == if maxi > 0 { maxi as int } else { 0 },
        forall|i: int| 0 <= i < mat_view(&r).len() ==> (#[trigger] mat_view(&r)[i]).len() == if maxj > 0 { maxj as int } else { 0 },
        forall|i: int, j: int|
            0 <= i < mat_view(&r).len() && 0 <= j < mat_view(&r)[i].len() ==> 0 <= #[trigger] mat_view(&r)[i][j] < threshold,
{
    let mut matrix: Vec<Vec<i32>> = Vec::new();
    let mut i: i32 = 0;
    while i < maxi
        invariant
            threshold > 0,
            0 <= i,
            i <= if maxi > 0 { maxi } else { 0 },
            matrix@.len() == i,
            forall|k: int| 0 <= k < i ==> (#[trigger] matrix@[k])@.len() == if maxj > 0 { maxj as int } else { 0 },
            forall|k: int, t: int| 0 <= k < i && 0 <= t < matrix@[k]@.len() ==> 0 <= #[trigger] matrix@[k]@[t] < threshold,
        decreases maxi - i,
    {
        let mut row: Vec<i32> = Vec::new();
        let mut j: i32 = 0;
        while j < maxj
            invariant
                threshold > 0,
                0 <= i < maxi,
                0 <= j,
                j <= if maxj > 0 { maxj } else { 0 },
                row@.len() == j,
                forall|t: int| 0 <= t < j ==> 0 <= #[trigger] row@[t] < threshold,
            decreases maxj - j,
        {
            let n = draw_in_range(0, threshold);
            row.push(n);
            j = j + 1;
        }
        matrix.push(row);
        i = i + 1;
    }
    matrix
}

} // verus!
