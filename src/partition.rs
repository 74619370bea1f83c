//! Splitting a range of rows into contiguous bands, one per worker.

use vstd::prelude::*;

verus! {

/// The half-open row interval `[start, end)` handed to one worker.
#[derive(Clone, Copy, Debug, PartialEq, Eq, Structural)]
pub struct RowRange {
    pub start: usize,
    pub end: usize,
}

/// Width of every band but the last: `total_rows / workers`, rounded down.
pub open spec fn band_size(total_rows: int, workers: int) -> int {
    total_rows / workers
}

/// Start of band `i`.
pub open spec fn band_start(total_rows: int, workers: int, i: int) -> int {
    i * band_size(total_rows, workers)
}

/// End of band `i`: the last band absorbs the remainder.
pub open spec fn band_end(total_rows: int, workers: int, i: int) -> int {
    if i == workers - 1 {
        total_rows
    } else {
        (i + 1) * band_size(total_rows, workers)
    }
}

/// Row `row` lies in `range`.
pub open spec fn in_band(range: RowRange, row: int) -> bool {
    range.start <= row < range.end
}

/// Some band of `ranges` holds row `row`.
pub open spec fn covered(ranges: Seq<RowRange>, row: int) -> bool {
    exists|i: int| 0 <= i < ranges.len() && #[trigger] in_band(ranges[i], row)
}

/// `ranges` is exactly the banding of `total_rows` rows among `workers` workers.
pub open spec fn is_partition(ranges: Seq<RowRange>, total_rows: int, workers: int) -> bool {
    &&& ranges.len() == workers
    &&& forall|i: int| 0 <= i < workers ==> is_band(#[trigger] ranges[i], total_rows, workers, i)
}

/// `range` is band `i` of `total_rows` rows among `workers` workers.
pub open spec fn is_band(range: RowRange, total_rows: int, workers: int, i: int) -> bool {
    &&& range.start == band_start(total_rows, workers, i)
    &&& range.end == band_end(total_rows, workers, i)
}

/// Each band lies inside `[0, total_rows)`, runs forward, and ends where the next starts.
pub proof fn lemma_band_bounds(total_rows: int, workers: int, i: int)
    requires
        0 <= total_rows,
        1 <= workers,
        0 <= i < workers,
    ensures
        0 <= band_start(total_rows, workers, i) <= band_end(total_rows, workers, i)
            <= total_rows,
        i + 1 < workers ==> band_end(total_rows, workers, i) == band_start(
            total_rows,
            workers,
            i + 1,
        ),
{
    let b = band_size(total_rows, workers);
    assert(0 <= b) by (nonlinear_arith)
        requires
            b == total_rows / workers,
            0 <= total_rows,
            1 <= workers,
    ;
    assert(workers * b <= total_rows) by (nonlinear_arith)
        requires
            b == total_rows / workers,
            0 <= total_rows,
            1 <= workers,
    ;
    assert(0 <= i * b <= (i + 1) * b <= workers * b) by (nonlinear_arith)
        requires
            0 <= i < workers,
            0 <= b,
    ;
}

/// Splits `total_rows` rows among `workers` workers: worker `i` gets
/// `[i * band, (i + 1) * band)` with `band = total_rows / workers`, and the
/// last worker gets everything from its start to `total_rows`.
pub fn partition(total_rows: usize, workers: usize) -> (r: Vec<RowRange>)
    requires
        workers >= 1,
    ensures
        is_partition(r@, total_rows as int, workers as int),
{
    let band = total_rows / workers;
    let mut r: Vec<RowRange> = Vec::new();
    let mut i: usize = 0;
    while i < workers
        invariant
            1 <= workers,
            i <= workers,
            band == band_size(total_rows as int, workers as int),
            r@.len() == i,
            forall|k: int|
                0 <= k < i ==> is_band(#[trigger] r@[k], total_rows as int, workers as int, k),
        decreases workers - i,
    {
        proof {
            lemma_band_bounds(total_rows as int, workers as int, i as int);
        }
        let start = i * band;
        let end = if i == workers - 1 {
            total_rows
        } else {
            (i + 1) * band
        };
        r.push(RowRange { start, end });
        i = i + 1;
    }
    r
}

/// The bands cover the rows in order, without gaps or overlaps: the first
/// starts at row 0, each ends where the next starts, none runs backwards, the
/// last ends at `total_rows`, and every row `0 <= row < total_rows` lies in
/// exactly one band.
pub proof fn lemma_partition_covers(ranges: Seq<RowRange>, total_rows: int, workers: int)
    requires
        0 <= total_rows,
        1 <= workers,
        is_partition(ranges, total_rows, workers),
    ensures
        ranges[0].start == 0,
        ranges[workers - 1].end == total_rows,
        forall|i: int| 0 <= i < workers ==> #[trigger] ranges[i].start <= ranges[i].end,
        forall|i: int|
            0 <= i < workers - 1 ==> #[trigger] ranges[i].end == ranges[i + 1].start,
        forall|row: int| 0 <= row < total_rows ==> #[trigger] covered(ranges, row),
        forall|row: int, i: int, j: int|
            0 <= i < workers && 0 <= j < workers && #[trigger] in_band(ranges[i], row)
                && #[trigger] in_band(ranges[j], row) ==> i == j,
{
    assert(is_band(ranges[0], total_rows, workers, 0));
    assert(is_band(ranges[workers - 1], total_rows, workers, workers - 1));
    assert forall|i: int| 0 <= i < workers implies #[trigger] ranges[i].start <= ranges[i].end by {
        lemma_band_bounds(total_rows, workers, i);
    }
    assert forall|i: int| 0 <= i < workers - 1 implies #[trigger] ranges[i].end == ranges[i
        + 1].start by {
        lemma_band_bounds(total_rows, workers, i);
        assert(is_band(ranges[i], total_rows, workers, i));
        assert(is_band(ranges[i + 1], total_rows, workers, i + 1));
    }
    // an earlier band ends no later than a later one starts
    assert forall|i: int, j: int| 0 <= i < j < workers implies #[trigger] ranges[i].end
        <= #[trigger] ranges[j].start by {
        let b = band_size(total_rows, workers);
        lemma_band_bounds(total_rows, workers, i);
        lemma_band_bounds(total_rows, workers, j);
        assert(0 <= b) by (nonlinear_arith)
            requires
                b == total_rows / workers,
                0 <= total_rows,
                1 <= workers,
        ;
        assert((i + 1) * b <= j * b) by (nonlinear_arith)
            requires
                i < j,
                0 <= b,
        ;
    }
    assert forall|row: int| 0 <= row < total_rows implies #[trigger] covered(ranges, row) by {
        assert(ranges[workers - 1].end == total_rows);
        lemma_row_in_some_band(ranges, total_rows, workers, row, workers - 1);
    }
}

proof fn lemma_row_in_some_band(
    ranges: Seq<RowRange>,
    total_rows: int,
    workers: int,
    row: int,
    k: int,
)
    requires
        0 <= total_rows,
        1 <= workers,
        is_partition(ranges, total_rows, workers),
        0 <= k < workers,
        0 <= row < ranges[k].end,
    ensures
        exists|i: int| 0 <= i <= k && #[trigger] in_band(ranges[i], row),
    decreases k,
{
    assert(is_band(ranges[k], total_rows, workers, k));
    assert(is_band(ranges[0], total_rows, workers, 0));
    if row >= ranges[k].start {
        assert(in_band(ranges[k], row));
    } else {
        if k == 0 {
            assert(band_start(total_rows, workers, 0) == 0);
        }
        lemma_band_bounds(total_rows, workers, k - 1);
        assert(is_band(ranges[k], total_rows, workers, k));
        assert(is_band(ranges[k - 1], total_rows, workers, k - 1));
        lemma_row_in_some_band(ranges, total_rows, workers, row, k - 1);
    }
}

} // verus!
