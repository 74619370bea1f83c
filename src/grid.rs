//! The automaton grid: neighbour counts, the survival and birth rule, and
//! whole-grid steps, single-pass or band by band with halo rows.

use vstd::prelude::*;
use crate::random::draw_in_range;
use crate::partition::{partition, is_partition, is_band, band_start, band_end, lemma_band_bounds};

verus! {

/// The rows of `board`, each as a sequence of cells.
pub open spec fn grid_view(board: &Vec<Vec<bool>>) -> Seq<Seq<bool>> {
    Seq::new(board@.len(), |i: int| board@[i]@)
}

/// `g` has exactly `height` rows, each of exactly `width` cells.
pub open spec fn is_grid(g: Seq<Seq<bool>>, width: int, height: int) -> bool {
    &&& g.len() == height
    &&& forall|i: int| 0 <= i < height ==> (#[trigger] g[i]).len() == width
}

/// The cell at row `r`, column `c` exists and is alive; cells outside the
/// grid count as dead.
pub open spec fn alive_at(g: Seq<Seq<bool>>, r: int, c: int) -> bool {
    0 <= r < g.len() && 0 <= c < g[r].len() && g[r][c]
}

pub open spec fn count(b: bool) -> int {
    if b {
        1
    } else {
        0
    }
}

/// Alive cells among the three in row `r` at columns `c - 1`, `c`, `c + 1`,
/// leaving out column `c` itself when `skip_centre` holds.
pub open spec fn row_neighbours(g: Seq<Seq<bool>>, r: int, c: int, skip_centre: bool) -> int {
    count(alive_at(g, r, c - 1)) + (if skip_centre {
        0
    } else {
        count(alive_at(g, r, c))
    }) + count(alive_at(g, r, c + 1))
}

/// Alive cells among the eight at Chebyshev distance 1 from `(r, c)`.
pub open spec fn live_neighbours(g: Seq<Seq<bool>>, r: int, c: int) -> int {
    row_neighbours(g, r - 1, c, false) + row_neighbours(g, r, c, true) + row_neighbours(
        g,
        r + 1,
        c,
        false,
    )
}

/// The rule: three alive neighbours give life, two keep the current state,
/// any other count gives death.
pub open spec fn next_state(alive: bool, neighbours: int) -> bool {
    if neighbours == 3 {
        true
    } else if neighbours == 2 {
        alive
    } else {
        false
    }
}

/// The state of cell `(r, c)` after one step.
pub open spec fn next_cell(g: Seq<Seq<bool>>, r: int, c: int) -> bool {
    next_state(alive_at(g, r, c), live_neighbours(g, r, c))
}

/// The whole grid after one step.
pub open spec fn life_step(g: Seq<Seq<bool>>) -> Seq<Seq<bool>> {
    Seq::new(g.len(), |r: int| Seq::new(g[r].len(), |c: int| next_cell(g, r, c)))
}

/// A `height` by `width` grid of dead cells.
pub fn board_new(width: u32, height: u32) -> (r: Vec<Vec<bool>>)
    ensures
        is_grid(grid_view(&r), width as int, height as int),
        forall|i: int, j: int|
            0 <= i < height && 0 <= j < width ==> !#[trigger] grid_view(&r)[i][j],
{
    let mut cells: Vec<Vec<bool>> = Vec::new();
    let mut i: u32 = 0;
    while i < height
        invariant
            i <= height,
            cells@.len() == i,
            forall|k: int| 0 <= k < i ==> (#[trigger] cells@[k])@ == Seq::new(width as nat, |j: int| false),
        decreases height - i,
    {
        let mut row: Vec<bool> = Vec::new();
        let mut j: u32 = 0;
        while j < width
            invariant
                j <= width,
                row@ == Seq::new(j as nat, |k: int| false),
            decreases width - j,
        {
            row.push(false);
            j = j + 1;
            assert(row@ =~= Seq::new(j as nat, |k: int| false));
        }
        cells.push(row);
        i = i + 1;
    }
    cells
}

/// The cell at row `x`, column `y`.
pub fn board_get_cell(board: &Vec<Vec<bool>>, x: usize, y: usize) -> (r: bool)
    requires
        x < grid_view(board).len(),
        y < grid_view(board)[x as int].len(),
    ensures
        r == grid_view(board)[x as int][y as int],
{
    board[x][y]
}

/// Sets the cell at row `x`, column `y` to `value`, leaving every other cell.
pub fn board_set_cell(board: &mut Vec<Vec<bool>>, x: usize, y: usize, value: bool)
    requires
        x < grid_view(old(board)).len(),
        y < grid_view(old(board))[x as int].len(),
    ensures
        grid_view(final(board)) == grid_view(old(board)).update(
            x as int,
            grid_view(old(board))[x as int].update(y as int, value),
        ),
{
    let ghost g = grid_view(board);
    let mut row: Vec<bool> = Vec::new();
    let n = board[x].len();
    let mut j: usize = 0;
    while j < n
        invariant
            j <= n,
            x < board@.len(),
            n == board@[x as int]@.len(),
            y < n,
            grid_view(board) == g,
            row@ == g[x as int].update(y as int, value).subrange(0, j as int),
        decreases n - j,
    {
        let cell = if j == y {
            value
        } else {
            board[x][j]
        };
        row.push(cell);
        j = j + 1;
        assert(row@ =~= g[x as int].update(y as int, value).subrange(0, j as int));
    }
    assert(row@ =~= g[x as int].update(y as int, value));
    let ghost before = board@;
    assert(forall|i: int| 0 <= i < before.len() ==> #[trigger] before[i]@ == g[i]);
    board.set(x, row);
    assert(grid_view(board) =~= g.update(x as int, g[x as int].update(y as int, value)));
}

/// Brings cells of the top-left `height` by `width` rectangle to life from
/// given draws: cell `(i, j)` comes alive when `draws[i][j]` is below
/// `chance_tenths`; alive cells stay alive.
pub fn seed_board(board: &mut Vec<Vec<bool>>, draws: &Vec<Vec<i32>>, height: u32, width: u32, chance_tenths: i32)
    requires
        is_grid(grid_view(old(board)), width as int, height as int),
        draws@.len() == height,
        forall|i: int| 0 <= i < height ==> (#[trigger] draws@[i])@.len() == width,
    ensures
        is_grid(grid_view(final(board)), width as int, height as int),
        forall|i: int, j: int|
            0 <= i < height && 0 <= j < width ==> #[trigger] grid_view(final(board))[i][j] == (
            grid_view(old(board))[i][j] || draws@[i]@[j] < chance_tenths),
{
    let ghost g0 = grid_view(board);
    let mut i: u32 = 0;
    while i < height
        invariant
            i <= height,
            draws@.len() == height,
            forall|a: int| 0 <= a < height ==> (#[trigger] draws@[a])@.len() == width,
            is_grid(g0, width as int, height as int),
            is_grid(grid_view(board), width as int, height as int),
            forall|a: int, b: int|
                0 <= a < height && 0 <= b < width ==> #[trigger] grid_view(board)[a][b] == if a < i {
                    g0[a][b] || draws@[a]@[b] < chance_tenths
                } else {
                    g0[a][b]
                },
        decreases height - i,
    {
        let mut j: u32 = 0;
        while j < width
            invariant
                i < height,
                j <= width,
                draws@.len() == height,
                forall|a: int| 0 <= a < height ==> (#[trigger] draws@[a])@.len() == width,
                is_grid(g0, width as int, height as int),
                is_grid(grid_view(board), width as int, height as int),
                forall|a: int, b: int|
                    0 <= a < height && 0 <= b < width ==> #[trigger] grid_view(board)[a][b] == if a < i
                        || (a == i && b < j) {
                        g0[a][b] || draws@[a]@[b] < chance_tenths
                    } else {
                        g0[a][b]
                    },
            decreases width - j,
        {
            assert(draws@[i as int]@.len() == width);
            if draws[i as usize][j as usize] < chance_tenths {
                board_set_cell(board, i as usize, j as usize, true);
            }
            j = j + 1;
        }
        i = i + 1;
    }
}

/// Brings cells of the top-left `height` by `width` rectangle to life at
/// random: each draws a digit from 0 to 9 and comes alive when the digit is
/// below `chance_tenths` (a probability in tenths). Alive cells stay alive.
pub fn randomize_board(board: &mut Vec<Vec<bool>>, height: u32, width: u32, chance_tenths: i32)
    requires
        is_grid(grid_view(old(board)), width as int, height as int),
    ensures
        is_grid(grid_view(final(board)), width as int, height as int),
        forall|i: int, j: int|
            0 <= i < height && 0 <= j < width ==> (#[trigger] grid_view(old(board))[i][j]
                ==> grid_view(final(board))[i][j]),
        chance_tenths <= 0 ==> grid_view(final(board)) == grid_view(old(board)),
        chance_tenths >= 10 ==> forall|i: int, j: int|
            0 <= i < height && 0 <= j < width ==> #[trigger] grid_view(final(board))[i][j],
{
    let mut draws: Vec<Vec<i32>> = Vec::new();
    let mut i: u32 = 0;
    while i < height
        invariant
            i <= height,
            draws@.len() == i,
            forall|a: int| 0 <= a < i ==> (#[trigger] draws@[a])@.len() == width,
            forall|a: int, b: int| 0 <= a < i && 0 <= b < width ==> 0 <= #[trigger] draws@[a]@[b] < 10,
        decreases height - i,
    {
        let mut row: Vec<i32> = Vec::new();
        let mut j: u32 = 0;
        while j < width
            invariant
                j <= width,
                row@.len() == j,
                forall|b: int| 0 <= b < j ==> 0 <= #[trigger] row@[b] < 10,
            decreases width - j,
        {
            row.push(draw_in_range(0, 10));
            j = j + 1;
        }
        draws.push(row);
        i = i + 1;
    }
    let ghost g0 = grid_view(board);
    seed_board(board, &draws, height, width, chance_tenths);
    if chance_tenths <= 0 {
        assert forall|a: int| 0 <= a < height implies #[trigger] grid_view(board)[a] == g0[a] by {
            assert forall|b: int| 0 <= b < width implies grid_view(board)[a][b] == g0[a][b] by {
                assert(0 <= draws@[a]@[b]);
            }
            assert(grid_view(board)[a] =~= g0[a]);
        }
        assert(grid_view(board) =~= g0);
    }
}

/// The number of alive cells among the eight around row `x`, column `y`;
/// positions outside the grid are not counted.
pub fn board_get_neighbours(board: &Vec<Vec<bool>>, x: usize, y: usize, width: usize, height: usize) -> (n: i32)
    requires
        is_grid(grid_view(board), width as int, height as int),
        x < height,
        y < width,
    ensures
        n == live_neighbours(grid_view(board), x as int, y as int),
        0 <= n <= 8,
{
    let ghost g = grid_view(board);
    let up = x > 0;
    let down = x + 1 < height;
    let left = y > 0;
    let right = y + 1 < width;
    let mut n: i32 = 0;
    if up {
        assert(g[x - 1].len() == width);
        if left && board[x - 1][y - 1] {
            n = n + 1;
        }
        if board[x - 1][y] {
            n = n + 1;
        }
        if right && board[x - 1][y + 1] {
            n = n + 1;
        }
    }
    assert(g[x as int].len() == width);
    if left && board[x][y - 1] {
        n = n + 1;
    }
    if right && board[x][y + 1] {
        n = n + 1;
    }
    if down {
        assert(g[x + 1].len() == width);
        if left && board[x + 1][y - 1] {
            n = n + 1;
        }
        if board[x + 1][y] {
            n = n + 1;
        }
        if right && board[x + 1][y + 1] {
            n = n + 1;
        }
    }
    n
}

proof fn lemma_push_view(rows: &Vec<Vec<bool>>, before: Seq<Seq<bool>>)
    requires
        rows@.len() == before.len() + 1,
        forall|k: int| 0 <= k < before.len() ==> #[trigger] rows@[k]@ == before[k],
    ensures
        grid_view(rows) == before.push(rows@[before.len() as int]@),
{
    assert(grid_view(rows) =~= before.push(rows@[before.len() as int]@));
}

/// The rule on one cell: its current state and its alive-neighbour count.
pub fn apply_rule(cell: bool, neighbours: i32) -> (r: bool)
    ensures
        r == next_state(cell, neighbours as int),
{
    match neighbours {
        3 => true,
        2 => cell,
        _ => false,
    }
}

/// Rows `first .. first + count` of the step of `sub`, computed from `sub`
/// alone: the work of one band.
pub fn update_band(sub: &Vec<Vec<bool>>, first: usize, count: usize, width: usize) -> (r: Vec<Vec<bool>>)
    requires
        is_grid(grid_view(sub), width as int, sub@.len() as int),
        first + count <= sub@.len(),
    ensures
        grid_view(&r) == life_step(grid_view(sub)).subrange(first as int, first + count),
{
    let ghost g = grid_view(sub);
    let ghost step = life_step(g);
    let height = sub.len();
    let stop = first + count;
    let mut rows: Vec<Vec<bool>> = Vec::new();
    let mut i: usize = first;
    while i < stop
        invariant
            first <= i <= stop,
            stop == first + count,
            stop <= height,
            height == sub@.len(),
            g == grid_view(sub),
            step == life_step(g),
            is_grid(g, width as int, height as int),
            grid_view(&rows) == step.subrange(first as int, i as int),
        decreases stop - i,
    {
        let mut row: Vec<bool> = Vec::new();
        let mut j: usize = 0;
        while j < width
            invariant
                first <= i < stop,
                stop <= height,
                height == sub@.len(),
                g == grid_view(sub),
                step == life_step(g),
                is_grid(g, width as int, height as int),
                j <= width,
                row@ == step[i as int].subrange(0, j as int),
            decreases width - j,
        {
            let neighbours = board_get_neighbours(sub, i, j, width, height);
            let cell = board_get_cell(sub, i, j);
            let new_cell = apply_rule(cell, neighbours);
            row.push(new_cell);
            j = j + 1;
            assert(row@ =~= step[i as int].subrange(0, j as int));
        }
        assert(row@ =~= step[i as int]);
        let ghost before = grid_view(&rows);
        rows.push(row);
        proof {
            lemma_push_view(&rows, before);
        }
        i = i + 1;
        assert(grid_view(&rows) =~= step.subrange(first as int, i as int));
    }
    rows
}

/// The grid after one step, computed in a single pass over all rows.
pub fn update_sequential(board: Vec<Vec<bool>>, width: usize, height: usize) -> (r: Vec<Vec<bool>>)
    requires
        is_grid(grid_view(&board), width as int, height as int),
    ensures
        grid_view(&r) == life_step(grid_view(&board)),
        is_grid(grid_view(&r), width as int, height as int),
{
    let r = update_band(&board, 0, height, width);
    assert(life_step(grid_view(&board)).subrange(0, height as int) =~= life_step(grid_view(&board)));
    r
}

/// First row of the halo-extended copy of the band starting at `start`.
pub open spec fn halo_lo(start: int) -> int {
    if start > 0 {
        start - 1
    } else {
        0
    }
}

/// End of the halo-extended copy of the band ending at `end`.
pub open spec fn halo_hi(end: int, height: int) -> int {
    if end < height {
        end + 1
    } else {
        end
    }
}

/// A copy of rows `start .. end` of `board`, with one more row above when
/// `start > 0` and one more below when `end < height`.
pub fn copy_board(board: &Vec<Vec<bool>>, start: usize, end: usize, width: usize, height: usize) -> (r: Vec<Vec<bool>>)
    requires
        is_grid(grid_view(board), width as int, height as int),
        start <= end <= height,
    ensures
        grid_view(&r) == grid_view(board).subrange(halo_lo(start as int), halo_hi(end as int, height as int)),
        is_grid(grid_view(&r), width as int, halo_hi(end as int, height as int) - halo_lo(start as int)),
{
    let ghost g = grid_view(board);
    let lo: usize = if start != 0 { start - 1 } else { start };
    let hi: usize = if end != height { end + 1 } else { end };
    let mut copy: Vec<Vec<bool>> = Vec::new();
    let mut i: usize = lo;
    while i < hi
        invariant
            lo <= i <= hi <= height,
            g == grid_view(board),
            is_grid(g, width as int, height as int),
            grid_view(&copy) == g.subrange(lo as int, i as int),
        decreases hi - i,
    {
        let mut row: Vec<bool> = Vec::new();
        let mut j: usize = 0;
        while j < width
            invariant
                lo <= i < hi <= height,
                g == grid_view(board),
                is_grid(g, width as int, height as int),
                j <= width,
                row@ == g[i as int].subrange(0, j as int),
            decreases width - j,
        {
            row.push(board[i][j]);
            j = j + 1;
            assert(row@ =~= g[i as int].subrange(0, j as int));
        }
        assert(row@ =~= g[i as int]);
        let ghost before = grid_view(&copy);
        copy.push(row);
        proof {
            lemma_push_view(&copy, before);
        }
        i = i + 1;
        assert(grid_view(&copy) =~= g.subrange(lo as int, i as int));
    }
    copy
}

proof fn lemma_halo_row(g: Seq<Seq<bool>>, height: int, start: int, end: int, r: int, d: int)
    requires
        g.len() == height,
        0 <= start <= r < end <= height,
        -1 <= d <= 1,
    ensures
        forall|c: int|
            alive_at(g.subrange(halo_lo(start), halo_hi(end, height)), r - halo_lo(start) + d, c)
                == #[trigger] alive_at(g, r + d, c),
{
    let lo = halo_lo(start);
    let sub = g.subrange(lo, halo_hi(end, height));
    assert forall|c: int| alive_at(sub, r - lo + d, c) == #[trigger] alive_at(g, r + d, c) by {
        if 0 <= r - lo + d < sub.len() {
            assert(sub[r - lo + d] == g[r + d]);
        }
    }
}

/// One step of the copy of a band with its halo rows, at row `r - halo_lo(start)`,
/// is the step of the whole grid at row `r`.
proof fn lemma_halo_step(g: Seq<Seq<bool>>, width: int, height: int, start: int, end: int, r: int)
    requires
        is_grid(g, width, height),
        0 <= start <= r < end <= height,
    ensures
        life_step(g.subrange(halo_lo(start), halo_hi(end, height)))[r - halo_lo(start)]
            == life_step(g)[r],
{
    let lo = halo_lo(start);
    let sub = g.subrange(lo, halo_hi(end, height));
    lemma_halo_row(g, height, start, end, r, -1);
    lemma_halo_row(g, height, start, end, r, 0);
    lemma_halo_row(g, height, start, end, r, 1);
    assert(sub[r - lo] == g[r]);
    assert forall|c: int| 0 <= c < width implies next_cell(sub, r - lo, c) == next_cell(g, r, c) by {
        assert(alive_at(sub, r - lo - 1, c - 1) == alive_at(g, r - 1, c - 1));
        assert(alive_at(sub, r - lo - 1, c) == alive_at(g, r - 1, c));
        assert(alive_at(sub, r - lo - 1, c + 1) == alive_at(g, r - 1, c + 1));
        assert(alive_at(sub, r - lo, c - 1) == alive_at(g, r, c - 1));
        assert(alive_at(sub, r - lo, c) == alive_at(g, r, c));
        assert(alive_at(sub, r - lo, c + 1) == alive_at(g, r, c + 1));
        assert(alive_at(sub, r - lo + 1, c - 1) == alive_at(g, r + 1, c - 1));
        assert(alive_at(sub, r - lo + 1, c) == alive_at(g, r + 1, c));
        assert(alive_at(sub, r - lo + 1, c + 1) == alive_at(g, r + 1, c + 1));
    }
    assert(life_step(sub)[r - lo] =~= life_step(g)[r]);
}

/// Rows `start .. end` of the step of `board`, computed by one worker from
/// its own copy of those rows and their halo rows.
pub fn band_step(board: &Vec<Vec<bool>>, start: usize, end: usize, width: usize, height: usize) -> (r: Vec<Vec<bool>>)
    requires
        is_grid(grid_view(board), width as int, height as int),
        start <= end <= height,
    ensures
        grid_view(&r) == life_step(grid_view(board)).subrange(start as int, end as int),
{
    let ghost g = grid_view(board);
    let band = copy_board(board, start, end, width, height);
    let offset: usize = if start > 0 { 1 } else { 0 };
    let part = update_band(&band, offset, end - start, width);
    assert forall|t: int| 0 <= t < end - start implies grid_view(&part)[t] == life_step(g)[start + t] by {
        lemma_halo_step(g, width as int, height as int, start as int, end as int, start + t);
    }
    assert(grid_view(&part) =~= life_step(g).subrange(start as int, end as int));
    part
}

/// The grid after one step, computed band by band: the rows are split among
/// `threads` workers, each band is copied with its halo rows and stepped on
/// its own, and the bands' rows are joined in order.
pub fn update_threads(board: Vec<Vec<bool>>, width: usize, height: usize, threads: usize) -> (r: Vec<Vec<bool>>)
    requires
        is_grid(grid_view(&board), width as int, height as int),
        threads >= 1,
    ensures
        grid_view(&r) == life_step(grid_view(&board)),
        is_grid(grid_view(&r), width as int, height as int),
{
    let ghost g = grid_view(&board);
    let ghost step = life_step(g);
    let ghost h = height as int;
    let ghost w = threads as int;
    let ranges = partition(height, threads);
    let mut result: Vec<Vec<bool>> = Vec::new();
    let mut k: usize = 0;
    while k < threads
        invariant
            1 <= threads,
            k <= threads,
            h == height,
            w == threads,
            g == grid_view(&board),
            step == life_step(g),
            is_grid(g, width as int, h),
            is_partition(ranges@, h, w),
            grid_view(&result) == step.subrange(0, if k < threads { band_start(h, w, k as int) } else { h }),
        decreases threads - k,
    {
        let range = ranges[k];
        proof {
            lemma_band_bounds(h, w, k as int);
            assert(is_band(ranges@[k as int], h, w, k as int));
        }
        let mut part = band_step(&board, range.start, range.end, width, height);
        let ghost before = grid_view(&result);
        let ghost added = grid_view(&part);
        result.append(&mut part);
        assert(grid_view(&result) =~= before + added);
        k = k + 1;
        assert(grid_view(&result) =~= step.subrange(0, if k < threads { band_start(h, w, k as int) } else { h }));
    }
    assert(step.subrange(0, h) =~= step);
    result
}

/// The rows that worker `i` of `workers` emits for `g`: its band of the step
/// of its own halo-extended copy, read at local row offsets.
pub open spec fn worker_rows(g: Seq<Seq<bool>>, workers: int, i: int) -> Seq<Seq<bool>> {
    let h = g.len() as int;
    let s = band_start(h, workers, i);
    let e = band_end(h, workers, i);
    let lo = halo_lo(s);
    life_step(g.subrange(lo, halo_hi(e, h))).subrange(s - lo, e - lo)
}

/// The outputs of workers `0 .. k`, joined in worker order.
pub open spec fn joined_rows(g: Seq<Seq<bool>>, workers: int, k: int) -> Seq<Seq<bool>>
    decreases k,
{
    if k <= 0 {
        Seq::empty()
    } else {
        joined_rows(g, workers, k - 1) + worker_rows(g, workers, k - 1)
    }
}

/// Splitting a grid into `workers` row bands, stepping each band's
/// halo-extended copy on its own, and joining the bands in order gives the
/// step of the whole grid, for every grid and every worker count.
pub proof fn lemma_banded_step(g: Seq<Seq<bool>>, width: int, workers: int)
    requires
        is_grid(g, width, g.len() as int),
        workers >= 1,
    ensures
        joined_rows(g, workers, workers) == life_step(g),
{
    let h = g.len() as int;
    lemma_joined_prefix(g, width, workers, workers);
    lemma_band_bounds(h, workers, workers - 1);
    assert(life_step(g).subrange(0, h) =~= life_step(g));
}

proof fn lemma_joined_prefix(g: Seq<Seq<bool>>, width: int, workers: int, k: int)
    requires
        is_grid(g, width, g.len() as int),
        workers >= 1,
        1 <= k <= workers,
    ensures
        joined_rows(g, workers, k) == life_step(g).subrange(0, band_end(g.len() as int, workers, k - 1)),
    decreases k,
{
    let h = g.len() as int;
    let step = life_step(g);
    let s = band_start(h, workers, k - 1);
    let e = band_end(h, workers, k - 1);
    lemma_band_bounds(h, workers, k - 1);
    let lo = halo_lo(s);
    assert forall|t: int| 0 <= t < e - s implies #[trigger] worker_rows(g, workers, k - 1)[t] == step[s + t] by {
        lemma_halo_step(g, width, h, s, e, s + t);
    }
    assert(worker_rows(g, workers, k - 1) =~= step.subrange(s, e));
    if k == 1 {
        assert(band_start(h, workers, 0) == 0);
        assert(joined_rows(g, workers, 0) =~= Seq::<Seq<bool>>::empty());
        assert(joined_rows(g, workers, 1) =~= step.subrange(0, e));
    } else {
        lemma_joined_prefix(g, width, workers, k - 1);
        lemma_band_bounds(h, workers, k - 2);
        assert(joined_rows(g, workers, k) =~= step.subrange(0, e));
    }
}

} // verus!
