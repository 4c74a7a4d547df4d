//! The generation step: each worker computes its rows from the grid as it
//! stood before the step, the rows are gathered in a staging grid, and the
//! staging grid becomes the grid.

use vstd::prelude::*;
use crate::cell::{CellCoord, CellValue};
use crate::grid::{lemma_index_in_range, lemma_index_splits, Grid, GridView};
use crate::partition::{
    assignment, end_of, lemma_end_meets_next_start, lemma_starts_span, start_of, WorkAssignment,
};
use crate::rules::{count_alive_neighbors, next_state};

verus! {

/// What the worker with the rows `[start_row, end_row)` produces: those rows
/// of the next generation, in row-major order.
pub open spec fn worker_output(grid: GridView, start_row: nat, end_row: nat) -> Seq<CellValue> {
    grid.next().cells.subrange((start_row * grid.width) as int, (end_row * grid.width) as int)
}

/// `staging` after `cells` was written over it from row `start_row` on.
pub open spec fn with_rows(
    staging: Seq<CellValue>,
    width: nat,
    start_row: nat,
    cells: Seq<CellValue>,
) -> Seq<CellValue> {
    staging.subrange(0, (start_row * width) as int) + cells + staging.subrange(
        (start_row * width + cells.len()) as int,
        staging.len() as int,
    )
}

/// The staging grid once the first `done` of `threads` workers have written
/// their rows into it. It starts out all dead.
pub open spec fn staged(grid: GridView, threads: nat, done: nat) -> Seq<CellValue>
    decreases done,
{
    if done == 0 {
        Seq::new(grid.cells.len(), |i: int| CellValue::Dead)
    } else {
        let worker = (done - 1) as nat;
        with_rows(
            staged(grid, threads, worker),
            grid.width,
            start_of(grid.height, threads, worker),
            worker_output(
                grid,
                start_of(grid.height, threads, worker),
                end_of(grid.height, threads, worker),
            ),
        )
    }
}

/// The rows of a grid lie in its cells one after the other.
proof fn lemma_rows_in_range(width: nat, height: nat, start_row: nat, end_row: nat)
    requires
        start_row <= end_row <= height,
    ensures
        0 <= start_row * width <= end_row * width <= height * width,
        height * width == width * height,
        end_row * width - start_row * width == (end_row - start_row) * width,
{
    assert(0 <= start_row * width <= end_row * width <= height * width) by (nonlinear_arith)
        requires
            0 <= start_row <= end_row <= height,
            0 <= width,
    ;
    assert(height * width == width * height) by (nonlinear_arith);
    assert(end_row * width - start_row * width == (end_row - start_row) * width)
        by (nonlinear_arith);
}

/// While workers write their rows in turn, the staging grid agrees with the
/// next generation on every row before the next worker's first row, and has
/// the size of the grid.
proof fn lemma_staged_prefix(grid: GridView, threads: nat, done: nat)
    requires
        grid.well_formed(),
        threads >= 1,
        done <= threads,
    ensures
        staged(grid, threads, done).len() == grid.cells.len(),
        forall|i: int|
            0 <= i < start_of(grid.height, threads, done) * grid.width ==> staged(
                grid,
                threads,
                done,
            )[i] == grid.next().cells[i],
    decreases done,
{
    if done == 0 {
        lemma_starts_span(grid.height, threads);
        assert(0 * grid.width == 0) by (nonlinear_arith);
    } else {
        let worker = (done - 1) as nat;
        let start = start_of(grid.height, threads, worker);
        let end = end_of(grid.height, threads, worker);
        lemma_staged_prefix(grid, threads, worker);
        lemma_end_meets_next_start(grid.height, threads, worker);
        lemma_rows_in_range(grid.width, grid.height, start, end);
        let earlier = staged(grid, threads, worker);
        let output = worker_output(grid, start, end);
        assert(output.len() == end * grid.width - start * grid.width);
        assert(staged(grid, threads, done) == with_rows(earlier, grid.width, start, output));
        assert forall|i: int| 0 <= i < end * grid.width implies staged(grid, threads, done)[i]
            == grid.next().cells[i] by {
            if i >= start * grid.width {
                assert(output[i - start * grid.width] == grid.next().cells[i]);
            }
        }
    }
}

/// Merging: once every worker has written its rows, the staging grid is the
/// next generation, whatever the number of workers.
pub proof fn lemma_staged_is_next(grid: GridView, threads: nat)
    requires
        grid.well_formed(),
        threads >= 1,
    ensures
        staged(grid, threads, threads) == grid.next().cells,
{
    lemma_staged_prefix(grid, threads, threads);
    lemma_starts_span(grid.height, threads);
    assert(grid.height * grid.width == grid.width * grid.height) by (nonlinear_arith);
    assert(staged(grid, threads, threads) =~= grid.next().cells);
}

/// The outcome of a generation does not depend on the number of workers:
/// any two numbers of workers leave the same staging grid.
pub proof fn lemma_worker_count_is_immaterial(grid: GridView, one: nat, other: nat)
    requires
        grid.well_formed(),
        one >= 1,
        other >= 1,
    ensures
        staged(grid, one, one) == staged(grid, other, other),
{
    lemma_staged_is_next(grid, one);
    lemma_staged_is_next(grid, other);
}

/// The grid after `turns` generations, each put together from the rows of
/// `threads` workers.
pub open spec fn after_by(grid: GridView, threads: nat, turns: nat) -> GridView
    decreases turns,
{
    if turns == 0 {
        grid
    } else {
        let before = after_by(grid, threads, (turns - 1) as nat);
        GridView {
            width: before.width,
            height: before.height,
            cells: staged(before, threads, threads),
        }
    }
}

/// Generations put together from the rows of workers are the generations of
/// the rule, however many workers there are.
pub proof fn lemma_after_by_is_after(grid: GridView, threads: nat, turns: nat)
    requires
        grid.well_formed(),
        threads >= 1,
    ensures
        after_by(grid, threads, turns) == grid.after(turns),
        grid.after(turns).well_formed(),
    decreases turns,
{
    if turns > 0 {
        let earlier = (turns - 1) as nat;
        lemma_after_by_is_after(grid, threads, earlier);
        lemma_staged_is_next(grid.after(earlier), threads);
    }
}

/// Runs of the same number of generations from the same grid end with the
/// same grid and the same live cells, whether one worker computes every row
/// or the rows are split among several, evenly or with a remainder.
pub proof fn lemma_final_grid_ignores_worker_count(
    grid: GridView,
    one: nat,
    other: nat,
    turns: nat,
)
    requires
        grid.well_formed(),
        one >= 1,
        other >= 1,
    ensures
        after_by(grid, one, turns) == after_by(grid, other, turns),
        after_by(grid, one, turns).alive_cells() == after_by(grid, other, turns).alive_cells(),
{
    lemma_after_by_is_after(grid, one, turns);
    lemma_after_by_is_after(grid, other, turns);
}

/// Computing: the work of one worker. Applies the rule to every cell of the
/// rows `rows`, reading only `world`, the grid as it stood before the step,
/// and returns the new cells of those rows in row-major order.
pub fn compute_rows(world: &Vec<CellValue>, width: usize, height: usize, rows: WorkAssignment) -> (out:
    Vec<CellValue>)
    requires
        world.len() == width * height,
        rows.start_row <= rows.end_row <= height,
    ensures
        out@ == worker_output(
            GridView { width: width as nat, height: height as nat, cells: world@ },
            rows.start_row as nat,
            rows.end_row as nat,
        ),
{
    let ghost grid = GridView { width: width as nat, height: height as nat, cells: world@ };
    let ghost target = worker_output(grid, rows.start_row as nat, rows.end_row as nat);
    let ghost base = rows.start_row * width;
    proof {
        lemma_rows_in_range(width as nat, height as nat, rows.start_row as nat, rows.end_row as nat);
    }
    let mut out: Vec<CellValue> = Vec::new();
    let mut y: usize = rows.start_row;
    while y < rows.end_row
        invariant
            rows.start_row <= y <= rows.end_row <= height,
            world.len() == width * height,
            grid == (GridView { width: width as nat, height: height as nat, cells: world@ }),
            target == worker_output(grid, rows.start_row as nat, rows.end_row as nat),
            target.len() == (rows.end_row - rows.start_row) * width,
            base == rows.start_row * width,
            0 <= base <= rows.end_row * width <= height * width,
            out.len() == y * width - base,
            forall|j: int| 0 <= j < out.len() ==> out@[j] == target[j],
        decreases rows.end_row - y,
    {
        let mut x: usize = 0;
        proof {
            lemma_rows_in_range(width as nat, height as nat, rows.start_row as nat, y as nat);
        }
        while x < width
            invariant
                rows.start_row <= y < rows.end_row <= height,
                x <= width,
                world.len() == width * height,
                grid == (GridView { width: width as nat, height: height as nat, cells: world@ }),
                target == worker_output(grid, rows.start_row as nat, rows.end_row as nat),
                target.len() == (rows.end_row - rows.start_row) * width,
                base == rows.start_row * width,
                0 <= base <= y * width,
                out.len() == y * width + x - base,
                forall|j: int| 0 <= j < out.len() ==> out@[j] == target[j],
            decreases width - x,
        {
            proof {
                lemma_index_in_range(width as nat, height as nat, x as int, y as int);
                lemma_index_splits(width as nat, x as int, y as int);
                lemma_rows_in_range(
                    width as nat,
                    height as nat,
                    (y + 1) as nat,
                    rows.end_row as nat,
                );
                assert((y + 1) * width == y * width + width) by (nonlinear_arith);
            }
            let index = y * width + x;
            let cell = world[index];
            let alive_neighbors = count_alive_neighbors(world, width, height, x, y);
            out.push(next_state(cell, alive_neighbors));
            x += 1;
        }
        proof {
            assert((y + 1) * width == y * width + width) by (nonlinear_arith);
        }
        y += 1;
    }
    proof {
        assert(out@ =~= target);
    }
    out
}

/// Writes a worker's cells into the staging grid, from row `start_row` on.
/// Nothing outside those rows changes.
pub fn write_rows(
    staging: &mut Vec<CellValue>,
    width: usize,
    start_row: usize,
    cells: &Vec<CellValue>,
)
    requires
        start_row * width + cells.len() <= old(staging).len(),
    ensures
        final(staging)@ == with_rows(old(staging)@, width as nat, start_row as nat, cells@),
{
    proof {
        assert(0 <= start_row * width) by (nonlinear_arith)
            requires
                0 <= start_row,
                0 <= width,
        ;
    }
    let base = start_row * width;
    let mut j: usize = 0;
    while j < cells.len()
        invariant
            j <= cells.len(),
            base == start_row * width,
            base + cells.len() <= staging.len(),
            staging.len() == old(staging).len(),
            forall|i: int| 0 <= i < base ==> staging@[i] == old(staging)@[i],
            forall|i: int| base <= i < base + j ==> staging@[i] == cells@[i - base],
            forall|i: int| base + j <= i < staging.len() ==> staging@[i] == old(staging)@[i],
        decreases cells.len() - j,
    {
        staging[base + j] = cells[j];
        j += 1;
    }
    proof {
        assert(staging@ =~= with_rows(old(staging)@, width as nat, start_row as nat, cells@));
    }
}

/// One generation: splits the rows among `threads` workers, lets each
/// compute its rows from the grid as it stands, and only then takes the
/// result over. Returns the coordinates of the cells that changed, in
/// row-major order.
pub fn step(grid: &mut Grid, threads: usize) -> (flipped: Vec<CellCoord>)
    requires
        threads >= 1,
    ensures
        final(grid)@ == old(grid)@.next(),
        flipped@ == old(grid)@.flipped(old(grid)@.next()),
{
    let width = grid.width();
    let height = grid.height();
    let ghost before = grid@;
    let world = grid.snapshot();
    let mut staging: Vec<CellValue> = vec![CellValue::Dead; world.len()];
    proof {
        assert(staging@ =~= staged(before, threads as nat, 0));
    }
    let mut worker: usize = 0;
    while worker < threads
        invariant
            worker <= threads,
            before.well_formed(),
            before.width == width,
            before.height == height,
            world@ == before.cells,
            staging@ == staged(before, threads as nat, worker as nat),
        decreases threads - worker,
    {
        let rows = assignment(height, threads, worker);
        proof {
            lemma_staged_prefix(before, threads as nat, worker as nat);
            lemma_rows_in_range(
                width as nat,
                height as nat,
                rows.start_row as nat,
                rows.end_row as nat,
            );
        }
        let cells = compute_rows(world, width, height, rows);
        write_rows(&mut staging, width, rows.start_row, &cells);
        worker += 1;
    }
    proof {
        lemma_staged_is_next(before, threads as nat);
    }
    grid.commit(&staging)
}

} // verus!
