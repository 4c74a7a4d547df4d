//! Partitioning: the split of a grid's rows among the workers of one
//! generation.

use vstd::prelude::*;
use crate::rules::one_if;

verus! {

/// The rows `[start_row, end_row)` that one worker computes.
#[derive(Clone, Copy, Debug, PartialEq, Eq, Structural)]
pub struct WorkAssignment {
    pub start_row: usize,
    pub end_row: usize,
}

/// The lesser of two numbers.
pub open spec fn lesser(a: nat, b: nat) -> nat {
    if a <= b {
        a
    } else {
        b
    }
}

/// The first row of worker `worker`: every worker before it took
/// `height / threads` rows, and each of the first `height % threads` one more.
pub open spec fn start_of(height: nat, threads: nat, worker: nat) -> nat {
    worker * (height / threads) + lesser(worker, height % threads)
}

/// The row after the last row of worker `worker`, never beyond the grid.
pub open spec fn end_of(height: nat, threads: nat, worker: nat) -> nat {
    lesser(
        start_of(height, threads, worker) + height / threads + one_if(worker < height % threads),
        height,
    )
}

/// How many rows worker `worker` computes.
pub open spec fn rows_of(height: nat, threads: nat, worker: nat) -> int {
    end_of(height, threads, worker) - start_of(height, threads, worker)
}

/// Row `row` is among the rows of worker `worker`.
pub open spec fn owns(height: nat, threads: nat, worker: nat, row: int) -> bool {
    start_of(height, threads, worker) <= row < end_of(height, threads, worker)
}

/// Later workers start at later rows.
pub proof fn lemma_starts_ascend(height: nat, threads: nat, a: nat, b: nat)
    requires
        threads >= 1,
        a <= b,
    ensures
        start_of(height, threads, a) <= start_of(height, threads, b),
{
    let q = height / threads;
    assert(a * q <= b * q) by (nonlinear_arith)
        requires
            a <= b,
            0 <= q,
    ;
}

/// The workers' starts run from row 0 to the height of the grid, which the
/// worker after the last would start at.
pub proof fn lemma_starts_span(height: nat, threads: nat)
    requires
        threads >= 1,
    ensures
        start_of(height, threads, 0) == 0,
        start_of(height, threads, threads) == height,
{
    let q = height / threads;
    let t = threads as int;
    vstd::arithmetic::div_mod::lemma_fundamental_div_mod(height as int, t);
    vstd::arithmetic::div_mod::lemma_mod_bound(height as int, t);
    assert(t * (height as int / t) == threads * q) by (nonlinear_arith)
        requires
            q == height as int / t,
            t == threads,
    ;
    assert(0 * q == 0) by (nonlinear_arith);
}

/// Each worker ends where the next one starts, so the bound by the grid's
/// height in `end_of` never cuts a range short.
pub proof fn lemma_end_meets_next_start(height: nat, threads: nat, worker: nat)
    requires
        threads >= 1,
        worker < threads,
    ensures
        end_of(height, threads, worker) == start_of(height, threads, worker + 1),
        start_of(height, threads, worker) <= end_of(height, threads, worker) <= height,
{
    let q = height / threads;
    assert((worker + 1) * q == worker * q + q) by (nonlinear_arith);
    lemma_starts_ascend(height, threads, worker + 1, threads);
    lemma_starts_span(height, threads);
}

/// A row below the start of worker `bound` belongs to one of the workers
/// before it.
proof fn lemma_owner_below(height: nat, threads: nat, row: int, bound: nat) -> (worker: nat)
    requires
        threads >= 1,
        bound <= threads,
        0 <= row < start_of(height, threads, bound),
    ensures
        worker < bound,
        owns(height, threads, worker, row),
    decreases bound,
{
    if bound == 0 {
        lemma_starts_span(height, threads);
        0
    } else {
        let last = (bound - 1) as nat;
        lemma_end_meets_next_start(height, threads, last);
        if row < start_of(height, threads, last) {
            lemma_owner_below(height, threads, row, last)
        } else {
            last
        }
    }
}

/// The worker that row `row` belongs to.
pub open spec fn owner_of(height: nat, threads: nat, row: int) -> nat {
    choose|worker: nat| worker < threads && owns(height, threads, worker, row)
}

/// The workers' ranges cover `[0, height)` with no gap and no overlap: every
/// row of the grid belongs to a worker, to no second one, and no range holds
/// a row outside the grid.
pub proof fn lemma_assignments_tile_rows(height: nat, threads: nat)
    requires
        threads >= 1,
    ensures
        forall|row: int|
            0 <= row < height ==> #[trigger] owner_of(height, threads, row) < threads && owns(
                height,
                threads,
                owner_of(height, threads, row),
                row,
            ),
        forall|worker: nat, row: int|
            worker < threads && #[trigger] owns(height, threads, worker, row) ==> 0 <= row < height
                && owner_of(height, threads, row) == worker,
{
    lemma_starts_span(height, threads);
    assert forall|row: int| 0 <= row < height implies #[trigger] owner_of(height, threads, row)
        < threads && owns(height, threads, owner_of(height, threads, row), row) by {
        let worker = lemma_owner_below(height, threads, row, threads);
        assert(worker < threads && owns(height, threads, worker, row));
    }
    assert forall|worker: nat, row: int|
        worker < threads && #[trigger] owns(height, threads, worker, row) implies 0 <= row < height
        && owner_of(height, threads, row) == worker by {
        lemma_end_meets_next_start(height, threads, worker);
        let other = owner_of(height, threads, row);
        assert(other < threads && owns(height, threads, other, row));
        lemma_end_meets_next_start(height, threads, other);
        if worker < other {
            lemma_starts_ascend(height, threads, worker + 1, other);
        }
        if other < worker {
            lemma_starts_ascend(height, threads, other + 1, worker);
        }
    }
}

/// The load is balanced: no two workers differ by more than one row.
pub proof fn lemma_assignments_balanced(height: nat, threads: nat, a: nat, b: nat)
    requires
        threads >= 1,
        a < threads,
        b < threads,
    ensures
        rows_of(height, threads, a) - rows_of(height, threads, b) <= 1,
        height / threads <= rows_of(height, threads, a) <= height / threads + 1,
{
    let q = height / threads;
    lemma_end_meets_next_start(height, threads, a);
    lemma_end_meets_next_start(height, threads, b);
    assert((a + 1) * q == a * q + q) by (nonlinear_arith);
    assert((b + 1) * q == b * q + q) by (nonlinear_arith);
}

/// The rows of worker `worker` when `height` rows are split among `threads`
/// workers. With more workers than rows, the workers past the last row get
/// an empty range.
pub fn assignment(height: usize, threads: usize, worker: usize) -> (rows: WorkAssignment)
    requires
        threads >= 1,
        worker < threads,
    ensures
        rows.start_row == start_of(height as nat, threads as nat, worker as nat),
        rows.end_row == end_of(height as nat, threads as nat, worker as nat),
        rows.start_row <= rows.end_row <= height,
{
    let rows_per_worker = height / threads;
    let extra = height % threads;
    proof {
        lemma_end_meets_next_start(height as nat, threads as nat, worker as nat);
        lemma_starts_ascend(height as nat, threads as nat, worker as nat, threads as nat);
        lemma_starts_span(height as nat, threads as nat);
        assert(0 <= worker * rows_per_worker) by (nonlinear_arith)
            requires
                0 <= worker,
                0 <= rows_per_worker,
        ;
        assert((worker + 1) * rows_per_worker == worker * rows_per_worker + rows_per_worker)
            by (nonlinear_arith);
    }
    let start_row = worker * rows_per_worker + if worker < extra {
        worker
    } else {
        extra
    };
    let mut end_row = start_row + rows_per_worker;
    if worker < extra {
        end_row += 1;
    }
    if end_row > height {
        end_row = height;
    }
    WorkAssignment { start_row, end_row }
}

} // verus!
