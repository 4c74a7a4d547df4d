//! The update rule: neighbour counts and the next state of a cell.

use vstd::prelude::*;
use crate::cell::CellValue;
use crate::grid::{lemma_index_in_range, GridView};

verus! {

/// One for a true condition, zero for a false one.
pub open spec fn one_if(condition: bool) -> nat {
    if condition {
        1
    } else {
        0
    }
}

/// The next state of a cell with `alive_neighbors` live neighbours: a live
/// cell survives with two or three, a dead cell is born with exactly three,
/// and every other cell is dead.
pub open spec fn next_cell(cell: CellValue, alive_neighbors: nat) -> CellValue {
    if alive_neighbors == 3 || (alive_neighbors == 2 && cell == CellValue::Alive) {
        CellValue::Alive
    } else {
        CellValue::Dead
    }
}

impl GridView {
    /// How many of the eight cells around `(x, y)` are alive. The grid is
    /// bounded: a neighbour off the grid does not count.
    pub open spec fn alive_neighbors(self, x: int, y: int) -> nat {
        one_if(self.alive(x - 1, y - 1)) + one_if(self.alive(x, y - 1)) + one_if(
            self.alive(x + 1, y - 1),
        ) + one_if(self.alive(x - 1, y)) + one_if(self.alive(x + 1, y)) + one_if(
            self.alive(x - 1, y + 1),
        ) + one_if(self.alive(x, y + 1)) + one_if(self.alive(x + 1, y + 1))
    }

    /// The state of the cell at `(x, y)` one generation later.
    pub open spec fn next_at(self, x: int, y: int) -> CellValue {
        next_cell(self.cell(x, y), self.alive_neighbors(x, y))
    }

    /// The grid one generation later: the rule applied to every cell at once.
    pub open spec fn next(self) -> GridView {
        GridView {
            width: self.width,
            height: self.height,
            cells: Seq::new(
                self.cells.len(),
                |i: int| self.next_at(i % self.width as int, i / self.width as int),
            ),
        }
    }

    /// The grid `turns` generations later.
    pub open spec fn after(self, turns: nat) -> GridView
        decreases turns,
    {
        if turns == 0 {
            self
        } else {
            self.after((turns - 1) as nat).next()
        }
    }
}

/// A step along one axis, toward the neighbouring column or row.
#[derive(Clone, Copy)]
enum Step {
    Back,
    Stay,
    Forth,
}

impl Step {
    spec fn delta(self) -> int {
        match self {
            Step::Back => -1,
            Step::Stay => 0,
            Step::Forth => 1,
        }
    }
}

/// Moves `position` by `step`, if that stays below `limit`.
fn shifted(position: usize, step: Step, limit: usize) -> (moved: Option<usize>)
    ensures
        match moved {
            Some(p) => p == position + step.delta() && p < limit,
            None => !(0 <= position + step.delta() < limit),
        },
{
    match step {
        Step::Back => if 0 < position && position - 1 < limit {
            Some(position - 1)
        } else {
            None
        },
        Step::Stay => if position < limit {
            Some(position)
        } else {
            None
        },
        Step::Forth => if position < limit && position + 1 < limit {
            Some(position + 1)
        } else {
            None
        },
    }
}

/// Whether the cell one step from `(x, y)` along each axis is alive.
fn alive_beside(
    world: &Vec<CellValue>,
    width: usize,
    height: usize,
    x: usize,
    y: usize,
    dx: Step,
    dy: Step,
) -> (alive: bool)
    requires
        world.len() == width * height,
    ensures
        alive == (GridView { width: width as nat, height: height as nat, cells: world@ }).alive(
            x + dx.delta(),
            y + dy.delta(),
        ),
{
    match (shifted(x, dx, width), shifted(y, dy, height)) {
        (Some(nx), Some(ny)) => {
            proof {
                lemma_index_in_range(width as nat, height as nat, nx as int, ny as int);
            }
            let index = ny * width + nx;
            world[index] == CellValue::Alive
        },
        _ => false,
    }
}

/// Counts the live cells among the eight neighbours of `(x, y)` in the
/// row-major grid `world` of `width` columns and `height` rows. The position
/// itself need not lie on the grid; neighbours off the grid do not count.
pub fn count_alive_neighbors(
    world: &Vec<CellValue>,
    width: usize,
    height: usize,
    x: usize,
    y: usize,
) -> (count: u32)
    requires
        world.len() == width * height,
    ensures
        count == (GridView {
            width: width as nat,
            height: height as nat,
            cells: world@,
        }).alive_neighbors(x as int, y as int),
{
    let mut count: u32 = 0;
    if alive_beside(world, width, height, x, y, Step::Back, Step::Back) {
        count += 1;
    }
    if alive_beside(world, width, height, x, y, Step::Stay, Step::Back) {
        count += 1;
    }
    if alive_beside(world, width, height, x, y, Step::Forth, Step::Back) {
        count += 1;
    }
    if alive_beside(world, width, height, x, y, Step::Back, Step::Stay) {
        count += 1;
    }
    if alive_beside(world, width, height, x, y, Step::Forth, Step::Stay) {
        count += 1;
    }
    if alive_beside(world, width, height, x, y, Step::Back, Step::Forth) {
        count += 1;
    }
    if alive_beside(world, width, height, x, y, Step::Stay, Step::Forth) {
        count += 1;
    }
    if alive_beside(world, width, height, x, y, Step::Forth, Step::Forth) {
        count += 1;
    }
    count
}

/// Applies the rule to one cell.
pub fn next_state(cell: CellValue, alive_neighbors: u32) -> (next: CellValue)
    ensures
        next == next_cell(cell, alive_neighbors as nat),
{
    match cell {
        CellValue::Alive => if alive_neighbors == 2 || alive_neighbors == 3 {
            CellValue::Alive
        } else {
            CellValue::Dead
        },
        CellValue::Dead => if alive_neighbors == 3 {
            CellValue::Alive
        } else {
            CellValue::Dead
        },
    }
}

} // verus!
