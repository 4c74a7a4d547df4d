//! What the rule does to some well-known patterns: the empty grid, a lone
//! cell, the block and the blinker.

use vstd::prelude::*;
use crate::cell::{CellCoord, CellValue};
use crate::grid::{lemma_coord_on_grid, lemma_index_in_range, lemma_index_splits, GridView};

verus! {

/// The grid of `width` columns and `height` rows whose live cells are the
/// coordinates that `alive` holds of.
pub open spec fn drawn(width: nat, height: nat, alive: spec_fn(int, int) -> bool) -> GridView {
    GridView {
        width,
        height,
        cells: Seq::new(
            width * height,
            |i: int|
                if alive(i % width as int, i / width as int) {
                    CellValue::Alive
                } else {
                    CellValue::Dead
                },
        ),
    }
}

/// A drawn grid has a live cell exactly where it was drawn, on the grid.
pub proof fn lemma_drawn_alive(
    width: nat,
    height: nat,
    alive: spec_fn(int, int) -> bool,
    x: int,
    y: int,
)
    ensures
        drawn(width, height, alive).well_formed(),
        drawn(width, height, alive).alive(x, y) == (0 <= x < width && 0 <= y < height && alive(
            x,
            y,
        )),
{
    if 0 <= x < width && 0 <= y < height {
        lemma_index_in_range(width, height, x, y);
        lemma_index_splits(width, x, y);
    }
}

/// The cell of the next generation at a coordinate on the grid is the rule
/// applied to the cell there and to its neighbours; the next generation has
/// the size of the grid.
pub proof fn lemma_next_cell_on_grid(grid: GridView, x: int, y: int)
    requires
        grid.well_formed(),
        grid.contains(x, y),
    ensures
        grid.next().cell(x, y) == grid.next_at(x, y),
        grid.next().well_formed(),
        grid.next().contains(x, y),
{
    lemma_index_in_range(grid.width, grid.height, x, y);
    lemma_index_splits(grid.width, x, y);
}

/// Two grids of one size are the same grid where they have the same live
/// cells.
pub proof fn lemma_same_alive_same_grid(one: GridView, other: GridView)
    requires
        one.well_formed(),
        other.well_formed(),
        one.width == other.width,
        one.height == other.height,
        forall|x: int, y: int| one.contains(x, y) ==> one.alive(x, y) == other.alive(x, y),
    ensures
        one == other,
{
    assert forall|i: int| 0 <= i < one.cells.len() implies one.cells[i] == other.cells[i] by {
        lemma_coord_on_grid(one.width, one.height, i);
        let x = i % one.width as int;
        let y = i / one.width as int;
        assert(one.contains(x, y));
        assert(one.alive(x, y) == other.alive(x, y));
        assert(one.index(x, y) == i);
        assert(other.index(x, y) == i);
    }
    assert(one.cells =~= other.cells);
}

/// No cell changes between a grid and itself.
pub proof fn lemma_nothing_flips(grid: GridView)
    ensures
        grid.flipped(grid) == Seq::<CellCoord>::empty(),
{
    let differs = |c: CellCoord|
        grid.cell(c.x as int, c.y as int) != grid.cell(c.x as int, c.y as int);
    let kept = grid.coords().filter(differs);
    if kept.len() > 0 {
        grid.coords().lemma_filter_pred(differs, 0);
        assert(differs(kept[0]));
    }
    assert(kept =~= Seq::<CellCoord>::empty());
}

/// A grid without a live cell stays as it is: the next generation is the
/// same grid, and no cell changes.
pub proof fn lemma_dead_grid_stays_dead(grid: GridView)
    requires
        grid.well_formed(),
        forall|i: int| 0 <= i < grid.cells.len() ==> grid.cells[i] == CellValue::Dead,
    ensures
        grid.next() == grid,
        grid.flipped(grid.next()) == Seq::<CellCoord>::empty(),
{
    assert forall|x: int, y: int| !grid.alive(x, y) by {
        if grid.contains(x, y) {
            lemma_index_in_range(grid.width, grid.height, x, y);
        }
    }
    assert forall|i: int| 0 <= i < grid.cells.len() implies grid.next().cells[i]
        == grid.cells[i] by {
        lemma_coord_on_grid(grid.width, grid.height, i);
        let x = i % grid.width as int;
        let y = i / grid.width as int;
        assert(grid.alive_neighbors(x, y) == 0);
    }
    assert(grid.next().cells =~= grid.cells);
    lemma_nothing_flips(grid);
}

/// Underpopulation: a cell with fewer than two live neighbours is dead in
/// the next generation. So a lone live cell dies.
pub proof fn lemma_lonely_cell_dies(grid: GridView, x: int, y: int)
    requires
        grid.well_formed(),
        grid.contains(x, y),
        grid.alive_neighbors(x, y) < 2,
    ensures
        grid.next().cell(x, y) == CellValue::Dead,
        !grid.next().alive(x, y),
{
    lemma_next_cell_on_grid(grid, x, y);
}

/// Whether `(x, y)` is one of the four cells of the block whose top left
/// cell is `(left, top)`.
pub open spec fn in_block(left: int, top: int, x: int, y: int) -> bool {
    left <= x <= left + 1 && top <= y <= top + 1
}

/// The grid whose only live cells are the block at `(left, top)`.
pub open spec fn block(width: nat, height: nat, left: int, top: int) -> GridView {
    drawn(width, height, |x: int, y: int| in_block(left, top, x, y))
}

/// The block is a still life: a grid whose only live cells are a block of
/// two by two is its own next generation.
pub proof fn lemma_block_is_still(width: nat, height: nat, left: int, top: int)
    requires
        0 <= left,
        left + 1 < width,
        0 <= top,
        top + 1 < height,
    ensures
        block(width, height, left, top).next() == block(width, height, left, top),
{
    let grid = block(width, height, left, top);
    let shape = |x: int, y: int| in_block(left, top, x, y);
    assert forall|x: int, y: int| grid.alive(x, y) == in_block(left, top, x, y) by {
        lemma_drawn_alive(width, height, shape, x, y);
    }
    lemma_drawn_alive(width, height, shape, 0, 0);
    assert forall|x: int, y: int| grid.contains(x, y) implies grid.next().alive(x, y)
        == grid.alive(x, y) by {
        lemma_next_cell_on_grid(grid, x, y);
        lemma_index_in_range(width, height, x, y);
    }
    assert(grid.next().well_formed());
    lemma_same_alive_same_grid(grid.next(), grid);
}

/// After any number of generations the block is still exactly the block,
/// and no generation changes a cell.
pub proof fn lemma_block_stays(width: nat, height: nat, left: int, top: int, turns: nat)
    requires
        0 <= left,
        left + 1 < width,
        0 <= top,
        top + 1 < height,
    ensures
        block(width, height, left, top).after(turns) == block(width, height, left, top),
        block(width, height, left, top).after(turns).flipped(
            block(width, height, left, top).after(turns).next(),
        ) == Seq::<CellCoord>::empty(),
    decreases turns,
{
    let grid = block(width, height, left, top);
    lemma_block_is_still(width, height, left, top);
    lemma_nothing_flips(grid);
    if turns > 0 {
        lemma_block_stays(width, height, left, top, (turns - 1) as nat);
    }
}

/// Whether `(cx, cy)` is one of the three cells in a row around `(x, y)`.
pub open spec fn in_row_of_three(x: int, y: int, cx: int, cy: int) -> bool {
    cy == y && x - 1 <= cx <= x + 1
}

/// Whether `(cx, cy)` is one of the three cells in a column around `(x, y)`.
pub open spec fn in_column_of_three(x: int, y: int, cx: int, cy: int) -> bool {
    cx == x && y - 1 <= cy <= y + 1
}

/// The grid whose only live cells are the three cells in a row around
/// `(x, y)`.
pub open spec fn blinker_across(width: nat, height: nat, x: int, y: int) -> GridView {
    drawn(width, height, |cx: int, cy: int| in_row_of_three(x, y, cx, cy))
}

/// The grid whose only live cells are the three cells in a column around
/// `(x, y)`.
pub open spec fn blinker_upright(width: nat, height: nat, x: int, y: int) -> GridView {
    drawn(width, height, |cx: int, cy: int| in_column_of_three(x, y, cx, cy))
}

/// The blinker oscillates with period two where its centre is away from the
/// edge of the grid: the row of three becomes the column of three around the
/// same centre, and the column becomes the row again.
pub proof fn lemma_blinker_turns(width: nat, height: nat, x: int, y: int)
    requires
        1 <= x,
        x + 1 < width,
        1 <= y,
        y + 1 < height,
    ensures
        blinker_across(width, height, x, y).next() == blinker_upright(width, height, x, y),
        blinker_upright(width, height, x, y).next() == blinker_across(width, height, x, y),
        blinker_across(width, height, x, y).after(2) == blinker_across(width, height, x, y),
{
    let across = blinker_across(width, height, x, y);
    let upright = blinker_upright(width, height, x, y);
    let row = |cx: int, cy: int| in_row_of_three(x, y, cx, cy);
    let column = |cx: int, cy: int| in_column_of_three(x, y, cx, cy);
    assert forall|cx: int, cy: int| across.alive(cx, cy) == in_row_of_three(x, y, cx, cy) by {
        lemma_drawn_alive(width, height, row, cx, cy);
    }
    assert forall|cx: int, cy: int| upright.alive(cx, cy) == in_column_of_three(
        x,
        y,
        cx,
        cy,
    ) by {
        lemma_drawn_alive(width, height, column, cx, cy);
    }
    lemma_drawn_alive(width, height, row, 0, 0);
    lemma_drawn_alive(width, height, column, 0, 0);
    assert forall|cx: int, cy: int| across.contains(cx, cy) implies across.next().alive(cx, cy)
        == upright.alive(cx, cy) by {
        lemma_next_cell_on_grid(across, cx, cy);
        lemma_index_in_range(width, height, cx, cy);
    }
    assert forall|cx: int, cy: int| upright.contains(cx, cy) implies upright.next().alive(cx, cy)
        == across.alive(cx, cy) by {
        lemma_next_cell_on_grid(upright, cx, cy);
        lemma_index_in_range(width, height, cx, cy);
    }
    lemma_same_alive_same_grid(across.next(), upright);
    lemma_same_alive_same_grid(upright.next(), across);
    assert(across.after(2) == across) by {
        reveal_with_fuel(GridView::after, 3);
    }
}

} // verus!
