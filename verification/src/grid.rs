//! The grid store: a dense row-major grid and its mathematical model.

use vstd::prelude::*;
use crate::cell::{CellCoord, CellValue};

verus! {

/// The mathematical grid: `cells[y * width + x]` is the cell in column `x` of
/// row `y`.
pub struct GridView {
    pub width: nat,
    pub height: nat,
    pub cells: Seq<CellValue>,
}

impl GridView {
    /// Every coordinate has exactly one cell.
    pub open spec fn well_formed(self) -> bool {
        self.cells.len() == self.width * self.height
    }

    /// `(x, y)` lies on the grid.
    pub open spec fn contains(self, x: int, y: int) -> bool {
        0 <= x < self.width && 0 <= y < self.height
    }

    /// The row-major index of `(x, y)`.
    pub open spec fn index(self, x: int, y: int) -> int {
        y * self.width + x
    }

    /// The coordinate whose row-major index is `i`.
    pub open spec fn coord(self, i: int) -> CellCoord {
        CellCoord { x: (i % self.width as int) as usize, y: (i / self.width as int) as usize }
    }

    /// The cell at `(x, y)`.
    pub open spec fn cell(self, x: int, y: int) -> CellValue {
        self.cells[self.index(x, y)]
    }

    /// `(x, y)` lies on the grid and its cell is alive. A position off the
    /// grid holds no cell, so it is never alive.
    pub open spec fn alive(self, x: int, y: int) -> bool {
        self.contains(x, y) && self.cell(x, y) == CellValue::Alive
    }

    /// Every coordinate of the grid, in row-major order.
    pub open spec fn coords(self) -> Seq<CellCoord> {
        Seq::new(self.cells.len(), |i: int| self.coord(i))
    }

    /// The coordinates of the live cells, in row-major order.
    pub open spec fn alive_cells(self) -> Seq<CellCoord> {
        self.coords().filter(|c: CellCoord| self.alive(c.x as int, c.y as int))
    }

    /// The coordinates at which `self` and `other` hold different cells, in
    /// row-major order.
    pub open spec fn flipped(self, other: GridView) -> Seq<CellCoord> {
        self.coords().filter(
            |c: CellCoord| self.cell(c.x as int, c.y as int) != other.cell(c.x as int, c.y as int),
        )
    }
}

/// Filtering one element more keeps that element or not, and leaves what was
/// kept before it as it was.
pub proof fn lemma_filter_next<A>(s: Seq<A>, pred: spec_fn(A) -> bool, k: int)
    requires
        0 <= k < s.len(),
    ensures
        s.take(k + 1).filter(pred) == if pred(s[k]) {
            s.take(k).filter(pred).push(s[k])
        } else {
            s.take(k).filter(pred)
        },
{
    reveal(Seq::filter);
    assert(s.take(k + 1).drop_last() =~= s.take(k));
}

/// Filtering nothing keeps nothing.
pub proof fn lemma_filter_none<A>(s: Seq<A>, pred: spec_fn(A) -> bool)
    ensures
        s.take(0).filter(pred) == Seq::<A>::empty(),
{
    reveal(Seq::filter);
    assert(s.take(0) =~= Seq::<A>::empty());
}

/// A row-major index built from a coordinate on the grid is in range.
pub proof fn lemma_index_in_range(width: nat, height: nat, x: int, y: int)
    requires
        0 <= x < width,
        0 <= y < height,
    ensures
        0 <= y * width + x < width * height,
{
    assert(y * width + x < width * height) by (nonlinear_arith)
        requires
            0 <= x < width,
            0 <= y < height,
    {
        assert((y + 1) * width <= height * width);
    }
    assert(0 <= y * width) by (nonlinear_arith)
        requires
            0 <= y,
            0 <= width,
    ;
}

/// Splitting a row-major index gives back the coordinate it was built from.
pub proof fn lemma_index_splits(width: nat, x: int, y: int)
    requires
        0 <= x < width,
        0 <= y,
    ensures
        (y * width + x) % (width as int) == x,
        (y * width + x) / (width as int) == y,
{
    vstd::arithmetic::div_mod::lemma_fundamental_div_mod_converse(y * width + x, width as int, y, x);
}

/// An index in range splits into a coordinate on the grid, from which it is
/// built again.
pub proof fn lemma_coord_on_grid(width: nat, height: nat, i: int)
    requires
        0 <= i < width * height,
    ensures
        0 <= i % (width as int) < width,
        0 <= i / (width as int) < height,
        (i / (width as int)) * width + i % (width as int) == i,
{
    assert(width > 0) by (nonlinear_arith)
        requires
            0 <= i < width * height,
    ;
    let w = width as int;
    vstd::arithmetic::div_mod::lemma_fundamental_div_mod(i, w);
    vstd::arithmetic::div_mod::lemma_mod_bound(i, w);
    assert(w * (i / w) == (i / w) * w) by (nonlinear_arith);
    assert(0 <= i / w < height) by (nonlinear_arith)
        requires
            0 <= i < w * height,
            w > 0,
            0 <= i % w < w,
            i == (i / w) * w + i % w,
    ;
}

/// The list of live cells holds a coordinate exactly if the cell there is
/// alive.
pub proof fn lemma_alive_cells_hold_the_live(grid: GridView, c: CellCoord)
    requires
        grid.well_formed(),
    ensures
        grid.alive_cells().contains(c) <==> grid.alive(c.x as int, c.y as int),
{
    let live = |c: CellCoord| grid.alive(c.x as int, c.y as int);
    let coords = grid.coords();
    if grid.alive_cells().contains(c) {
        let i = choose|i: int| 0 <= i < grid.alive_cells().len() && grid.alive_cells()[i] == c;
        coords.lemma_filter_pred(live, i);
    }
    if grid.alive(c.x as int, c.y as int) {
        lemma_index_in_range(grid.width, grid.height, c.x as int, c.y as int);
        lemma_index_splits(grid.width, c.x as int, c.y as int);
        let i = grid.index(c.x as int, c.y as int);
        assert(coords[i] == c);
        coords.lemma_filter_contains(live, i);
    }
}

/// The list of changed cells between two grids of one size holds a
/// coordinate exactly if it lies on the grid and the two cells there differ.
pub proof fn lemma_flipped_hold_the_changed(grid: GridView, other: GridView, c: CellCoord)
    requires
        grid.well_formed(),
        grid.width <= usize::MAX,
        grid.height <= usize::MAX,
    ensures
        grid.flipped(other).contains(c) <==> grid.contains(c.x as int, c.y as int) && grid.cell(
            c.x as int,
            c.y as int,
        ) != other.cell(c.x as int, c.y as int),
{
    let differs = |c: CellCoord|
        grid.cell(c.x as int, c.y as int) != other.cell(c.x as int, c.y as int);
    let coords = grid.coords();
    if grid.flipped(other).contains(c) {
        let kept = grid.flipped(other);
        let k = choose|k: int| 0 <= k < kept.len() && kept[k] == c;
        coords.lemma_filter_pred(differs, k);
        lemma_filter_keeps_members(coords, differs, k);
        let i = choose|i: int| 0 <= i < coords.len() && coords[i] == c;
        lemma_coord_on_grid(grid.width, grid.height, i);
    }
    if grid.contains(c.x as int, c.y as int) && differs(c) {
        lemma_index_in_range(grid.width, grid.height, c.x as int, c.y as int);
        lemma_index_splits(grid.width, c.x as int, c.y as int);
        let i = grid.index(c.x as int, c.y as int);
        assert(coords[i] == c);
        coords.lemma_filter_contains(differs, i);
    }
}

/// What a filter keeps was there before.
pub proof fn lemma_filter_keeps_members<A>(s: Seq<A>, pred: spec_fn(A) -> bool, k: int)
    requires
        0 <= k < s.filter(pred).len(),
    ensures
        s.contains(s.filter(pred)[k]),
    decreases s.len(),
{
    reveal(Seq::filter);
    if s.len() > 0 {
        let rest = s.drop_last().filter(pred);
        if k < rest.len() {
            lemma_filter_keeps_members(s.drop_last(), pred, k);
            let i = choose|i: int|
                0 <= i < s.drop_last().len() && s.drop_last()[i] == rest[k];
            assert(s[i] == rest[k]);
        } else {
            assert(s[s.len() - 1] == s.last());
        }
    }
}

/// A filter keeps exactly the elements at the positions `picks`, in their
/// order, where `picks` lists in ascending order the positions whose
/// elements pass.
pub proof fn lemma_filter_picks<A>(s: Seq<A>, pred: spec_fn(A) -> bool, picks: Seq<int>)
    requires
        forall|k: int| 0 <= k < picks.len() ==> 0 <= #[trigger] picks[k] < s.len(),
        forall|k: int| 0 <= k < picks.len() ==> pred(s[#[trigger] picks[k]]),
        forall|j: int, k: int| 0 <= j < k < picks.len() ==> #[trigger] picks[j] < #[trigger] picks[k],
        forall|i: int| 0 <= i < s.len() && pred(#[trigger] s[i]) ==> picks.contains(i),
    ensures
        s.filter(pred) == picks.map_values(|i: int| s[i]),
    decreases s.len(),
{
    reveal(Seq::filter);
    let kept = picks.map_values(|i: int| s[i]);
    if s.len() == 0 {
        if picks.len() > 0 {
            assert(0 <= picks[0] < s.len());
        }
        assert(s.filter(pred) =~= kept);
    } else {
        let last = s.len() - 1;
        let rest = s.drop_last();
        if pred(s[last]) {
            assert(picks.contains(last));
            let at = choose|k: int| 0 <= k < picks.len() && picks[k] == last;
            if at < picks.len() - 1 {
                assert(picks[at] < picks[picks.len() - 1]);
                assert(picks[picks.len() - 1] < s.len());
            }
            let fewer = picks.drop_last();
            assert forall|k: int| 0 <= k < fewer.len() implies 0 <= #[trigger] fewer[k]
                < rest.len() by {
                assert(picks[k] < picks[picks.len() - 1]);
            }
            assert forall|k: int| 0 <= k < fewer.len() implies pred(rest[#[trigger] fewer[k]]) by {
                assert(picks[k] < picks[picks.len() - 1]);
                assert(pred(s[picks[k]]));
            }
            assert forall|i: int| 0 <= i < rest.len() && pred(#[trigger] rest[i]) implies fewer.contains(
                i,
            ) by {
                assert(pred(s[i]));
                let k = choose|k: int| 0 <= k < picks.len() && picks[k] == i;
                assert(fewer[k] == i);
            }
            lemma_filter_picks(rest, pred, fewer);
            assert(s.filter(pred) =~= kept);
        } else {
            assert forall|k: int| 0 <= k < picks.len() implies 0 <= #[trigger] picks[k]
                < rest.len() by {
                assert(pred(s[picks[k]]));
            }
            assert forall|k: int| 0 <= k < picks.len() implies pred(rest[#[trigger] picks[k]]) by {
                assert(pred(s[picks[k]]));
            }
            assert forall|i: int| 0 <= i < rest.len() && pred(#[trigger] rest[i]) implies picks.contains(
                i,
            ) by {
                assert(pred(s[i]));
            }
            lemma_filter_picks(rest, pred, picks);
            assert(s.filter(pred) =~= kept);
        }
    }
}

/// A filter on a sequence without repeats keeps no element twice.
pub proof fn lemma_filter_keeps_distinct<A>(s: Seq<A>, pred: spec_fn(A) -> bool)
    requires
        s.no_duplicates(),
    ensures
        s.filter(pred).no_duplicates(),
    decreases s.len(),
{
    reveal(Seq::filter);
    if s.len() > 0 {
        let rest = s.drop_last();
        lemma_filter_keeps_distinct(rest, pred);
        let kept = rest.filter(pred);
        assert forall|k: int| 0 <= k < kept.len() implies kept[k] != s.last() by {
            lemma_filter_keeps_members(rest, pred, k);
            let i = choose|i: int| 0 <= i < rest.len() && rest[i] == kept[k];
            assert(s[i] == kept[k]);
        }
    }
}

/// No coordinate occurs twice among the coordinates of a grid, nor in its
/// list of live cells, nor in a list of changed cells.
pub proof fn lemma_cells_are_listed_once(grid: GridView, other: GridView)
    requires
        grid.well_formed(),
        grid.width <= usize::MAX,
        grid.height <= usize::MAX,
    ensures
        grid.coords().no_duplicates(),
        grid.alive_cells().no_duplicates(),
        grid.flipped(other).no_duplicates(),
{
    let coords = grid.coords();
    assert forall|i: int, j: int| 0 <= i < coords.len() && 0 <= j < coords.len() && i != j implies coords[i]
        != coords[j] by {
        lemma_coord_on_grid(grid.width, grid.height, i);
        lemma_coord_on_grid(grid.width, grid.height, j);
    }
    lemma_filter_keeps_distinct(coords, |c: CellCoord| grid.alive(c.x as int, c.y as int));
    lemma_filter_keeps_distinct(
        coords,
        |c: CellCoord| grid.cell(c.x as int, c.y as int) != other.cell(c.x as int, c.y as int),
    );
}

/// The grid store: `width * height` cells in row-major order.
pub struct Grid {
    width: usize,
    height: usize,
    cells: Vec<CellValue>,
}

impl View for Grid {
    type V = GridView;

    closed spec fn view(&self) -> GridView {
        GridView { width: self.width as nat, height: self.height as nat, cells: self.cells@ }
    }
}

impl Grid {
    #[verifier::type_invariant]
    spec fn rectangular(self) -> bool {
        self.cells.len() == self.width * self.height
    }

    /// A grid of `width` columns and `height` rows in which every cell is
    /// dead, unless it would hold more cells than can be addressed.
    pub fn new(width: usize, height: usize) -> (grid: Option<Grid>)
        ensures
            grid is Some <==> width * height <= usize::MAX,
            grid matches Some(g) ==> g@.width == width && g@.height == height && g@.well_formed()
                && forall|i: int| 0 <= i < g@.cells.len() ==> g@.cells[i] == CellValue::Dead,
    {
        match width.checked_mul(height) {
            Some(total) => Some(Grid { width, height, cells: vec![CellValue::Dead; total] }),
            None => None,
        }
    }

    /// The grid of `width` columns and `height` rows that holds `cells` in
    /// row-major order, where there is one cell for every coordinate.
    pub fn from_cells(width: usize, height: usize, cells: Vec<CellValue>) -> (grid: Option<Grid>)
        ensures
            grid is Some <==> cells.len() == width * height,
            grid matches Some(g) ==> g@ == (GridView {
                width: width as nat,
                height: height as nat,
                cells: cells@,
            }),
    {
        match width.checked_mul(height) {
            Some(total) => if cells.len() == total {
                Some(Grid { width, height, cells })
            } else {
                None
            },
            None => None,
        }
    }

    /// The number of columns.
    pub fn width(&self) -> (width: usize)
        ensures
            width == self@.width,
            self@.well_formed(),
    {
        proof {
            use_type_invariant(self);
        }
        self.width
    }

    /// The number of rows.
    pub fn height(&self) -> (height: usize)
        ensures
            height == self@.height,
            self@.well_formed(),
    {
        proof {
            use_type_invariant(self);
        }
        self.height
    }

    /// Reads the cell at `(x, y)`.
    pub fn get(&self, x: usize, y: usize) -> (value: CellValue)
        requires
            self@.contains(x as int, y as int),
        ensures
            value == self@.cell(x as int, y as int),
    {
        proof {
            use_type_invariant(self);
            lemma_index_in_range(self.width as nat, self.height as nat, x as int, y as int);
        }
        self.cells[y * self.width + x]
    }

    /// Writes the cell at `(x, y)`.
    pub fn set(&mut self, x: usize, y: usize, value: CellValue)
        requires
            old(self)@.contains(x as int, y as int),
        ensures
            final(self)@.width == old(self)@.width,
            final(self)@.height == old(self)@.height,
            final(self)@.cells == old(self)@.cells.update(
                old(self)@.index(x as int, y as int),
                value,
            ),
    {
        proof {
            use_type_invariant(&*self);
            lemma_index_in_range(self.width as nat, self.height as nat, x as int, y as int);
        }
        let index = y * self.width + x;
        self.cells[index] = value;
    }

    /// All cells in row-major order, for reading only.
    pub fn snapshot(&self) -> (cells: &Vec<CellValue>)
        ensures
            cells@ == self@.cells,
            self@.well_formed(),
    {
        proof {
            use_type_invariant(self);
        }
        &self.cells
    }

    /// Swaps in a whole new grid of the same size.
    pub fn replace(&mut self, new_cells: Vec<CellValue>)
        requires
            new_cells.len() == old(self)@.cells.len(),
        ensures
            final(self)@.width == old(self)@.width,
            final(self)@.height == old(self)@.height,
            final(self)@.cells == new_cells@,
    {
        proof {
            use_type_invariant(&*self);
        }
        self.cells = new_cells;
    }

    /// The coordinates of the live cells, in row-major order.
    pub fn alive_cells(&self) -> (alive: Vec<CellCoord>)
        ensures
            alive@ == self@.alive_cells(),
    {
        proof {
            use_type_invariant(self);
        }
        let ghost view = self@;
        let ghost coords = view.coords();
        let ghost pred = |c: CellCoord| view.alive(c.x as int, c.y as int);
        let mut alive: Vec<CellCoord> = Vec::new();
        let mut y: usize = 0;
        proof {
            lemma_filter_none(coords, pred);
            assert(0 * self.width == 0) by (nonlinear_arith);
        }
        while y < self.height
            invariant
                y <= self.height,
                self.cells.len() == self.width * self.height,
                view == self@,
                coords == view.coords(),
                pred == |c: CellCoord| view.alive(c.x as int, c.y as int),
                alive@ == coords.take(y * self.width).filter(pred),
            decreases self.height - y,
        {
            let mut x: usize = 0;
            while x < self.width
                invariant
                    y < self.height,
                    x <= self.width,
                    self.cells.len() == self.width * self.height,
                    view == self@,
                    coords == view.coords(),
                    pred == |c: CellCoord| view.alive(c.x as int, c.y as int),
                    alive@ == coords.take(y * self.width + x).filter(pred),
                decreases self.width - x,
            {
                proof {
                    lemma_index_in_range(self.width as nat, self.height as nat, x as int, y as int);
                    lemma_index_splits(self.width as nat, x as int, y as int);
                    lemma_filter_next(coords, pred, y * self.width + x);
                }
                let index = y * self.width + x;
                if self.cells[index] == CellValue::Alive {
                    alive.push(CellCoord { x, y });
                }
                x += 1;
            }
            proof {
                assert((y + 1) * self.width == y * self.width + self.width) by (nonlinear_arith);
            }
            y += 1;
        }
        proof {
            assert(coords.take(self.height * self.width) =~= coords) by {
                assert(self.height * self.width == self.width * self.height) by (nonlinear_arith);
            }
        }
        alive
    }

    /// Diffing: takes over `staging` as the grid and returns, in row-major
    /// order, the coordinates whose cells changed by it.
    pub fn commit(&mut self, staging: &Vec<CellValue>) -> (flipped: Vec<CellCoord>)
        requires
            staging.len() == old(self)@.cells.len(),
        ensures
            final(self)@.width == old(self)@.width,
            final(self)@.height == old(self)@.height,
            final(self)@.cells == staging@,
            flipped@ == old(self)@.flipped(final(self)@),
    {
        proof {
            use_type_invariant(&*self);
        }
        let ghost before = self@;
        let ghost after = GridView { width: before.width, height: before.height, cells: staging@ };
        let ghost coords = before.coords();
        let ghost pred = |c: CellCoord|
            before.cell(c.x as int, c.y as int) != after.cell(c.x as int, c.y as int);
        let mut flipped: Vec<CellCoord> = Vec::new();
        let mut y: usize = 0;
        proof {
            lemma_filter_none(coords, pred);
            assert(0 * self.width == 0) by (nonlinear_arith);
        }
        while y < self.height
            invariant
                y <= self.height,
                self.cells.len() == self.width * self.height,
                staging.len() == self.cells.len(),
                self.width == before.width,
                self.height == before.height,
                before.cells.len() == self.cells.len(),
                after == (GridView { width: before.width, height: before.height, cells: staging@ }),
                coords == before.coords(),
                pred == |c: CellCoord|
                    before.cell(c.x as int, c.y as int) != after.cell(c.x as int, c.y as int),
                flipped@ == coords.take(y * self.width).filter(pred),
                forall|i: int| 0 <= i < y * self.width ==> self.cells@[i] == staging@[i],
                forall|i: int|
                    y * self.width <= i < self.cells.len() ==> self.cells@[i] == before.cells[i],
            decreases self.height - y,
        {
            let mut x: usize = 0;
            while x < self.width
                invariant
                    y < self.height,
                    x <= self.width,
                    self.cells.len() == self.width * self.height,
                    staging.len() == self.cells.len(),
                    self.width == before.width,
                    self.height == before.height,
                    before.cells.len() == self.cells.len(),
                    after == (GridView {
                        width: before.width,
                        height: before.height,
                        cells: staging@,
                    }),
                    coords == before.coords(),
                    pred == |c: CellCoord|
                        before.cell(c.x as int, c.y as int) != after.cell(c.x as int, c.y as int),
                    flipped@ == coords.take(y * self.width + x).filter(pred),
                    forall|i: int| 0 <= i < y * self.width + x ==> self.cells@[i] == staging@[i],
                    forall|i: int|
                        y * self.width + x <= i < self.cells.len() ==> self.cells@[i]
                            == before.cells[i],
                decreases self.width - x,
            {
                proof {
                    lemma_index_in_range(self.width as nat, self.height as nat, x as int, y as int);
                    lemma_index_splits(self.width as nat, x as int, y as int);
                    lemma_filter_next(coords, pred, y * self.width + x);
                }
                let index = y * self.width + x;
                if self.cells[index] != staging[index] {
                    flipped.push(CellCoord { x, y });
                    self.cells[index] = staging[index];
                }
                x += 1;
            }
            proof {
                assert((y + 1) * self.width == y * self.width + self.width) by (nonlinear_arith);
            }
            y += 1;
        }
        proof {
            assert(self.height * self.width == self.width * self.height) by (nonlinear_arith);
            assert(coords.take(self.height * self.width) =~= coords);
            assert(self.cells@ =~= staging@);
        }
        flipped
    }
}

} // verus!
