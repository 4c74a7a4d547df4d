//! What a complete run reports to its observer: in general, and on some
//! well-known grids.

use vstd::prelude::*;
use crate::cell::{CellCoord, CellValue};
use crate::channel::Action;
use crate::distributor::{
    cells_from, ended, initial_grid, lemma_run_reports_its_events, reported_in, run_actions,
};
use crate::event::{
    closing_event, completed_turns_of, generation_events, lemma_one_completion_per_turn,
    lemma_run_of_no_turns, opening_event, run_events, turn_events, EventView, Params,
};
use crate::grid::{
    lemma_alive_cells_hold_the_live, lemma_cells_are_listed_once, lemma_coord_on_grid,
    lemma_filter_picks, lemma_index_in_range, lemma_index_splits, GridView,
};
use crate::patterns::{
    block, in_block, lemma_block_is_still, lemma_dead_grid_stays_dead, lemma_drawn_alive,
    lemma_nothing_flips,
};

verus! {

/// The completions of the turns `1..=turns`, with no changed cell reported
/// between them.
pub open spec fn quiet_turns(turns: nat) -> Seq<EventView> {
    Seq::new(turns, |i: int| EventView::TurnComplete { completed_turns: (i + 1) as nat })
}

/// The events of a run of `turns` generations in which no cell ever changes
/// and whose final live cells are `alive`.
pub open spec fn quiet_run(turns: nat, alive: Seq<CellCoord>) -> Seq<EventView> {
    seq![opening_event()] + quiet_turns(turns) + seq![
        EventView::FinalTurnComplete { completed_turns: turns, alive },
        closing_event(turns),
    ]
}

/// The coordinate at the row-major index `i` of a grid lies on the grid, and
/// the cell there is the cell at `i`.
proof fn lemma_coord_cell(grid: GridView, i: int)
    requires
        grid.well_formed(),
        grid.width <= usize::MAX,
        grid.height <= usize::MAX,
        0 <= i < grid.cells.len(),
    ensures
        grid.contains(grid.coords()[i].x as int, grid.coords()[i].y as int),
        grid.index(grid.coords()[i].x as int, grid.coords()[i].y as int) == i,
        grid.cell(grid.coords()[i].x as int, grid.coords()[i].y as int) == grid.cells[i],
{
    lemma_coord_on_grid(grid.width, grid.height, i);
}

/// A still life runs quietly: where the next generation of a grid is the
/// grid itself, every generation is, no turn reports a changed cell, and the
/// final live cells are those of the grid.
pub proof fn lemma_still_life_runs_quietly(grid: GridView, turns: nat)
    requires
        grid.next() == grid,
    ensures
        grid.after(turns) == grid,
        generation_events(grid, turns) == quiet_turns(turns),
        run_events(grid, turns) == quiet_run(turns, grid.alive_cells()),
    decreases turns,
{
    if turns > 0 {
        let earlier = (turns - 1) as nat;
        lemma_still_life_runs_quietly(grid, earlier);
        lemma_nothing_flips(grid);
        assert(turn_events(grid, turns) =~= seq![
            EventView::TurnComplete { completed_turns: turns },
        ]);
        assert(generation_events(grid, turns) =~= quiet_turns(turns));
    } else {
        assert(generation_events(grid, turns) =~= quiet_turns(turns));
    }
    assert(run_events(grid, turns) =~= quiet_run(turns, grid.alive_cells()));
}

/// A complete run on a grid without a live cell reports the start, the
/// completion of each turn and no changed cell, a final grid without a live
/// cell, and the end; the grid is the same after every generation.
pub proof fn lemma_dead_grid_run(params: Params, cells: Seq<CellValue>)
    requires
        cells.len() == params.image_width * params.image_height,
        forall|i: int| 0 <= i < cells.len() ==> cells[i] == CellValue::Dead,
    ensures
        reported_in(run_actions(params, cells)) == quiet_run(
            params.turns as nat,
            Seq::<CellCoord>::empty(),
        ),
        initial_grid(params, cells).after(params.turns as nat) == initial_grid(params, cells),
{
    let grid = initial_grid(params, cells);
    lemma_run_reports_its_events(params, cells);
    lemma_dead_grid_stays_dead(grid);
    lemma_still_life_runs_quietly(grid, params.turns as nat);
    let live = |c: CellCoord| grid.alive(c.x as int, c.y as int);
    assert forall|i: int| 0 <= i < grid.coords().len() implies !live(#[trigger] grid.coords()[i]) by {
        lemma_coord_cell(grid, i);
    }
    lemma_filter_picks(grid.coords(), live, Seq::<int>::empty());
    assert(grid.alive_cells() =~= Seq::<CellCoord>::empty());
}

/// Underpopulation in a run: a complete run of one turn on a grid whose
/// only live cell is at `(x, y)`, wherever on the grid that is, reports the
/// start, that cell as the one changed cell, the completion of the turn, a
/// final grid without a live cell, and the end.
pub proof fn lemma_lone_cell_run(params: Params, cells: Seq<CellValue>, x: int, y: int)
    requires
        params.turns == 1,
        cells.len() == params.image_width * params.image_height,
        0 <= x < params.image_width,
        0 <= y < params.image_height,
        forall|i: int|
            0 <= i < cells.len() ==> (cells[i] == CellValue::Alive <==> i == y
                * params.image_width + x),
    ensures
        reported_in(run_actions(params, cells)) == seq![
            opening_event(),
            EventView::CellsFlipped {
                completed_turns: 1,
                cells: seq![CellCoord { x: x as usize, y: y as usize }],
            },
            EventView::TurnComplete { completed_turns: 1 },
            EventView::FinalTurnComplete { completed_turns: 1, alive: Seq::<CellCoord>::empty() },
            closing_event(1),
        ],
{
    let grid = initial_grid(params, cells);
    let next = grid.next();
    let home = y * params.image_width + x;
    lemma_run_reports_its_events(params, cells);
    lemma_index_in_range(grid.width, grid.height, x, y);
    lemma_index_splits(grid.width, x, y);
    assert forall|cx: int, cy: int| grid.alive(cx, cy) == (cx == x && cy == y) by {
        if grid.contains(cx, cy) {
            lemma_index_in_range(grid.width, grid.height, cx, cy);
            lemma_index_splits(grid.width, cx, cy);
        }
    }
    assert forall|i: int| 0 <= i < next.cells.len() implies next.cells[i] == CellValue::Dead by {
        lemma_coord_on_grid(grid.width, grid.height, i);
        let cx = i % grid.width as int;
        let cy = i / grid.width as int;
        assert(grid.alive_neighbors(cx, cy) <= 1);
    }
    let differs = |c: CellCoord|
        grid.cell(c.x as int, c.y as int) != next.cell(c.x as int, c.y as int);
    assert forall|i: int| 0 <= i < grid.coords().len() implies (differs(
        #[trigger] grid.coords()[i],
    ) <==> i == home) by {
        lemma_coord_cell(grid, i);
    }
    let picks = seq![home];
    assert(picks[0] == home);
    assert forall|i: int| 0 <= i < grid.coords().len() && differs(
        #[trigger] grid.coords()[i],
    ) implies picks.contains(i) by {
        assert(picks[0] == i);
    }
    lemma_filter_picks(grid.coords(), differs, picks);
    let flipped = grid.flipped(next);
    assert(flipped =~= seq![CellCoord { x: x as usize, y: y as usize }]) by {
        lemma_coord_cell(grid, home);
        assert(picks.map_values(|i: int| grid.coords()[i])[0] == grid.coords()[home]);
    }
    let live = |c: CellCoord| next.alive(c.x as int, c.y as int);
    assert(next.coords() =~= grid.coords());
    assert forall|i: int| 0 <= i < next.coords().len() implies !live(#[trigger] next.coords()[i]) by {
        lemma_coord_cell(next, i);
    }
    lemma_filter_picks(next.coords(), live, Seq::<int>::empty());
    assert(next.alive_cells() =~= Seq::<CellCoord>::empty());
    assert(grid.after(1) == next) by {
        reveal_with_fuel(GridView::after, 2);
    }
    assert(generation_events(grid, 1) =~= turn_events(grid, 1)) by {
        reveal_with_fuel(generation_events, 2);
    }
    assert(run_events(grid, 1) =~= seq![
        opening_event(),
        EventView::CellsFlipped { completed_turns: 1, cells: flipped },
        EventView::TurnComplete { completed_turns: 1 },
        EventView::FinalTurnComplete { completed_turns: 1, alive: Seq::<CellCoord>::empty() },
        closing_event(1),
    ]);
}

/// The four cells of the block whose top left cell is `(left, top)`, in
/// row-major order.
pub open spec fn block_cells(left: int, top: int) -> Seq<CellCoord> {
    seq![
        CellCoord { x: left as usize, y: top as usize },
        CellCoord { x: (left + 1) as usize, y: top as usize },
        CellCoord { x: left as usize, y: (top + 1) as usize },
        CellCoord { x: (left + 1) as usize, y: (top + 1) as usize },
    ]
}

/// The live cells of a grid whose only live cells are a block are the four
/// cells of the block, in row-major order.
pub proof fn lemma_block_alive_cells(width: nat, height: nat, left: int, top: int)
    requires
        0 <= left,
        left + 1 < width <= usize::MAX,
        0 <= top,
        top + 1 < height <= usize::MAX,
    ensures
        block(width, height, left, top).alive_cells() == block_cells(left, top),
{
    let grid = block(width, height, left, top);
    let shape = |x: int, y: int| in_block(left, top, x, y);
    let live = |c: CellCoord| grid.alive(c.x as int, c.y as int);
    let coords = grid.coords();
    let first = top * width + left;
    let second = (top + 1) * width + left;
    let picks = seq![first, first + 1, second, second + 1];
    lemma_drawn_alive(width, height, shape, 0, 0);
    assert(second == first + width) by (nonlinear_arith)
        requires
            first == top * width + left,
            second == (top + 1) * width + left,
    ;
    lemma_index_in_range(width, height, left, top);
    lemma_index_in_range(width, height, left + 1, top + 1);
    assert forall|i: int| 0 <= i < coords.len() implies (live(#[trigger] coords[i])
        <==> picks.contains(i)) by {
        lemma_coord_cell(grid, i);
        let c = coords[i];
        let x = c.x as int;
        let y = c.y as int;
        lemma_drawn_alive(width, height, shape, x, y);
        assert(i == y * width + x);
        if y == top {
            assert(i == first + (x - left));
        } else if y == top + 1 {
            assert(i == second + (x - left));
        } else if y < top {
            assert(i < first) by (nonlinear_arith)
                requires
                    i == y * width + x,
                    first == top * width + left,
                    0 <= x < width,
                    0 <= y < top,
                    0 <= left,
            ;
        } else {
            assert(i > second + 1) by (nonlinear_arith)
                requires
                    i == y * width + x,
                    second == (top + 1) * width + left,
                    0 <= x,
                    left + 1 < width,
                    y > top + 1,
            ;
        }
        if live(c) {
            assert(picks[0] == first && picks[1] == first + 1 && picks[2] == second && picks[3]
                == second + 1);
        }
        if picks.contains(i) {
            let k = choose|k: int| 0 <= k < picks.len() && picks[k] == i;
            assert(k == 0 || k == 1 || k == 2 || k == 3);
        }
    }
    assert forall|k: int| 0 <= k < picks.len() implies 0 <= #[trigger] picks[k] < coords.len() by {
        assert(k == 0 || k == 1 || k == 2 || k == 3);
    }
    assert forall|k: int| 0 <= k < picks.len() implies live(coords[#[trigger] picks[k]]) by {
        assert(picks.contains(picks[k]));
    }
    lemma_filter_picks(coords, live, picks);
    let kept = picks.map_values(|i: int| coords[i]);
    lemma_index_splits(width, left, top);
    lemma_index_splits(width, left + 1, top);
    lemma_index_splits(width, left, top + 1);
    lemma_index_splits(width, left + 1, top + 1);
    assert(first + 1 == top * width + (left + 1));
    assert(second + 1 == (top + 1) * width + (left + 1));
    assert(kept[0] == coords[first]);
    assert(kept[1] == coords[first + 1]);
    assert(kept[2] == coords[second]);
    assert(kept[3] == coords[second + 1]);
    assert(kept =~= block_cells(left, top));
}

/// The block in a run: a complete run of any number of turns on a grid
/// whose only live cells are a block reports no changed cell in any turn,
/// and as the final live cells exactly the four cells of the block.
pub proof fn lemma_block_run(params: Params, left: int, top: int)
    requires
        0 <= left,
        left + 1 < params.image_width,
        0 <= top,
        top + 1 < params.image_height,
    ensures
        reported_in(
            run_actions(
                params,
                block(params.image_width as nat, params.image_height as nat, left, top).cells,
            ),
        ) == quiet_run(params.turns as nat, block_cells(left, top)),
{
    let width = params.image_width as nat;
    let height = params.image_height as nat;
    let grid = block(width, height, left, top);
    assert(grid == initial_grid(params, grid.cells));
    lemma_run_reports_its_events(params, grid.cells);
    lemma_block_is_still(width, height, left, top);
    lemma_still_life_runs_quietly(grid, params.turns as nat);
    lemma_block_alive_cells(width, height, left, top);
}

/// Complete runs that differ only in their number of workers, on the same
/// input, make the same exchanges in the same order: the same reports of
/// changed cells, the same completions, the same final live cells.
pub proof fn lemma_complete_runs_agree(
    one: Params,
    other: Params,
    one_history: Seq<Action>,
    other_history: Seq<Action>,
)
    requires
        one.turns == other.turns,
        one.image_width == other.image_width,
        one.image_height == other.image_height,
        ended(
            Seq::<Action>::empty(),
            one_history,
            run_actions(
                one,
                cells_from(one_history, 0, (one.image_width * one.image_height) as nat),
            ),
            Ok(()),
        ),
        ended(
            Seq::<Action>::empty(),
            other_history,
            run_actions(
                other,
                cells_from(other_history, 0, (other.image_width * other.image_height) as nat),
            ),
            Ok(()),
        ),
        cells_from(one_history, 0, (one.image_width * one.image_height) as nat) == cells_from(
            other_history,
            0,
            (other.image_width * other.image_height) as nat,
        ),
    ensures
        one_history == other_history,
        reported_in(one_history) == reported_in(other_history),
{
    let cells = cells_from(one_history, 0, (one.image_width * one.image_height) as nat);
    assert(one_history =~= run_actions(one, cells));
    assert(other_history =~= run_actions(other, cells));
}

/// A complete run of no turns reports the start, the live cells of its
/// input as the final ones, and the end. The final list holds each live
/// cell of the input once and nothing else; no turn completes and no changed
/// cell is reported.
pub proof fn lemma_no_turns_run(params: Params, cells: Seq<CellValue>)
    requires
        params.turns == 0,
        cells.len() == params.image_width * params.image_height,
    ensures
        reported_in(run_actions(params, cells)) == seq![
            opening_event(),
            EventView::FinalTurnComplete {
                completed_turns: 0,
                alive: initial_grid(params, cells).alive_cells(),
            },
            closing_event(0),
        ],
        initial_grid(params, cells).alive_cells().no_duplicates(),
        forall|c: CellCoord|
            #[trigger] initial_grid(params, cells).alive_cells().contains(c) <==> initial_grid(
                params,
                cells,
            ).alive(c.x as int, c.y as int),
{
    let grid = initial_grid(params, cells);
    lemma_run_reports_its_events(params, cells);
    lemma_run_of_no_turns(grid);
    lemma_cells_are_listed_once(grid, grid);
    assert forall|c: CellCoord| #[trigger] grid.alive_cells().contains(c) <==> grid.alive(
        c.x as int,
        c.y as int,
    ) by {
        lemma_alive_cells_hold_the_live(grid, c);
    }
}

/// In the events of a run, every report of changed cells names at least one
/// cell and is followed at once by the completion of its turn.
pub proof fn lemma_flips_precede_completion(initial: GridView, turns: nat, i: int)
    requires
        0 <= i < generation_events(initial, turns).len(),
        generation_events(initial, turns)[i] is CellsFlipped,
    ensures
        i + 1 < generation_events(initial, turns).len(),
        generation_events(initial, turns)[i]->CellsFlipped_cells.len() > 0,
        generation_events(initial, turns)[i + 1] == (EventView::TurnComplete {
            completed_turns: generation_events(initial, turns)[i]->CellsFlipped_completed_turns,
        }),
    decreases turns,
{
    if turns > 0 {
        let earlier = generation_events(initial, (turns - 1) as nat);
        if i < earlier.len() {
            lemma_flips_precede_completion(initial, (turns - 1) as nat, i);
        }
    }
}

/// A complete run completes each of its turns once: the completions that
/// it reports carry the numbers `1, 2, ..., turns` in this order. Every
/// report of changed cells stands directly before the completion of its
/// turn, and all of these stand behind the start and before the final
/// report.
pub proof fn lemma_run_completes_each_turn(params: Params, cells: Seq<CellValue>)
    ensures
        completed_turns_of(reported_in(run_actions(params, cells))) == Seq::new(
            params.turns as nat,
            |i: int| (i + 1) as nat,
        ),
        ({
            let events = reported_in(run_actions(params, cells));
            let initial = initial_grid(params, cells);
            &&& events.len() >= 3
            &&& events[0] == opening_event()
            &&& events[events.len() - 2] is FinalTurnComplete
            &&& events[events.len() - 1] == closing_event(params.turns as nat)
            &&& events.subrange(1, events.len() - 2) == generation_events(
                initial,
                params.turns as nat,
            )
            &&& forall|i: int|
                0 <= i < events.len() && #[trigger] events[i] is CellsFlipped ==> 0 < i
                    < events.len() - 3 && events[i + 1] == (EventView::TurnComplete {
                    completed_turns: events[i]->CellsFlipped_completed_turns,
                })
        }),
{
    let initial = initial_grid(params, cells);
    let turns = params.turns as nat;
    let events = reported_in(run_actions(params, cells));
    let middle = generation_events(initial, turns);
    lemma_run_reports_its_events(params, cells);
    lemma_one_completion_per_turn(initial, turns);
    assert(events.subrange(1, events.len() - 2) =~= middle);
    assert forall|i: int| 0 <= i < events.len() && #[trigger] events[i] is CellsFlipped implies 0
        < i < events.len() - 3 && events[i + 1] == (EventView::TurnComplete {
        completed_turns: events[i]->CellsFlipped_completed_turns,
    }) by {
        assert(events[i] == middle[i - 1]);
        lemma_flips_precede_completion(initial, turns, i - 1);
        assert(events[i + 1] == middle[i]);
    }
}

} // verus!
