//! The run: load the grid, compute the generations, report each of them,
//! then report the final grid and wait for the collaborator to be idle.

use vstd::prelude::*;
use flume::{Receiver, Sender};
use crate::cell::{CellCoord, CellValue};
use crate::channel::{
    blamed, cell_channel_limit, idle_channel_limit, Action, DistributorError, Link,
};
use crate::event::{
    closing_event, final_event, generation_events, opening_event, run_events, turn_events,
    turn_report, Event, EventView, IoCommand, Params, State,
};
use crate::grid::{lemma_index_in_range, Grid, GridView};
use crate::turn::step;

verus! {

/// The channel ends that a run is started with. `K` is what the display
/// sends for a pressed key.
#[verifier::reject_recursive_types(K)]
pub struct DistributorChannels<K> {
    /// Where the run reports to its observer. A run needs it.
    pub events: Option<Sender<Event>>,
    /// Where the display sends the keys that were pressed; a run does not
    /// read it.
    pub key_presses: Option<Receiver<K>>,
    /// Where the run asks for input and for the idle check. A run needs it.
    pub io_command: Option<Sender<IoCommand>>,
    /// Where the idle check is acknowledged. A run needs it.
    pub io_idle: Option<Receiver<bool>>,
    /// Where a file name is announced; a run does not use it.
    pub io_filename: Option<Sender<String>>,
    /// Where the cells of the initial grid arrive.
    pub io_input: Option<Receiver<CellValue>>,
    /// Where the cells of a grid to store are sent; a run does not use it.
    pub io_output: Option<Sender<CellValue>>,
}

/// The grid that a run with `params` starts from when `cells` arrived as its
/// input.
pub open spec fn initial_grid(params: Params, cells: Seq<CellValue>) -> GridView {
    GridView { width: params.image_width as nat, height: params.image_height as nat, cells }
}

/// The exchanges that load `cells`: the request for the input, then one
/// cell after the other.
pub open spec fn loading(cells: Seq<CellValue>) -> Seq<Action> {
    seq![Action::Asked(IoCommand::IoInput)] + cells.map_values(|c: CellValue| Action::Took(c))
}

/// The exchanges that report `events`, one after the other.
pub open spec fn reports(events: Seq<EventView>) -> Seq<Action> {
    events.map_values(|e: EventView| Action::Reported(e))
}

/// The exchanges of a run with `params` from its start to the completion of
/// generation `done`: it loads `cells`, announces the start, and reports the
/// generations `1..=done`.
pub open spec fn progress(params: Params, cells: Seq<CellValue>, done: nat) -> Seq<Action> {
    loading(cells) + reports(
        seq![opening_event()] + generation_events(initial_grid(params, cells), done),
    )
}

/// The exchanges that end a run of `turns` generations whose final live
/// cells are `alive`: the final report, the request for the idle check, its
/// acknowledgment, and only then the closing announcement.
pub open spec fn closing(alive: Seq<CellCoord>, turns: nat) -> Seq<Action> {
    seq![
        Action::Reported(EventView::FinalTurnComplete { completed_turns: turns, alive }),
        Action::Asked(IoCommand::IoCheckIdle),
        Action::Acknowledged,
        Action::Reported(closing_event(turns)),
    ]
}

/// Every exchange of a complete run with `params` whose input delivered
/// `cells`, in the order in which the run makes them.
pub open spec fn run_actions(params: Params, cells: Seq<CellValue>) -> Seq<Action> {
    progress(params, cells, params.turns as nat) + closing(
        initial_grid(params, cells).after(params.turns as nat).alive_cells(),
        params.turns as nat,
    )
}

/// The cell that an exchange delivered.
pub open spec fn cell_of(action: Action) -> CellValue {
    match action {
        Action::Took(cell) => cell,
        _ => CellValue::Dead,
    }
}

/// The `total` cells that `history` holds behind the request at `start`.
pub open spec fn cells_from(history: Seq<Action>, start: nat, total: nat) -> Seq<CellValue> {
    Seq::new(total, |i: int| cell_of(history[start + 1 + i]))
}

/// The exchanges `whole` were begun after `before` and stopped before they
/// were all made: `after` holds a beginning of them and no more, and `error`
/// is the failure of the first exchange that is missing.
pub open spec fn stopped(
    before: Seq<Action>,
    after: Seq<Action>,
    whole: Seq<Action>,
    error: DistributorError,
) -> bool {
    let made = after.len() - before.len();
    &&& 0 <= made < whole.len()
    &&& after == before + whole.take(made)
    &&& error == blamed(whole[made])
}

/// How an attempt at the exchanges `whole` went that turned the history
/// `before` into `after`: either all of them were made, in their order, or
/// the first that failed ended the attempt.
pub open spec fn ended(
    before: Seq<Action>,
    after: Seq<Action>,
    whole: Seq<Action>,
    outcome: Result<(), DistributorError>,
) -> bool {
    match outcome {
        Ok(()) => after == before + whole,
        Err(error) => stopped(before, after, whole, error),
    }
}

/// The events that `actions` reported, in their order.
pub open spec fn reported_in(actions: Seq<Action>) -> Seq<EventView> {
    actions.filter(|a: Action| a is Reported).map_values(|a: Action| a->Reported_0)
}

/// The exchanges of a run do not depend on its number of workers: runs
/// that differ in nothing else report the same events, the same final live
/// cells among them.
pub proof fn lemma_run_ignores_threads(one: Params, other: Params, cells: Seq<CellValue>)
    requires
        one.turns == other.turns,
        one.image_width == other.image_width,
        one.image_height == other.image_height,
    ensures
        run_actions(one, cells) == run_actions(other, cells),
{
}

/// The events of the first generations of a run are the beginning of the
/// events of all its generations.
pub proof fn lemma_generation_events_grow(initial: GridView, fewer: nat, turns: nat)
    requires
        fewer <= turns,
    ensures
        generation_events(initial, fewer).is_prefix_of(generation_events(initial, turns)),
    decreases turns,
{
    if fewer < turns {
        lemma_generation_events_grow(initial, fewer, (turns - 1) as nat);
        let part = generation_events(initial, fewer);
        assert(part =~= generation_events(initial, turns).subrange(0, part.len() as int));
    } else {
        let part = generation_events(initial, fewer);
        assert(part =~= part.subrange(0, part.len() as int));
    }
}

/// What begins `all` still begins it behind a common head and before any
/// tail.
proof fn lemma_begins_between<A>(head: Seq<A>, part: Seq<A>, all: Seq<A>, tail: Seq<A>)
    requires
        part.is_prefix_of(all),
    ensures
        (head + part).is_prefix_of(head + all + tail),
{
    assert forall|i: int| 0 <= i < (head + part).len() implies (head + part)[i] == (head + all
        + tail)[i] by {
        if i >= head.len() {
            assert(all.subrange(0, part.len() as int)[i - head.len()] == all[i - head.len()]);
        }
    }
    assert(head + part =~= (head + all + tail).subrange(0, (head + part).len() as int));
}

/// Reports of a beginning of some events are a beginning of the reports of
/// those events.
proof fn lemma_reports_begin(part: Seq<EventView>, all: Seq<EventView>)
    requires
        part.is_prefix_of(all),
    ensures
        reports(part).is_prefix_of(reports(all)),
{
    assert forall|i: int| 0 <= i < part.len() implies reports(part)[i] == reports(all)[i] by {
        assert(all.subrange(0, part.len() as int)[i] == all[i]);
    }
    assert(reports(part) =~= reports(all).subrange(0, part.len() as int));
}

/// The exchanges up to the completion of a generation are a beginning of the
/// exchanges of the whole run, and begin with the loading of the cells.
proof fn lemma_progress_begins(params: Params, cells: Seq<CellValue>, done: nat)
    requires
        done <= params.turns,
    ensures
        progress(params, cells, done).is_prefix_of(run_actions(params, cells)),
        loading(cells).is_prefix_of(progress(params, cells, done)),
        loading(cells).is_prefix_of(run_actions(params, cells)),
{
    let initial = initial_grid(params, cells);
    let turns = params.turns as nat;
    let open = seq![opening_event()];
    let none = Seq::<EventView>::empty();
    lemma_generation_events_grow(initial, done, turns);
    lemma_begins_between(open, generation_events(initial, done), generation_events(initial, turns), none);
    assert(open + generation_events(initial, turns) + none =~= open + generation_events(
        initial,
        turns,
    ));
    lemma_reports_begin(
        open + generation_events(initial, done),
        open + generation_events(initial, turns),
    );
    let tail = closing(initial.after(turns).alive_cells(), turns);
    lemma_begins_between(
        loading(cells),
        reports(open + generation_events(initial, done)),
        reports(open + generation_events(initial, turns)),
        tail,
    );
    let first = progress(params, cells, done);
    let all = run_actions(params, cells);
    assert(loading(cells) =~= first.subrange(0, loading(cells).len() as int));
    assert forall|i: int| 0 <= i < loading(cells).len() implies loading(cells)[i] == all[i] by {
        assert(all.subrange(0, first.len() as int)[i] == all[i]);
    }
    assert(loading(cells) =~= all.subrange(0, loading(cells).len() as int));
}

/// The exchanges up to the completion of a generation, followed by the
/// reports of the next generation, are the exchanges up to the completion of
/// that one.
proof fn lemma_progress_step(params: Params, cells: Seq<CellValue>, done: nat)
    ensures
        progress(params, cells, done) + reports(
            turn_events(initial_grid(params, cells).after(done), done + 1),
        ) == progress(params, cells, done + 1),
{
    let initial = initial_grid(params, cells);
    let open = seq![opening_event()];
    let earlier = generation_events(initial, done);
    let this_turn = turn_events(initial.after(done), done + 1);
    assert(generation_events(initial, done + 1) == earlier + this_turn);
    assert(reports(open + earlier) + reports(this_turn) =~= reports(open + (earlier + this_turn)));
    assert(open + (earlier + this_turn) =~= open + generation_events(initial, done + 1));
    assert(progress(params, cells, done) + reports(this_turn) =~= loading(cells) + (reports(
        open + earlier,
    ) + reports(this_turn)));
}

/// An attempt that stopped within a stage of some exchanges stopped within
/// those exchanges, at the same exchange.
proof fn lemma_stopped_within(
    before: Seq<Action>,
    whole: Seq<Action>,
    done: Seq<Action>,
    stage: Seq<Action>,
    after: Seq<Action>,
    error: DistributorError,
)
    requires
        (done + stage).is_prefix_of(whole),
        stopped(before + done, after, stage, error),
    ensures
        stopped(before, after, whole, error),
{
    let within = after.len() - (before + done).len();
    let made = done.len() + within;
    let both = done + stage;
    assert(whole[made] == stage[within]) by {
        assert(whole.subrange(0, both.len() as int)[made] == whole[made]);
    }
    assert forall|i: int| 0 <= i < made implies whole.take(made)[i] == (done + stage.take(
        within,
    ))[i] by {
        assert(whole.subrange(0, both.len() as int)[i] == whole[i]);
    }
    assert(whole.take(made) =~= done + stage.take(within));
    assert(after =~= before + whole.take(made));
}

/// A history that holds the loading of `cells` behind `before` holds these
/// cells behind the request.
proof fn lemma_cells_from(before: Seq<Action>, cells: Seq<CellValue>, history: Seq<Action>)
    requires
        (before + loading(cells)).is_prefix_of(history),
    ensures
        cells_from(history, before.len(), cells.len()) == cells,
{
    let loaded = before + loading(cells);
    assert forall|i: int| 0 <= i < cells.len() implies cell_of(history[before.len() + 1 + i])
        == cells[i] by {
        assert(history.subrange(0, loaded.len() as int)[before.len() + 1 + i] == history[before.len()
            + 1 + i]);
    }
    assert(cells_from(history, before.len(), cells.len()) =~= cells);
}

/// A run that loaded `cells` and then stopped within a stage of its
/// exchanges ended as a run may end.
proof fn lemma_run_stopped(
    params: Params,
    before: Seq<Action>,
    cells: Seq<CellValue>,
    done: Seq<Action>,
    stage: Seq<Action>,
    after: Seq<Action>,
    error: DistributorError,
)
    requires
        cells.len() == params.image_width * params.image_height,
        loading(cells).is_prefix_of(done),
        (done + stage).is_prefix_of(run_actions(params, cells)),
        stopped(before + done, after, stage, error),
    ensures
        stopped(
            before,
            after,
            run_actions(
                params,
                cells_from(
                    after,
                    before.len(),
                    (params.image_width * params.image_height) as nat,
                ),
            ),
            error,
        ),
{
    lemma_stopped_within(before, run_actions(params, cells), done, stage, after, error);
    let loaded = before + loading(cells);
    assert forall|i: int| 0 <= i < loaded.len() implies loaded[i] == after[i] by {
        if i >= before.len() {
            assert(done.subrange(0, loading(cells).len() as int)[i - before.len()] == done[i
                - before.len()]);
        }
    }
    assert(loaded =~= after.subrange(0, loaded.len() as int));
    lemma_cells_from(before, cells, after);
}

/// A filter keeps a sequence whole where every element passes, and keeps
/// nothing where none does.
proof fn lemma_filter_all_or_none<A>(s: Seq<A>, pred: spec_fn(A) -> bool)
    ensures
        (forall|i: int| 0 <= i < s.len() ==> pred(s[i])) ==> s.filter(pred) == s,
        (forall|i: int| 0 <= i < s.len() ==> !pred(s[i])) ==> s.filter(pred) == Seq::<A>::empty(),
    decreases s.len(),
{
    reveal(Seq::filter);
    if s.len() > 0 {
        lemma_filter_all_or_none(s.drop_last(), pred);
        if forall|i: int| 0 <= i < s.len() ==> pred(s[i]) {
            assert forall|i: int| 0 <= i < s.drop_last().len() implies pred(s.drop_last()[i]) by {
                assert(pred(s[i]));
            }
            assert(s.drop_last().push(s.last()) =~= s);
        }
        if forall|i: int| 0 <= i < s.len() ==> !pred(s[i]) {
            assert forall|i: int| 0 <= i < s.drop_last().len() implies !pred(s.drop_last()[i]) by {
                assert(!pred(s[i]));
            }
        }
    } else {
        assert(s =~= Seq::<A>::empty());
    }
}

/// What two runs of exchanges reported, one after the other, is what the
/// first reported and then what the second reported.
proof fn lemma_reported_in_both(first: Seq<Action>, second: Seq<Action>)
    ensures
        reported_in(first + second) == reported_in(first) + reported_in(second),
{
    Seq::filter_distributes_over_add(first, second, |a: Action| a is Reported);
    assert(reported_in(first + second) =~= reported_in(first) + reported_in(second));
}

/// The events that a complete run reports are, in their order, the events
/// of the run: what holds of those events holds of what the observer is
/// sent.
pub proof fn lemma_run_reports_its_events(params: Params, cells: Seq<CellValue>)
    ensures
        reported_in(run_actions(params, cells)) == run_events(
            initial_grid(params, cells),
            params.turns as nat,
        ),
{
    let initial = initial_grid(params, cells);
    let turns = params.turns as nat;
    let is_report = |a: Action| a is Reported;
    let first = seq![opening_event()] + generation_events(initial, turns);
    let end = closing(initial.after(turns).alive_cells(), turns);
    lemma_reported_in_both(loading(cells) + reports(first), end);
    lemma_reported_in_both(loading(cells), reports(first));
    lemma_filter_all_or_none(loading(cells), is_report);
    lemma_filter_all_or_none(reports(first), is_report);
    assert(reported_in(loading(cells)) =~= Seq::<EventView>::empty());
    assert(reported_in(reports(first)) =~= first);
    assert(reported_in(end) =~= seq![final_event(initial, turns), closing_event(turns)]) by {
        reveal_with_fuel(Seq::filter, 5);
        assert(end.drop_last() =~= seq![end[0], end[1], end[2]]);
        assert(end.drop_last().drop_last() =~= seq![end[0], end[1]]);
        assert(end.drop_last().drop_last().drop_last() =~= seq![end[0]]);
        assert(end.drop_last().drop_last().drop_last().drop_last() =~= Seq::<Action>::empty());
    }
    assert(reported_in(run_actions(params, cells)) =~= run_events(initial, turns));
}

/// Asks for the input and reads the initial grid from it: one cell for every
/// coordinate, in row-major order. Fails if the request cannot be made or
/// the cells run out; each cell read until then stays read.
pub fn load_grid(params: &Params, link: &mut Link) -> (loaded: Result<Grid, DistributorError>)
    requires
        params.image_width * params.image_height <= usize::MAX,
    ensures
        final(link).same_channels(old(link)),
        ({
            let cells = cells_from(
                final(link).history(),
                old(link).history().len(),
                (params.image_width * params.image_height) as nat,
            );
            match loaded {
                Ok(grid) => {
                    &&& grid@.well_formed()
                    &&& grid@ == initial_grid(*params, cells)
                    &&& final(link).history() == old(link).history() + loading(cells)
                },
                Err(error) => {
                    &&& error == DistributorError::InputUnavailable
                    &&& stopped(old(link).history(), final(link).history(), loading(cells), error)
                },
            }
        }),
        !old(link).input_usable() && params.image_width * params.image_height > 0 ==> loaded is Err,
{
    let width = params.image_width;
    let height = params.image_height;
    let ghost before = link.history();
    let ghost total = (width * height) as nat;
    let mut grid = Grid::new(width, height).unwrap();
    match link.request_input() {
        Ok(()) => {},
        Err(error) => {
            proof {
                let cells = cells_from(link.history(), before.len(), total);
                assert(before =~= before + loading(cells).take(0));
            }
            return Err(error);
        },
    }
    let mut y: usize = 0;
    proof {
        assert(0 * width == 0) by (nonlinear_arith);
        assert(link.history() =~= before + loading(grid@.cells.take(0)));
    }
    while y < height
        invariant
            y <= height,
            width == params.image_width,
            height == params.image_height,
            total == width * height,
            grid@.width == width,
            grid@.height == height,
            grid@.cells.len() == total,
            link.history() == before + loading(grid@.cells.take(y * width)),
            y * width <= total,
            !link.input_usable() ==> y * width == 0,
            before == old(link).history(),
            link.same_channels(old(link)),
        decreases height - y,
    {
        let mut x: usize = 0;
        while x < width
            invariant
                y < height,
                x <= width,
                width == params.image_width,
                height == params.image_height,
                total == width * height,
                grid@.width == width,
                grid@.height == height,
                grid@.cells.len() == total,
                link.history() == before + loading(grid@.cells.take(y * width + x)),
                y * width + x <= total,
                !link.input_usable() ==> y * width + x == 0,
                before == old(link).history(),
                link.same_channels(old(link)),
            decreases width - x,
        {
            proof {
                lemma_index_in_range(width as nat, height as nat, x as int, y as int);
            }
            let ghost so_far = grid@.cells.take(y * width + x);
            let cell = match link.receive_cell() {
                Ok(cell) => cell,
                Err(error) => {
                    proof {
                        let cells = cells_from(link.history(), before.len(), total);
                        assert(loading(so_far) =~= loading(cells).take(1 + so_far.len() as int));
                    }
                    return Err(error);
                },
            };
            grid.set(x, y, cell);
            proof {
                assert(grid@.cells.take(y * width + x + 1) =~= so_far.push(cell));
                assert(before + loading(so_far.push(cell)) =~= (before + loading(so_far)).push(
                    Action::Took(cell),
                ));
            }
            x += 1;
        }
        proof {
            assert((y + 1) * width == y * width + width) by (nonlinear_arith);
        }
        y += 1;
    }
    proof {
        assert(height * width == width * height) by (nonlinear_arith);
        assert(grid@.cells.take(height * width) =~= grid@.cells);
        assert(link.history() =~= (before + loading(grid@.cells)).subrange(
            0,
            (before + loading(grid@.cells)).len() as int,
        ));
        lemma_cells_from(before, grid@.cells, link.history());
    }
    Ok(grid)
}

/// Emitting: reports generation `turn`, which changed the cells at
/// `flipped`. The changed cells are reported only if there are any, and
/// before the completion of the turn, which is reported in any case.
pub fn report_turn(link: &mut Link, turn: u32, flipped: Vec<CellCoord>) -> (outcome: Result<
    (),
    DistributorError,
>)
    ensures
        final(link).same_channels(old(link)),
        ended(
            old(link).history(),
            final(link).history(),
            reports(turn_report(turn as nat, flipped@)),
            outcome,
        ),
{
    let ghost before = link.history();
    let ghost whole = reports(turn_report(turn as nat, flipped@));
    proof {
        assert(before =~= before + whole.take(0));
    }
    if flipped.len() > 0 {
        match link.emit(Event::CellsFlipped { completed_turns: turn, cells: flipped }) {
            Ok(()) => {},
            Err(error) => {
                return Err(error);
            },
        }
        proof {
            assert(link.history() =~= before + whole.take(1));
        }
    }
    match link.emit(Event::TurnComplete { completed_turns: turn }) {
        Ok(()) => {},
        Err(error) => {
            return Err(error);
        },
    }
    proof {
        assert(link.history() =~= before + whole);
    }
    Ok(())
}

/// Ends a run of `turns` generations that left `grid`: reports the live
/// cells of the grid, asks the collaborator for the idle check, waits for
/// its acknowledgment, and then announces the end.
pub fn close_run(link: &mut Link, grid: &Grid, turns: u32) -> (outcome: Result<
    (),
    DistributorError,
>)
    ensures
        final(link).same_channels(old(link)),
        ended(
            old(link).history(),
            final(link).history(),
            closing(grid@.alive_cells(), turns as nat),
            outcome,
        ),
        !old(link).idle_usable() ==> outcome is Err,
{
    let ghost before = link.history();
    let ghost whole = closing(grid@.alive_cells(), turns as nat);
    let alive = grid.alive_cells();
    proof {
        assert(before =~= before + whole.take(0));
    }
    match link.emit(Event::FinalTurnComplete { completed_turns: turns, alive }) {
        Ok(()) => {},
        Err(error) => {
            return Err(error);
        },
    }
    proof {
        assert(link.history() =~= before + whole.take(1));
        assert(link.history().push(whole[1]) =~= before + whole.take(2));
        assert(link.history().push(whole[1]).push(whole[2]) =~= before + whole.take(3));
    }
    match link.await_idle() {
        Ok(()) => {},
        Err(error) => {
            return Err(error);
        },
    }
    match link.emit(Event::StateChange { completed_turns: turns, new_state: State::Quitting }) {
        Ok(()) => {},
        Err(error) => {
            return Err(error);
        },
    }
    proof {
        assert(link.history() =~= before + whole);
    }
    Ok(())
}

/// Runs the engine over `link`: loads the initial grid, announces the start,
/// computes `params.turns` generations one after the other with
/// `params.threads` workers each, reports each generation once it is
/// computed, and ends the run as [`close_run`] does. The first exchange that
/// fails ends the run.
pub fn run(params: &Params, link: &mut Link) -> (outcome: Result<(), DistributorError>)
    requires
        params.threads >= 1,
        params.image_width * params.image_height <= usize::MAX,
    ensures
        final(link).same_channels(old(link)),
        ended(
            old(link).history(),
            final(link).history(),
            run_actions(
                *params,
                cells_from(
                    final(link).history(),
                    old(link).history().len(),
                    (params.image_width * params.image_height) as nat,
                ),
            ),
            outcome,
        ),
        !old(link).input_usable() && params.image_width * params.image_height > 0 ==> outcome
            == Err::<(), DistributorError>(DistributorError::InputUnavailable),
        !old(link).idle_usable() ==> outcome is Err,
{
    let turns = params.turns;
    let ghost before = link.history();
    let ghost total = (params.image_width * params.image_height) as nat;
    let ghost none = Seq::<Action>::empty();
    let mut grid = match load_grid(params, link) {
        Ok(grid) => grid,
        Err(error) => {
            proof {
                let cells = cells_from(link.history(), before.len(), total);
                lemma_progress_begins(*params, cells, 0);
                assert(none + loading(cells) =~= loading(cells));
                assert(before + none =~= before);
                lemma_stopped_within(
                    before,
                    run_actions(*params, cells),
                    none,
                    loading(cells),
                    link.history(),
                    error,
                );
            }
            return Err(error);
        },
    };
    let ghost cells = grid@.cells;
    let ghost initial = initial_grid(*params, cells);
    let ghost open = reports(seq![opening_event()]);
    proof {
        lemma_progress_begins(*params, cells, 0);
        assert(loading(cells) + open =~= progress(*params, cells, 0));
        assert(loading(cells) =~= loading(cells).subrange(0, loading(cells).len() as int));
        assert(before + loading(cells) =~= before + loading(cells) + open.take(0));
    }
    match link.emit(Event::StateChange { completed_turns: 0, new_state: State::Executing }) {
        Ok(()) => {},
        Err(error) => {
            proof {
                lemma_run_stopped(
                    *params,
                    before,
                    cells,
                    loading(cells),
                    open,
                    link.history(),
                    error,
                );
            }
            return Err(error);
        },
    }
    let mut done: u32 = 0;
    proof {
        assert(link.history() =~= before + progress(*params, cells, 0));
    }
    while done < turns
        invariant
            done <= turns,
            turns == params.turns,
            params.threads >= 1,
            total == params.image_width * params.image_height,
            cells.len() == total,
            initial == initial_grid(*params, cells),
            grid@ == initial.after(done as nat),
            link.history() == before + progress(*params, cells, done as nat),
            before == old(link).history(),
            link.same_channels(old(link)),
            old(link).input_usable() || total == 0,
        decreases turns - done,
    {
        let turn = done + 1;
        let flipped = step(&mut grid, params.threads);
        proof {
            lemma_progress_step(*params, cells, done as nat);
            lemma_progress_begins(*params, cells, done as nat);
            lemma_progress_begins(*params, cells, turn as nat);
        }
        match report_turn(link, turn, flipped) {
            Ok(()) => {},
            Err(error) => {
                proof {
                    lemma_run_stopped(
                        *params,
                        before,
                        cells,
                        progress(*params, cells, done as nat),
                        reports(turn_events(initial.after(done as nat), turn as nat)),
                        link.history(),
                        error,
                    );
                }
                return Err(error);
            },
        }
        proof {
            assert(link.history() =~= before + progress(*params, cells, turn as nat));
        }
        done = turn;
    }
    let ghost end = closing(grid@.alive_cells(), turns as nat);
    proof {
        lemma_progress_begins(*params, cells, turns as nat);
        let all = run_actions(*params, cells);
        assert(all =~= all.subrange(0, all.len() as int));
    }
    match close_run(link, &grid, turns) {
        Ok(()) => {},
        Err(error) => {
            proof {
                lemma_run_stopped(
                    *params,
                    before,
                    cells,
                    progress(*params, cells, turns as nat),
                    end,
                    link.history(),
                    error,
                );
            }
            return Err(error);
        },
    }
    proof {
        let all = run_actions(*params, cells);
        assert(link.history() =~= before + all);
        lemma_begins_between(before, loading(cells), all, none);
        assert(before + all + none =~= before + all);
        lemma_cells_from(before, cells, link.history());
    }
    Ok(())
}

/// Runs the engine over the channel ends `channels`, as [`run`] does over
/// the link that they make up, and hands back that link with its record of
/// the run. A run needs the event channel, the command channel and the idle
/// channel. Without an input channel it fails as soon as the grid has a cell
/// to read.
pub fn distributor<K>(params: Params, channels: DistributorChannels<K>) -> (done: (
    Result<(), DistributorError>,
    Link,
))
    requires
        channels.events is Some,
        channels.io_command is Some,
        channels.io_idle is Some,
        params.threads >= 1,
        params.image_width * params.image_height <= usize::MAX,
    ensures
        ended(
            Seq::<Action>::empty(),
            done.1.history(),
            run_actions(
                params,
                cells_from(done.1.history(), 0, (params.image_width * params.image_height) as nat),
            ),
            done.0,
        ),
        done.1.has_input() == (channels.io_input is Some),
        channels.io_input is None && params.image_width * params.image_height > 0 ==> done.0
            == Err::<(), DistributorError>(DistributorError::InputUnavailable),
        channels.io_input matches Some(input) && cell_channel_limit(input) == Some(usize::MAX)
            && params.image_width * params.image_height > 0 ==> done.0 == Err::<
            (),
            DistributorError,
        >(DistributorError::InputUnavailable),
        channels.io_idle matches Some(idle) && idle_channel_limit(idle) == Some(usize::MAX)
            ==> done.0 is Err,
{
    let DistributorChannels {
        events,
        key_presses: _,
        io_command,
        io_idle,
        io_filename: _,
        io_input,
        io_output: _,
    } = channels;
    let mut link = Link::new(events.unwrap(), io_command.unwrap(), io_idle.unwrap(), io_input);
    let outcome = run(&params, &mut link);
    (outcome, link)
}

} // verus!
