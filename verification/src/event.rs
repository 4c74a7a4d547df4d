//! What a run is configured with, what it asks of the input and output
//! collaborator, and what it reports to its observer.

use vstd::prelude::*;
use crate::cell::CellCoord;
use crate::grid::GridView;

verus! {

/// The configuration of a run.
#[derive(Clone, Copy, Debug, PartialEq, Eq, Structural)]
pub struct Params {
    /// The number of generations to compute.
    pub turns: u32,
    /// The number of workers that share the rows of each generation.
    pub threads: usize,
    /// The number of columns of the grid.
    pub image_width: usize,
    /// The number of rows of the grid.
    pub image_height: usize,
}

/// A request to the collaborator that loads and stores the grid.
#[derive(Clone, Copy, Debug, PartialEq, Eq, Structural)]
pub enum IoCommand {
    /// Deliver the initial grid, cell by cell in row-major order.
    IoInput,
    /// Acknowledge once nothing is pending any more.
    IoCheckIdle,
}

/// The phase of a run that a state change announces.
#[derive(Clone, Copy, Debug, PartialEq, Eq, Structural)]
pub enum State {
    Executing,
    Quitting,
}

/// A report to the observer. `completed_turns` is the number of generations
/// computed when the event was raised.
#[derive(Clone, Debug, PartialEq, Eq)]
pub enum Event {
    /// The run entered a new phase.
    StateChange { completed_turns: u32, new_state: State },
    /// The cells that the last generation changed; never an empty list.
    CellsFlipped { completed_turns: u32, cells: Vec<CellCoord> },
    /// A generation is complete.
    TurnComplete { completed_turns: u32 },
    /// The last generation is complete; `alive` holds every live cell.
    FinalTurnComplete { completed_turns: u32, alive: Vec<CellCoord> },
}

/// The mathematical value of an [`Event`].
pub enum EventView {
    StateChange { completed_turns: nat, new_state: State },
    CellsFlipped { completed_turns: nat, cells: Seq<CellCoord> },
    TurnComplete { completed_turns: nat },
    FinalTurnComplete { completed_turns: nat, alive: Seq<CellCoord> },
}

impl View for Event {
    type V = EventView;

    open spec fn view(&self) -> EventView {
        match *self {
            Event::StateChange { completed_turns, new_state } => EventView::StateChange {
                completed_turns: completed_turns as nat,
                new_state,
            },
            Event::CellsFlipped { completed_turns, cells } => EventView::CellsFlipped {
                completed_turns: completed_turns as nat,
                cells: cells@,
            },
            Event::TurnComplete { completed_turns } => EventView::TurnComplete {
                completed_turns: completed_turns as nat,
            },
            Event::FinalTurnComplete { completed_turns, alive } => EventView::FinalTurnComplete {
                completed_turns: completed_turns as nat,
                alive: alive@,
            },
        }
    }
}

/// What is reported of generation `turn` when it changed the cells at
/// `flipped`: those cells, unless there are none, and then the completion of
/// the turn.
pub open spec fn turn_report(turn: nat, flipped: Seq<CellCoord>) -> Seq<EventView> {
    if flipped.len() > 0 {
        seq![
            EventView::CellsFlipped { completed_turns: turn, cells: flipped },
            EventView::TurnComplete { completed_turns: turn },
        ]
    } else {
        seq![EventView::TurnComplete { completed_turns: turn }]
    }
}

/// The events of generation `turn`, computed from the grid `before` it.
pub open spec fn turn_events(before: GridView, turn: nat) -> Seq<EventView> {
    turn_report(turn, before.flipped(before.next()))
}

/// The events of the generations `1..=turns` of a run that starts from
/// `initial`, in the order of the generations.
pub open spec fn generation_events(initial: GridView, turns: nat) -> Seq<EventView>
    decreases turns,
{
    if turns == 0 {
        Seq::empty()
    } else {
        generation_events(initial, (turns - 1) as nat) + turn_events(
            initial.after((turns - 1) as nat),
            turns,
        )
    }
}

/// The announcement that opens a run.
pub open spec fn opening_event() -> EventView {
    EventView::StateChange { completed_turns: 0, new_state: State::Executing }
}

/// The report of the final grid of a run of `turns` generations from
/// `initial`.
pub open spec fn final_event(initial: GridView, turns: nat) -> EventView {
    EventView::FinalTurnComplete {
        completed_turns: turns,
        alive: initial.after(turns).alive_cells(),
    }
}

/// The announcement that closes a run of `turns` generations.
pub open spec fn closing_event(turns: nat) -> EventView {
    EventView::StateChange { completed_turns: turns, new_state: State::Quitting }
}

/// Every event of a complete run of `turns` generations from `initial`, in
/// the order in which the observer receives them.
pub open spec fn run_events(initial: GridView, turns: nat) -> Seq<EventView> {
    seq![opening_event()] + generation_events(initial, turns) + seq![
        final_event(initial, turns),
        closing_event(turns),
    ]
}

/// The turn numbers of the turn completions among `events`, in their order.
pub open spec fn completed_turns_of(events: Seq<EventView>) -> Seq<nat> {
    events.filter(|e: EventView| e is TurnComplete).map_values(
        |e: EventView| e->TurnComplete_completed_turns,
    )
}

/// The turn completions of two runs of events, one after the other, are
/// those of the first and then those of the second.
pub proof fn lemma_completed_turns_of_both(first: Seq<EventView>, second: Seq<EventView>)
    ensures
        completed_turns_of(first + second) == completed_turns_of(first) + completed_turns_of(
            second,
        ),
{
    let completes = |e: EventView| e is TurnComplete;
    Seq::filter_distributes_over_add(first, second, completes);
    assert(completed_turns_of(first + second) =~= completed_turns_of(first) + completed_turns_of(
        second,
    ));
}

/// Each generation completes exactly once, whether or not it changed a cell.
pub proof fn lemma_turn_completes_once(before: GridView, turn: nat)
    ensures
        completed_turns_of(turn_events(before, turn)) == seq![turn],
{
    reveal_with_fuel(Seq::filter, 3);
    let events = turn_events(before, turn);
    let completes = |e: EventView| e is TurnComplete;
    if events.len() == 2 {
        assert(events.drop_last() =~= seq![events[0]]);
        assert(events.drop_last().drop_last() =~= Seq::<EventView>::empty());
    } else {
        assert(events.drop_last() =~= Seq::<EventView>::empty());
    }
    assert(completed_turns_of(events) =~= seq![turn]);
}

/// The generations `1..=turns` complete once each, in their order.
pub proof fn lemma_generations_complete_in_order(initial: GridView, turns: nat)
    ensures
        completed_turns_of(generation_events(initial, turns)) == Seq::new(
            turns,
            |i: int| (i + 1) as nat,
        ),
    decreases turns,
{
    let expected = Seq::new(turns, |i: int| (i + 1) as nat);
    if turns == 0 {
        reveal_with_fuel(Seq::filter, 1);
        assert(completed_turns_of(Seq::<EventView>::empty()) =~= expected);
    } else {
        let earlier = (turns - 1) as nat;
        lemma_generations_complete_in_order(initial, earlier);
        lemma_turn_completes_once(initial.after(earlier), turns);
        lemma_completed_turns_of_both(
            generation_events(initial, earlier),
            turn_events(initial.after(earlier), turns),
        );
        assert(completed_turns_of(generation_events(initial, turns)) =~= expected);
    }
}

/// A complete run of `turns` generations reports exactly `turns` turn
/// completions, and they carry the turn numbers `1, 2, ..., turns` in this
/// order.
pub proof fn lemma_one_completion_per_turn(initial: GridView, turns: nat)
    ensures
        completed_turns_of(run_events(initial, turns)) == Seq::new(turns, |i: int| (i + 1) as nat),
        completed_turns_of(run_events(initial, turns)).len() == turns,
{
    reveal_with_fuel(Seq::filter, 3);
    let head = seq![opening_event()];
    let tail = seq![final_event(initial, turns), closing_event(turns)];
    lemma_generations_complete_in_order(initial, turns);
    lemma_completed_turns_of_both(head + generation_events(initial, turns), tail);
    lemma_completed_turns_of_both(head, generation_events(initial, turns));
    assert(completed_turns_of(head) =~= Seq::<nat>::empty()) by {
        assert(head.drop_last() =~= Seq::<EventView>::empty());
    }
    assert(completed_turns_of(tail) =~= Seq::<nat>::empty()) by {
        assert(tail.drop_last() =~= seq![tail[0]]);
        assert(tail.drop_last().drop_last() =~= Seq::<EventView>::empty());
    }
    assert(completed_turns_of(run_events(initial, turns)) =~= Seq::new(
        turns,
        |i: int| (i + 1) as nat,
    ));
}

/// A run of no generations reports the start, the live cells of the initial
/// grid as the final ones, and the end; no turn completes.
pub proof fn lemma_run_of_no_turns(initial: GridView)
    ensures
        run_events(initial, 0) == seq![
            opening_event(),
            EventView::FinalTurnComplete { completed_turns: 0, alive: initial.alive_cells() },
            closing_event(0),
        ],
        completed_turns_of(run_events(initial, 0)) == Seq::<nat>::empty(),
{
    lemma_one_completion_per_turn(initial, 0);
    assert(run_events(initial, 0) =~= seq![
        opening_event(),
        EventView::FinalTurnComplete { completed_turns: 0, alive: initial.alive_cells() },
        closing_event(0),
    ]);
    assert(completed_turns_of(run_events(initial, 0)) =~= Seq::<nat>::empty());
}

} // verus!
