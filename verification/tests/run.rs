use flume::{Receiver, Sender};
use gol::cell::{CellCoord, CellValue};
use gol::channel::{DistributorError, Link};
use gol::distributor::{close_run, distributor, load_grid, report_turn, run, DistributorChannels};
use gol::grid::Grid;
use gol::event::{Event, IoCommand, Params, State};

const D: CellValue = CellValue::Dead;
const A: CellValue = CellValue::Alive;

fn at(x: usize, y: usize) -> CellCoord {
    CellCoord { x, y }
}

/// The far ends of the channels of a run.
struct Collaborators {
    events: Receiver<Event>,
    commands: Receiver<IoCommand>,
    idle: Sender<bool>,
    input: Sender<CellValue>,
}

/// Channels for a run whose input holds `cells` and whose idle check is
/// already acknowledged.
fn wired(cells: &[CellValue]) -> (DistributorChannels<u32>, Collaborators) {
    let (events_tx, events_rx) = flume::unbounded();
    let (command_tx, command_rx) = flume::unbounded();
    let (idle_tx, idle_rx) = flume::unbounded();
    let (input_tx, input_rx) = flume::unbounded();
    for &cell in cells {
        input_tx.send(cell).unwrap();
    }
    idle_tx.send(true).unwrap();
    let channels = DistributorChannels {
        events: Some(events_tx),
        key_presses: None,
        io_command: Some(command_tx),
        io_idle: Some(idle_rx),
        io_filename: None,
        io_input: Some(input_rx),
        io_output: None,
    };
    let far = Collaborators { events: events_rx, commands: command_rx, idle: idle_tx, input: input_tx };
    (channels, far)
}

fn params(width: usize, height: usize, turns: u32, threads: usize) -> Params {
    Params { turns, threads, image_width: width, image_height: height }
}

fn drain<T>(receiver: &Receiver<T>) -> Vec<T> {
    receiver.try_iter().collect()
}

fn blinker() -> Vec<CellValue> {
    let mut cells = vec![D; 25];
    cells[11] = A;
    cells[12] = A;
    cells[13] = A;
    cells
}

#[test]
fn zero_turns_reports_the_initial_grid() {
    let (channels, far) = wired(&[D, A, A, D, D, A]);
    assert_eq!(distributor(params(3, 2, 0, 2), channels).0, Ok(()));
    assert_eq!(
        drain(&far.events),
        vec![
            Event::StateChange { completed_turns: 0, new_state: State::Executing },
            Event::FinalTurnComplete { completed_turns: 0, alive: vec![at(1, 0), at(2, 0), at(2, 1)] },
            Event::StateChange { completed_turns: 0, new_state: State::Quitting },
        ]
    );
    assert_eq!(drain(&far.commands), vec![IoCommand::IoInput, IoCommand::IoCheckIdle]);
}

#[test]
fn blinker_run_reports_both_phases() {
    let (channels, far) = wired(&blinker());
    assert_eq!(distributor(params(5, 5, 2, 3), channels).0, Ok(()));
    let flips = vec![at(2, 1), at(1, 2), at(3, 2), at(2, 3)];
    assert_eq!(
        drain(&far.events),
        vec![
            Event::StateChange { completed_turns: 0, new_state: State::Executing },
            Event::CellsFlipped { completed_turns: 1, cells: flips.clone() },
            Event::TurnComplete { completed_turns: 1 },
            Event::CellsFlipped { completed_turns: 2, cells: flips },
            Event::TurnComplete { completed_turns: 2 },
            Event::FinalTurnComplete {
                completed_turns: 2,
                alive: vec![at(1, 2), at(2, 2), at(3, 2)],
            },
            Event::StateChange { completed_turns: 2, new_state: State::Quitting },
        ]
    );
    assert_eq!(drain(&far.commands), vec![IoCommand::IoInput, IoCommand::IoCheckIdle]);
}

#[test]
fn blinker_after_one_turn_is_vertical() {
    let (channels, far) = wired(&blinker());
    assert_eq!(distributor(params(5, 5, 1, 1), channels).0, Ok(()));
    let events = drain(&far.events);
    assert_eq!(
        events[events.len() - 2],
        Event::FinalTurnComplete { completed_turns: 1, alive: vec![at(2, 1), at(2, 2), at(2, 3)] }
    );
}

#[test]
fn still_turns_report_completion_without_flips() {
    // A block never changes: no turn reports flipped cells.
    let mut cells = vec![D; 16];
    for i in [5, 6, 9, 10] {
        cells[i] = A;
    }
    let (channels, far) = wired(&cells);
    assert_eq!(distributor(params(4, 4, 3, 2), channels).0, Ok(()));
    assert_eq!(
        drain(&far.events),
        vec![
            Event::StateChange { completed_turns: 0, new_state: State::Executing },
            Event::TurnComplete { completed_turns: 1 },
            Event::TurnComplete { completed_turns: 2 },
            Event::TurnComplete { completed_turns: 3 },
            Event::FinalTurnComplete {
                completed_turns: 3,
                alive: vec![at(1, 1), at(2, 1), at(1, 2), at(2, 2)],
            },
            Event::StateChange { completed_turns: 3, new_state: State::Quitting },
        ]
    );
}

#[test]
fn one_turn_complete_per_turn_in_order() {
    let start = {
        let mut cells = vec![D; 64];
        for i in [1, 10, 16, 17, 18] {
            cells[i] = A;
        }
        cells
    };
    let (channels, far) = wired(&start);
    assert_eq!(distributor(params(8, 8, 17, 4), channels).0, Ok(()));
    let completed: Vec<u32> = drain(&far.events)
        .into_iter()
        .filter_map(|event| match event {
            Event::TurnComplete { completed_turns } => Some(completed_turns),
            _ => None,
        })
        .collect();
    assert_eq!(completed, (1..=17).collect::<Vec<u32>>());
}

#[test]
fn flips_come_before_the_completion_of_their_turn() {
    let (channels, far) = wired(&blinker());
    assert_eq!(distributor(params(5, 5, 4, 2), channels).0, Ok(()));
    let events = drain(&far.events);
    let mut last_turn = 0;
    for pair in events.windows(2) {
        if let Event::CellsFlipped { completed_turns, cells } = &pair[0] {
            assert!(!cells.is_empty());
            assert_eq!(pair[1], Event::TurnComplete { completed_turns: *completed_turns });
            assert_eq!(*completed_turns, last_turn + 1);
            last_turn = *completed_turns;
        }
    }
    assert_eq!(last_turn, 4);
}

#[test]
fn final_alive_cells_do_not_depend_on_threads() {
    let start = {
        let mut cells = vec![D; 70];
        for i in [1, 12, 20, 21, 22, 45, 46, 47, 63] {
            cells[i] = A;
        }
        cells
    };
    let (channels, far) = wired(&start);
    assert_eq!(distributor(params(10, 7, 9, 1), channels).0, Ok(()));
    let reference = drain(&far.events);
    for threads in [2usize, 3, 4, 7, 8, 30] {
        let (channels, far) = wired(&start);
        assert_eq!(distributor(params(10, 7, 9, threads), channels).0, Ok(()));
        assert_eq!(drain(&far.events), reference);
    }
}

#[test]
fn input_that_runs_out_is_unavailable() {
    let (channels, far) = wired(&[A, D, A]);
    let Collaborators { events, commands, idle: _idle, input } = far;
    drop(input);
    assert_eq!(
        distributor(params(2, 2, 1, 1), channels).0,
        Err(DistributorError::InputUnavailable)
    );
    assert!(drain(&events).is_empty());
    assert_eq!(drain(&commands), vec![IoCommand::IoInput]);
}

#[test]
fn missing_input_channel_is_unavailable() {
    let (mut channels, far) = wired(&[]);
    channels.io_input = None;
    assert_eq!(
        distributor(params(2, 2, 1, 1), channels).0,
        Err(DistributorError::InputUnavailable)
    );
    assert!(drain(&far.events).is_empty());
}

#[test]
fn missing_input_channel_is_not_missed_by_an_empty_grid() {
    let (mut channels, far) = wired(&[]);
    channels.io_input = None;
    assert_eq!(distributor(params(0, 3, 2, 1), channels).0, Ok(()));
    assert_eq!(
        drain(&far.events),
        vec![
            Event::StateChange { completed_turns: 0, new_state: State::Executing },
            Event::TurnComplete { completed_turns: 1 },
            Event::TurnComplete { completed_turns: 2 },
            Event::FinalTurnComplete { completed_turns: 2, alive: vec![] },
            Event::StateChange { completed_turns: 2, new_state: State::Quitting },
        ]
    );
}

#[test]
fn closed_command_channel_makes_input_unavailable() {
    let (channels, far) = wired(&[A, D, A, D]);
    let Collaborators { events, commands, idle: _idle, input: _input } = far;
    drop(commands);
    assert_eq!(
        distributor(params(2, 2, 1, 1), channels).0,
        Err(DistributorError::InputUnavailable)
    );
    assert!(drain(&events).is_empty());
}

#[test]
fn observer_gone_closes_the_run() {
    let (channels, far) = wired(&[A, D, A, D]);
    let Collaborators { events, commands, idle: _idle, input: _input } = far;
    drop(events);
    assert_eq!(
        distributor(params(2, 2, 3, 2), channels).0,
        Err(DistributorError::EventChannelClosed)
    );
    assert_eq!(drain(&commands), vec![IoCommand::IoInput]);
}

#[test]
fn unacknowledged_idle_check_is_lost() {
    let (events_tx, events_rx) = flume::unbounded();
    let (command_tx, command_rx) = flume::unbounded();
    let (idle_tx, idle_rx) = flume::unbounded::<bool>();
    let (input_tx, input_rx) = flume::unbounded();
    input_tx.send(A).unwrap();
    drop(idle_tx);
    let channels = DistributorChannels::<u32> {
        events: Some(events_tx),
        key_presses: None,
        io_command: Some(command_tx),
        io_idle: Some(idle_rx),
        io_filename: None,
        io_input: Some(input_rx),
        io_output: None,
    };
    assert_eq!(
        distributor(params(1, 1, 1, 1), channels).0,
        Err(DistributorError::IdleSignalLost)
    );
    assert_eq!(
        drain(&events_rx),
        vec![
            Event::StateChange { completed_turns: 0, new_state: State::Executing },
            Event::CellsFlipped { completed_turns: 1, cells: vec![at(0, 0)] },
            Event::TurnComplete { completed_turns: 1 },
            Event::FinalTurnComplete { completed_turns: 1, alive: vec![] },
        ]
    );
    assert_eq!(drain(&command_rx), vec![IoCommand::IoInput, IoCommand::IoCheckIdle]);
}

#[test]
fn run_over_a_link_reads_only_its_own_cells() {
    let (events_tx, events_rx) = flume::unbounded();
    let (command_tx, command_rx) = flume::unbounded();
    let (idle_tx, idle_rx) = flume::unbounded();
    let (input_tx, input_rx) = flume::unbounded();
    for cell in [A, A, A, A, D, D] {
        input_tx.send(cell).unwrap();
    }
    idle_tx.send(true).unwrap();
    let mut link = Link::new(events_tx, command_tx, idle_rx, Some(input_rx.clone()));
    assert_eq!(run(&params(2, 2, 1, 2), &mut link), Ok(()));
    // The two cells beyond the grid are still in the channel.
    assert_eq!(drain(&input_rx), vec![D, D]);
    assert_eq!(
        drain(&events_rx),
        vec![
            Event::StateChange { completed_turns: 0, new_state: State::Executing },
            Event::TurnComplete { completed_turns: 1 },
            Event::FinalTurnComplete {
                completed_turns: 1,
                alive: vec![at(0, 0), at(1, 0), at(0, 1), at(1, 1)],
            },
            Event::StateChange { completed_turns: 1, new_state: State::Quitting },
        ]
    );
    assert_eq!(drain(&command_rx), vec![IoCommand::IoInput, IoCommand::IoCheckIdle]);
}

#[test]
fn load_grid_fills_the_grid_in_row_major_order() {
    let (events_tx, events_rx) = flume::unbounded();
    let (command_tx, command_rx) = flume::unbounded();
    let (_idle_tx, idle_rx) = flume::unbounded();
    let (input_tx, input_rx) = flume::unbounded();
    for cell in [A, D, D, D, A, A] {
        input_tx.send(cell).unwrap();
    }
    let mut link = Link::new(events_tx, command_tx, idle_rx, Some(input_rx));
    let grid = load_grid(&params(3, 2, 0, 1), &mut link).unwrap();
    assert_eq!(grid.width(), 3);
    assert_eq!(grid.height(), 2);
    assert_eq!(grid.snapshot(), &vec![A, D, D, D, A, A]);
    assert_eq!(grid.get(1, 1), A);
    assert_eq!(grid.get(1, 0), D);
    assert_eq!(drain(&command_rx), vec![IoCommand::IoInput]);
    assert!(drain(&events_rx).is_empty());
}

#[test]
fn link_operations_reach_the_channels() {
    let (events_tx, events_rx) = flume::unbounded();
    let (command_tx, command_rx) = flume::unbounded();
    let (idle_tx, idle_rx) = flume::unbounded();
    let (input_tx, input_rx) = flume::unbounded();
    let mut link = Link::new(events_tx, command_tx, idle_rx, Some(input_rx));
    assert_eq!(link.emit(Event::TurnComplete { completed_turns: 7 }), Ok(()));
    assert_eq!(drain(&events_rx), vec![Event::TurnComplete { completed_turns: 7 }]);
    assert_eq!(link.request_input(), Ok(()));
    assert_eq!(drain(&command_rx), vec![IoCommand::IoInput]);
    input_tx.send(A).unwrap();
    assert_eq!(link.receive_cell(), Ok(A));
    idle_tx.send(false).unwrap();
    assert_eq!(link.await_idle(), Ok(()));
    assert_eq!(drain(&command_rx), vec![IoCommand::IoCheckIdle]);
    drop(input_tx);
    assert_eq!(link.receive_cell(), Err(DistributorError::InputUnavailable));
    drop(idle_tx);
    assert_eq!(link.await_idle(), Err(DistributorError::IdleSignalLost));
    drop(events_rx);
    assert_eq!(
        link.emit(Event::TurnComplete { completed_turns: 8 }),
        Err(DistributorError::EventChannelClosed)
    );
    drop(command_rx);
    assert_eq!(link.request_input(), Err(DistributorError::InputUnavailable));
    assert_eq!(link.await_idle(), Err(DistributorError::IdleSignalLost));
}

#[test]
fn report_turn_skips_an_empty_list_of_flips() {
    let (events_tx, events_rx) = flume::unbounded();
    let (command_tx, _command_rx) = flume::unbounded();
    let (_idle_tx, idle_rx) = flume::unbounded();
    let mut link = Link::new(events_tx, command_tx, idle_rx, None);
    assert_eq!(report_turn(&mut link, 3, vec![]), Ok(()));
    assert_eq!(report_turn(&mut link, 4, vec![at(1, 0), at(0, 2)]), Ok(()));
    assert_eq!(
        drain(&events_rx),
        vec![
            Event::TurnComplete { completed_turns: 3 },
            Event::CellsFlipped { completed_turns: 4, cells: vec![at(1, 0), at(0, 2)] },
            Event::TurnComplete { completed_turns: 4 },
        ]
    );
    drop(events_rx);
    assert_eq!(report_turn(&mut link, 5, vec![at(0, 0)]), Err(DistributorError::EventChannelClosed));
}

#[test]
fn close_run_reports_asks_waits_and_announces() {
    let (events_tx, events_rx) = flume::unbounded();
    let (command_tx, command_rx) = flume::unbounded();
    let (idle_tx, idle_rx) = flume::unbounded();
    idle_tx.send(true).unwrap();
    let mut link = Link::new(events_tx, command_tx, idle_rx, None);
    let grid = Grid::from_cells(2, 1, vec![D, A]).unwrap();
    assert_eq!(close_run(&mut link, &grid, 6), Ok(()));
    assert_eq!(
        drain(&events_rx),
        vec![
            Event::FinalTurnComplete { completed_turns: 6, alive: vec![at(1, 0)] },
            Event::StateChange { completed_turns: 6, new_state: State::Quitting },
        ]
    );
    assert_eq!(drain(&command_rx), vec![IoCommand::IoCheckIdle]);
}

#[test]
fn close_run_does_not_announce_the_end_before_the_acknowledgment() {
    let (events_tx, events_rx) = flume::unbounded();
    let (command_tx, command_rx) = flume::unbounded();
    let (idle_tx, idle_rx) = flume::unbounded::<bool>();
    drop(idle_tx);
    let mut link = Link::new(events_tx, command_tx, idle_rx, None);
    let grid = Grid::new(1, 1).unwrap();
    assert_eq!(close_run(&mut link, &grid, 2), Err(DistributorError::IdleSignalLost));
    assert_eq!(
        drain(&events_rx),
        vec![Event::FinalTurnComplete { completed_turns: 2, alive: vec![] }]
    );
    assert_eq!(drain(&command_rx), vec![IoCommand::IoCheckIdle]);
}

#[test]
fn close_run_does_not_ask_for_the_idle_check_before_the_final_report() {
    let (events_tx, events_rx) = flume::unbounded();
    let (command_tx, command_rx) = flume::unbounded();
    let (idle_tx, idle_rx) = flume::unbounded();
    idle_tx.send(true).unwrap();
    drop(events_rx);
    let mut link = Link::new(events_tx, command_tx, idle_rx, None);
    let grid = Grid::new(1, 1).unwrap();
    assert_eq!(close_run(&mut link, &grid, 2), Err(DistributorError::EventChannelClosed));
    assert!(drain(&command_rx).is_empty());
}

#[test]
fn distributor_hands_back_a_link_that_still_works() {
    let (channels, far) = wired(&[A]);
    let (outcome, mut link) = distributor(params(1, 1, 0, 1), channels);
    assert_eq!(outcome, Ok(()));
    assert_eq!(drain(&far.events).len(), 3);
    assert_eq!(link.emit(Event::TurnComplete { completed_turns: 9 }), Ok(()));
    assert_eq!(drain(&far.events), vec![Event::TurnComplete { completed_turns: 9 }]);
}

#[test]
fn bounded_channels_of_ordinary_capacity_are_used() {
    let (events_tx, events_rx) = flume::bounded(8);
    let (command_tx, command_rx) = flume::bounded(8);
    let (idle_tx, idle_rx) = flume::bounded(1);
    let (input_tx, input_rx) = flume::bounded(4);
    for cell in [A, A, A, A] {
        input_tx.send(cell).unwrap();
    }
    idle_tx.send(true).unwrap();
    let mut link = Link::new(events_tx, command_tx, idle_rx, Some(input_rx));
    assert_eq!(run(&params(2, 2, 1, 1), &mut link), Ok(()));
    assert_eq!(drain(&events_rx).len(), 4);
    assert_eq!(drain(&command_rx), vec![IoCommand::IoInput, IoCommand::IoCheckIdle]);
}

#[test]
fn sending_channels_of_the_largest_capacity_are_served() {
    let (events_tx, events_rx) = flume::bounded(usize::MAX);
    let (command_tx, command_rx) = flume::bounded(usize::MAX);
    let (_idle_tx, idle_rx) = flume::unbounded();
    let mut link = Link::new(events_tx, command_tx, idle_rx, None);
    assert_eq!(link.emit(Event::TurnComplete { completed_turns: 1 }), Ok(()));
    assert_eq!(link.request_input(), Ok(()));
    assert_eq!(events_rx.len(), 1);
    assert_eq!(command_rx.len(), 1);
}

#[test]
fn input_channel_of_the_largest_capacity_is_refused() {
    let (input_tx, input_rx) = flume::bounded(usize::MAX);
    input_tx.send(A).unwrap();
    let (mut channels, far) = wired(&[]);
    channels.io_input = Some(input_rx);
    assert_eq!(
        distributor(params(1, 1, 1, 1), channels).0,
        Err(DistributorError::InputUnavailable)
    );
    assert!(drain(&far.events).is_empty());
    assert_eq!(drain(&far.commands), vec![IoCommand::IoInput]);
}

#[test]
fn idle_channel_of_the_largest_capacity_is_refused() {
    let (idle_tx, idle_rx) = flume::bounded(usize::MAX);
    idle_tx.send(true).unwrap();
    let (mut channels, far) = wired(&[A]);
    channels.io_idle = Some(idle_rx);
    assert_eq!(
        distributor(params(1, 1, 0, 1), channels).0,
        Err(DistributorError::IdleSignalLost)
    );
    assert_eq!(
        drain(&far.events),
        vec![
            Event::StateChange { completed_turns: 0, new_state: State::Executing },
            Event::FinalTurnComplete { completed_turns: 0, alive: vec![at(0, 0)] },
        ]
    );
    // The idle check is not even asked for.
    assert_eq!(drain(&far.commands), vec![IoCommand::IoInput]);
}

#[test]
fn key_presses_are_left_in_their_channel() {
    let (key_tx, key_rx) = flume::unbounded::<char>();
    key_tx.send('p').unwrap();
    let (events_tx, events_rx) = flume::unbounded();
    let (command_tx, _command_rx) = flume::unbounded();
    let (idle_tx, idle_rx) = flume::unbounded();
    let (input_tx, input_rx) = flume::unbounded();
    input_tx.send(D).unwrap();
    idle_tx.send(true).unwrap();
    let channels = DistributorChannels {
        events: Some(events_tx),
        key_presses: Some(key_rx.clone()),
        io_command: Some(command_tx),
        io_idle: Some(idle_rx),
        io_filename: None,
        io_input: Some(input_rx),
        io_output: None,
    };
    assert_eq!(distributor(params(1, 1, 2, 1), channels).0, Ok(()));
    assert_eq!(drain(&events_rx).len(), 5);
    assert_eq!(drain(&key_rx), vec!['p']);
}

#[test]
fn dead_grid_run_reports_only_completions() {
    let (channels, far) = wired(&[D; 12]);
    assert_eq!(distributor(params(4, 3, 3, 2), channels).0, Ok(()));
    assert_eq!(
        drain(&far.events),
        vec![
            Event::StateChange { completed_turns: 0, new_state: State::Executing },
            Event::TurnComplete { completed_turns: 1 },
            Event::TurnComplete { completed_turns: 2 },
            Event::TurnComplete { completed_turns: 3 },
            Event::FinalTurnComplete { completed_turns: 3, alive: vec![] },
            Event::StateChange { completed_turns: 3, new_state: State::Quitting },
        ]
    );
}

#[test]
fn lone_cell_run_reports_its_death() {
    // In a corner, on a border and inside the grid.
    for (x, y) in [(0usize, 0usize), (2, 0), (3, 2), (1, 1)] {
        let mut cells = vec![D; 12];
        cells[y * 4 + x] = A;
        let (channels, far) = wired(&cells);
        assert_eq!(distributor(params(4, 3, 1, 3), channels).0, Ok(()));
        assert_eq!(
            drain(&far.events),
            vec![
                Event::StateChange { completed_turns: 0, new_state: State::Executing },
                Event::CellsFlipped { completed_turns: 1, cells: vec![at(x, y)] },
                Event::TurnComplete { completed_turns: 1 },
                Event::FinalTurnComplete { completed_turns: 1, alive: vec![] },
                Event::StateChange { completed_turns: 1, new_state: State::Quitting },
            ]
        );
    }
}
