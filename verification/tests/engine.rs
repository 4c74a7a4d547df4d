use gol::cell::{CellCoord, CellValue};
use gol::grid::Grid;
use gol::partition::{assignment, WorkAssignment};
use gol::rules::{count_alive_neighbors, next_state};
use gol::turn::{compute_rows, step, write_rows};

const D: CellValue = CellValue::Dead;
const A: CellValue = CellValue::Alive;

fn at(x: usize, y: usize) -> CellCoord {
    CellCoord { x, y }
}

fn grid_of(width: usize, height: usize, alive: &[(usize, usize)]) -> Grid {
    let mut grid = Grid::new(width, height).unwrap();
    for &(x, y) in alive {
        grid.set(x, y, A);
    }
    grid
}

#[test]
fn neighbors_are_counted_inside_the_grid_only() {
    let world = vec![A, A, A, A, A, A, A, A, A];
    assert_eq!(count_alive_neighbors(&world, 3, 3, 1, 1), 8);
    assert_eq!(count_alive_neighbors(&world, 3, 3, 0, 0), 3);
    assert_eq!(count_alive_neighbors(&world, 3, 3, 2, 0), 3);
    assert_eq!(count_alive_neighbors(&world, 3, 3, 1, 0), 5);
    assert_eq!(count_alive_neighbors(&world, 3, 3, 0, 1), 5);
    assert_eq!(count_alive_neighbors(&world, 3, 3, 2, 2), 3);
}

#[test]
fn neighbors_do_not_wrap_around() {
    // Alive cells in the last column and the last row only.
    let world = vec![D, D, A, D, D, A, A, A, A];
    assert_eq!(count_alive_neighbors(&world, 3, 3, 0, 0), 0);
    assert_eq!(count_alive_neighbors(&world, 3, 3, 0, 1), 2);
    assert_eq!(count_alive_neighbors(&world, 3, 3, 1, 0), 2);
}

#[test]
fn the_cell_itself_is_not_its_neighbor() {
    let world = vec![D, D, D, D, A, D, D, D, D];
    assert_eq!(count_alive_neighbors(&world, 3, 3, 1, 1), 0);
    assert_eq!(count_alive_neighbors(&world, 3, 3, 0, 0), 1);
}

#[test]
fn neighbors_of_a_position_off_the_grid() {
    let world = vec![A, A, A, A];
    assert_eq!(count_alive_neighbors(&world, 2, 2, 2, 0), 2);
    assert_eq!(count_alive_neighbors(&world, 2, 2, 2, 2), 1);
    assert_eq!(count_alive_neighbors(&world, 2, 2, 3, 3), 0);
    assert_eq!(count_alive_neighbors(&world, 2, 2, usize::MAX, usize::MAX), 0);
    let empty: Vec<CellValue> = Vec::new();
    assert_eq!(count_alive_neighbors(&empty, 0, 5, 0, 0), 0);
}

#[test]
fn rule_for_each_neighbor_count() {
    let alive_next = [D, D, A, A, D, D, D, D, D];
    let dead_next = [D, D, D, A, D, D, D, D, D];
    for n in 0..9u32 {
        assert_eq!(next_state(A, n), alive_next[n as usize]);
        assert_eq!(next_state(D, n), dead_next[n as usize]);
    }
}

#[test]
fn rows_split_evenly() {
    for worker in 0..4 {
        assert_eq!(
            assignment(16, 4, worker),
            WorkAssignment { start_row: worker * 4, end_row: worker * 4 + 4 }
        );
    }
}

#[test]
fn remainder_rows_go_to_the_first_workers() {
    assert_eq!(assignment(10, 4, 0), WorkAssignment { start_row: 0, end_row: 3 });
    assert_eq!(assignment(10, 4, 1), WorkAssignment { start_row: 3, end_row: 6 });
    assert_eq!(assignment(10, 4, 2), WorkAssignment { start_row: 6, end_row: 8 });
    assert_eq!(assignment(10, 4, 3), WorkAssignment { start_row: 8, end_row: 10 });
}

#[test]
fn more_workers_than_rows_leaves_some_idle() {
    assert_eq!(assignment(2, 5, 0), WorkAssignment { start_row: 0, end_row: 1 });
    assert_eq!(assignment(2, 5, 1), WorkAssignment { start_row: 1, end_row: 2 });
    assert_eq!(assignment(2, 5, 2), WorkAssignment { start_row: 2, end_row: 2 });
    assert_eq!(assignment(2, 5, 4), WorkAssignment { start_row: 2, end_row: 2 });
    assert_eq!(assignment(0, 3, 1), WorkAssignment { start_row: 0, end_row: 0 });
}

#[test]
fn one_worker_takes_every_row() {
    assert_eq!(assignment(7, 1, 0), WorkAssignment { start_row: 0, end_row: 7 });
    assert_eq!(
        assignment(usize::MAX, 1, 0),
        WorkAssignment { start_row: 0, end_row: usize::MAX }
    );
}

#[test]
fn assignments_tile_the_rows_and_are_balanced() {
    for height in 0..40usize {
        for threads in 1..45usize {
            let mut next_row = 0;
            let mut least = usize::MAX;
            let mut most = 0;
            for worker in 0..threads {
                let rows = assignment(height, threads, worker);
                assert_eq!(rows.start_row, next_row);
                assert!(rows.start_row <= rows.end_row);
                next_row = rows.end_row;
                let size = rows.end_row - rows.start_row;
                least = least.min(size);
                most = most.max(size);
            }
            assert_eq!(next_row, height);
            assert!(most - least <= 1);
        }
    }
}

#[test]
fn grid_new_is_all_dead() {
    let grid = Grid::new(4, 3).unwrap();
    assert_eq!(grid.width(), 4);
    assert_eq!(grid.height(), 3);
    assert_eq!(grid.snapshot(), &vec![D; 12]);
    assert!(grid.alive_cells().is_empty());
}

#[test]
fn grid_too_large_to_address() {
    assert!(Grid::new(usize::MAX, 2).is_none());
    assert!(Grid::from_cells(usize::MAX, 2, vec![D, D]).is_none());
    assert!(Grid::new(usize::MAX, 0).is_some());
}

#[test]
fn grid_from_cells_checks_the_size() {
    assert!(Grid::from_cells(2, 2, vec![D, A, A]).is_none());
    assert!(Grid::from_cells(2, 2, vec![D, A, A, D, D]).is_none());
    let grid = Grid::from_cells(2, 2, vec![D, A, A, D]).unwrap();
    assert_eq!(grid.get(1, 0), A);
    assert_eq!(grid.get(0, 1), A);
    assert_eq!(grid.get(0, 0), D);
    assert_eq!(grid.get(1, 1), D);
}

#[test]
fn grid_set_then_get_is_row_major() {
    let mut grid = Grid::new(3, 2).unwrap();
    grid.set(2, 1, A);
    grid.set(1, 0, A);
    assert_eq!(grid.get(2, 1), A);
    assert_eq!(grid.snapshot(), &vec![D, A, D, D, D, A]);
    grid.set(2, 1, D);
    assert_eq!(grid.snapshot(), &vec![D, A, D, D, D, D]);
}

#[test]
fn grid_replace_swaps_every_cell() {
    let mut grid = Grid::new(2, 2).unwrap();
    grid.replace(vec![A, D, D, A]);
    assert_eq!(grid.snapshot(), &vec![A, D, D, A]);
    assert_eq!(grid.width(), 2);
    assert_eq!(grid.height(), 2);
}

#[test]
fn alive_cells_come_in_row_major_order() {
    let grid = grid_of(3, 3, &[(2, 2), (0, 1), (1, 0), (2, 0)]);
    assert_eq!(grid.alive_cells(), vec![at(1, 0), at(2, 0), at(0, 1), at(2, 2)]);
}

#[test]
fn commit_reports_changes_in_row_major_order() {
    let mut grid = Grid::from_cells(2, 2, vec![A, D, A, D]).unwrap();
    let flipped = grid.commit(&vec![D, D, A, A]);
    assert_eq!(flipped, vec![at(0, 0), at(1, 1)]);
    assert_eq!(grid.snapshot(), &vec![D, D, A, A]);
    let again = grid.commit(&vec![D, D, A, A]);
    assert!(again.is_empty());
}

#[test]
fn compute_rows_gives_only_the_rows_asked_for() {
    // A vertical blinker in a 3x3 grid turns horizontal.
    let world = vec![D, A, D, D, A, D, D, A, D];
    let middle = compute_rows(&world, 3, 3, WorkAssignment { start_row: 1, end_row: 2 });
    assert_eq!(middle, vec![A, A, A]);
    let top = compute_rows(&world, 3, 3, WorkAssignment { start_row: 0, end_row: 1 });
    assert_eq!(top, vec![D, D, D]);
    let none = compute_rows(&world, 3, 3, WorkAssignment { start_row: 2, end_row: 2 });
    assert!(none.is_empty());
    let all = compute_rows(&world, 3, 3, WorkAssignment { start_row: 0, end_row: 3 });
    assert_eq!(all, vec![D, D, D, A, A, A, D, D, D]);
}

#[test]
fn write_rows_touches_only_its_rows() {
    let mut staging = vec![D; 8];
    write_rows(&mut staging, 2, 1, &vec![A, A, A, D]);
    assert_eq!(staging, vec![D, D, A, A, A, D, D, D]);
    write_rows(&mut staging, 2, 3, &vec![A, A]);
    assert_eq!(staging, vec![D, D, A, A, A, D, A, A]);
    write_rows(&mut staging, 2, 4, &vec![]);
    assert_eq!(staging, vec![D, D, A, A, A, D, A, A]);
}

#[test]
fn all_dead_grid_stays_dead() {
    let mut grid = Grid::new(5, 4).unwrap();
    let flipped = step(&mut grid, 3);
    assert!(flipped.is_empty());
    assert_eq!(grid.snapshot(), &vec![D; 20]);
}

#[test]
fn isolated_cell_dies() {
    let mut grid = grid_of(5, 5, &[(2, 2)]);
    let flipped = step(&mut grid, 2);
    assert_eq!(flipped, vec![at(2, 2)]);
    assert!(grid.alive_cells().is_empty());
}

#[test]
fn isolated_cell_in_a_corner_dies() {
    let mut grid = grid_of(3, 3, &[(0, 0)]);
    let flipped = step(&mut grid, 1);
    assert_eq!(flipped, vec![at(0, 0)]);
    assert!(grid.alive_cells().is_empty());
}

#[test]
fn block_is_a_still_life() {
    let block = vec![at(1, 1), at(2, 1), at(1, 2), at(2, 2)];
    let mut grid = grid_of(4, 4, &[(1, 1), (2, 1), (1, 2), (2, 2)]);
    for _ in 0..10 {
        let flipped = step(&mut grid, 3);
        assert!(flipped.is_empty());
        assert_eq!(grid.alive_cells(), block);
    }
}

#[test]
fn block_in_a_corner_is_a_still_life() {
    let block = vec![at(0, 0), at(1, 0), at(0, 1), at(1, 1)];
    let mut grid = grid_of(2, 2, &[(0, 0), (1, 0), (0, 1), (1, 1)]);
    for _ in 0..5 {
        assert!(step(&mut grid, 2).is_empty());
        assert_eq!(grid.alive_cells(), block);
    }
}

#[test]
fn blinker_oscillates_with_period_two() {
    let horizontal = vec![at(1, 2), at(2, 2), at(3, 2)];
    let vertical = vec![at(2, 1), at(2, 2), at(2, 3)];
    let mut grid = grid_of(5, 5, &[(1, 2), (2, 2), (3, 2)]);
    let first = step(&mut grid, 2);
    assert_eq!(grid.alive_cells(), vertical);
    assert_eq!(first, vec![at(2, 1), at(1, 2), at(3, 2), at(2, 3)]);
    let second = step(&mut grid, 2);
    assert_eq!(grid.alive_cells(), horizontal);
    assert_eq!(second, vec![at(2, 1), at(1, 2), at(3, 2), at(2, 3)]);
}

#[test]
fn blinker_at_the_edge_dies_out() {
    // A row of three along the top edge: the bounded grid has no row above
    // it, so only two cells follow and the pattern does not oscillate.
    let mut grid = grid_of(5, 5, &[(1, 0), (2, 0), (3, 0)]);
    step(&mut grid, 1);
    assert_eq!(grid.alive_cells(), vec![at(2, 0), at(2, 1)]);
    step(&mut grid, 1);
    assert!(grid.alive_cells().is_empty());
}

#[test]
fn worker_count_does_not_change_the_result() {
    // A glider and a blinker on an 8x7 grid.
    let start = [(1, 0), (2, 1), (0, 2), (1, 2), (2, 2), (5, 4), (5, 5), (5, 6)];
    let mut reference = grid_of(8, 7, &start);
    let mut reference_flips = Vec::new();
    for _ in 0..12 {
        reference_flips.push(step(&mut reference, 1));
    }
    for threads in [2usize, 3, 4, 5, 6, 7, 8, 9, 20] {
        let mut grid = grid_of(8, 7, &start);
        for turn in 0..12 {
            assert_eq!(step(&mut grid, threads), reference_flips[turn]);
        }
        assert_eq!(grid.alive_cells(), reference.alive_cells());
        assert_eq!(grid.snapshot(), reference.snapshot());
    }
}

#[test]
fn step_on_an_empty_grid() {
    let mut grid = Grid::new(0, 0).unwrap();
    assert!(step(&mut grid, 4).is_empty());
    let mut flat = Grid::new(3, 0).unwrap();
    assert!(step(&mut flat, 1).is_empty());
    let mut thin = Grid::new(0, 3).unwrap();
    assert!(step(&mut thin, 2).is_empty());
}

#[test]
fn birth_needs_exactly_three_neighbors() {
    // An L of three cells fills in its fourth corner.
    let mut grid = grid_of(3, 3, &[(0, 0), (1, 0), (0, 1)]);
    let flipped = step(&mut grid, 1);
    assert_eq!(flipped, vec![at(1, 1)]);
    assert_eq!(grid.alive_cells(), vec![at(0, 0), at(1, 0), at(0, 1), at(1, 1)]);
}

#[test]
fn crowded_cell_dies() {
    // The centre of a plus has four neighbours.
    let mut grid = grid_of(3, 3, &[(1, 0), (0, 1), (1, 1), (2, 1), (1, 2)]);
    step(&mut grid, 2);
    assert_eq!(grid.get(1, 1), D);
    assert_eq!(
        grid.alive_cells(),
        vec![at(0, 0), at(1, 0), at(2, 0), at(0, 1), at(2, 1), at(0, 2), at(1, 2), at(2, 2)]
    );
}
