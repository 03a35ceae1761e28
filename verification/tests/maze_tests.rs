use maze_maker::MazeError;
use maze_maker::grid::Direction;
use maze_maker::grid::Grid;
use maze_maker::rng::random_start;
use maze_maker::walker::StepEvent;
use maze_maker::walker::Walker;

fn count_open(flags: &Vec<bool>) -> usize {
    flags.iter().filter(|b| **b).count()
}

fn count_visited(grid: &Grid) -> usize {
    grid.visited.iter().filter(|b| **b).count()
}

fn assert_history_distinct(walker: &Walker) {
    for i in 0..walker.history.len() {
        for j in (i + 1)..walker.history.len() {
            assert_ne!(walker.history[i], walker.history[j]);
        }
        assert_ne!(walker.history[i], (walker.row, walker.col));
    }
}

/// A small deterministic generator standing in for the random source.
fn lcg_next(state: &mut u64) -> usize {
    *state = state
        .wrapping_mul(6364136223846793005)
        .wrapping_add(1442695040888963407);
    (*state >> 33) as usize
}

#[test]
fn zero_dimension_rejected() {
    assert_eq!(
        Grid::new(0, 5).map(|_| ()),
        Err(MazeError::InvalidDimensions)
    );
    assert_eq!(
        Grid::new(3, 0).map(|_| ()),
        Err(MazeError::InvalidDimensions)
    );
    assert_eq!(
        Walker::new(0, 3, 0, 0).map(|_| ()),
        Err(MazeError::InvalidDimensions)
    );
    assert_eq!(
        Walker::new(4, 0, 0, 0).map(|_| ()),
        Err(MazeError::InvalidDimensions)
    );
}

#[test]
fn out_of_bounds_start_rejected() {
    assert_eq!(
        Walker::new(3, 3, 3, 0).map(|_| ()),
        Err(MazeError::OutOfBounds)
    );
    assert_eq!(
        Walker::new(3, 3, 0, 7).map(|_| ()),
        Err(MazeError::OutOfBounds)
    );
}

#[test]
fn out_of_bounds_queries_rejected() {
    let grid = Grid::new(2, 3).unwrap();
    assert_eq!(grid.is_visited(2, 0), Err(MazeError::OutOfBounds));
    assert_eq!(grid.is_visited(0, 3), Err(MazeError::OutOfBounds));
    // a boundary wall has no cell on the far side
    assert_eq!(grid.has_wall(0, 0, Direction::North), Err(MazeError::OutOfBounds));
    assert_eq!(grid.has_wall(0, 0, Direction::West), Err(MazeError::OutOfBounds));
    assert_eq!(grid.has_wall(1, 2, Direction::South), Err(MazeError::OutOfBounds));
    assert_eq!(grid.has_wall(1, 2, Direction::East), Err(MazeError::OutOfBounds));
}

#[test]
fn fresh_grid_all_walls_present() {
    let grid = Grid::new(2, 2).unwrap();
    assert_eq!(grid.is_visited(1, 1), Ok(false));
    assert_eq!(grid.has_wall(0, 0, Direction::East), Ok(true));
    assert_eq!(grid.has_wall(0, 0, Direction::South), Ok(true));
    assert_eq!(grid.has_wall(1, 1, Direction::North), Ok(true));
    assert_eq!(grid.has_wall(1, 1, Direction::West), Ok(true));
    assert_eq!(count_open(&grid.east_open), 0);
    assert_eq!(count_open(&grid.south_open), 0);
}

#[test]
fn wall_shared_between_neighbors() {
    let mut grid = Grid::new(2, 2).unwrap();
    grid.mark_visited(0, 0).unwrap();
    grid.mark_visited(0, 1).unwrap();
    // removing from either side clears the same wall
    grid.remove_wall(0, 1, Direction::West).unwrap();
    assert_eq!(grid.has_wall(0, 0, Direction::East), Ok(false));
    assert_eq!(grid.has_wall(0, 1, Direction::West), Ok(false));
    // the other walls still stand
    assert_eq!(grid.has_wall(0, 0, Direction::South), Ok(true));
    assert_eq!(grid.has_wall(1, 0, Direction::East), Ok(true));
    assert_eq!(count_open(&grid.east_open) + count_open(&grid.south_open), 1);
}

#[test]
fn mark_visited_idempotent() {
    let mut grid = Grid::new(2, 2).unwrap();
    grid.mark_visited(0, 0).unwrap();
    grid.mark_visited(0, 1).unwrap();
    grid.remove_wall(0, 0, Direction::East).unwrap();
    let visited_before = grid.visited.clone();
    let east_before = grid.east_open.clone();
    let south_before = grid.south_open.clone();
    // marking an already-visited cell changes nothing at all
    assert_eq!(grid.mark_visited(0, 1), Ok(()));
    assert_eq!(grid.visited, visited_before);
    assert_eq!(grid.east_open, east_before);
    assert_eq!(grid.south_open, south_before);
}

#[test]
fn single_cell_finishes_immediately() {
    let (mut walker, mut grid) = Walker::new(1, 1, 0, 0).unwrap();
    assert!(!walker.is_finished());
    assert_eq!(walker.position(), (0, 0));
    let event = walker.advance_one_step(&mut grid).unwrap();
    assert_eq!(event, StepEvent::Finished);
    assert!(walker.is_finished());
    assert_eq!(count_open(&grid.east_open) + count_open(&grid.south_open), 0);
}

#[test]
fn advance_after_finished_is_logic_error() {
    let (mut walker, mut grid) = Walker::new(1, 1, 0, 0).unwrap();
    assert_eq!(walker.advance_one_step(&mut grid), Ok(StepEvent::Finished));
    assert_eq!(
        walker.advance_one_step(&mut grid),
        Err(MazeError::LogicError)
    );
    assert_eq!(
        walker.advance_with_choice(&mut grid, 3),
        Err(MazeError::LogicError)
    );
}

#[test]
fn single_row_moves_are_horizontal() {
    let (mut walker, mut grid) = Walker::new(1, 5, 0, 2).unwrap();
    let mut steps = 0;
    while !walker.is_finished() {
        let event = walker.advance_one_step(&mut grid).unwrap();
        if let StepEvent::WallRemoved {
            from_row,
            from_col,
            to_row,
            to_col,
        } = event
        {
            assert_eq!(from_row, 0);
            assert_eq!(to_row, 0);
            assert_eq!(from_col.abs_diff(to_col), 1);
        }
        steps += 1;
        assert!(steps < 1000);
    }
    assert_eq!(count_visited(&grid), 5);
    assert_eq!(count_open(&grid.east_open), 4);
    assert_eq!(count_open(&grid.south_open), 0);
}

#[test]
fn three_by_three_from_center() {
    let (mut walker, mut grid) = Walker::new(3, 3, 1, 1).unwrap();
    let mut last_event = None;
    let mut steps = 0;
    while !walker.is_finished() {
        last_event = Some(walker.advance_one_step(&mut grid).unwrap());
        steps += 1;
        assert!(steps < 1000);
    }
    assert_eq!(last_event, Some(StepEvent::Finished));
    for r in 0..3 {
        for c in 0..3 {
            assert_eq!(grid.is_visited(r, c), Ok(true));
        }
    }
    assert_eq!(count_open(&grid.east_open) + count_open(&grid.south_open), 8);
}

#[test]
fn backtrack_before_finish_on_two_by_two() {
    let (mut walker, mut grid) = Walker::new(2, 2, 0, 0).unwrap();
    let mut events = Vec::new();
    // always take the first candidate: east, south, west around the
    // square, dead-ending at (1, 0) with three positions stacked
    while !walker.is_finished() {
        events.push(walker.advance_with_choice(&mut grid, 0).unwrap());
        assert_history_distinct(&walker);
        assert!(events.len() < 100);
    }
    assert_eq!(
        events,
        vec![
            StepEvent::WallRemoved { from_row: 0, from_col: 0, to_row: 0, to_col: 1 },
            StepEvent::WallRemoved { from_row: 0, from_col: 1, to_row: 1, to_col: 1 },
            StepEvent::WallRemoved { from_row: 1, from_col: 1, to_row: 1, to_col: 0 },
            StepEvent::Backtracked { to_row: 1, to_col: 1 },
            StepEvent::Backtracked { to_row: 0, to_col: 1 },
            StepEvent::Backtracked { to_row: 0, to_col: 0 },
            StepEvent::Finished,
        ]
    );
    assert_eq!(count_open(&grid.east_open) + count_open(&grid.south_open), 3);
}

#[test]
fn seeded_runs_are_identical() {
    let mut traces: Vec<(Vec<StepEvent>, Vec<bool>, Vec<bool>)> = Vec::new();
    for _ in 0..2 {
        let (mut walker, mut grid) = Walker::new(4, 4, 2, 1).unwrap();
        let mut seed: u64 = 20240117;
        let mut events = Vec::new();
        while !walker.is_finished() {
            let pick = lcg_next(&mut seed);
            events.push(walker.advance_with_choice(&mut grid, pick).unwrap());
            assert!(events.len() < 10000);
        }
        traces.push((events, grid.east_open.clone(), grid.south_open.clone()));
    }
    assert_eq!(traces[0], traces[1]);
}

#[test]
fn random_run_completes() {
    let (mut walker, mut grid) = Walker::new(5, 5, 0, 4).unwrap();
    let mut last_event = None;
    let mut steps = 0;
    while !walker.is_finished() {
        last_event = Some(walker.advance_one_step(&mut grid).unwrap());
        assert_history_distinct(&walker);
        steps += 1;
        assert!(steps < 10000);
    }
    assert_eq!(last_event, Some(StepEvent::Finished));
    assert_eq!(count_visited(&grid), 25);
    assert_eq!(count_open(&grid.east_open) + count_open(&grid.south_open), 24);
}

#[test]
fn random_start_in_bounds() {
    for _ in 0..50 {
        let (r, c) = random_start(5, 7);
        assert!(r < 5);
        assert!(c < 7);
    }
}
