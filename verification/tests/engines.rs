use life_rust::game_impls::partition::{partition, thread_slice_size};
use life_rust::game_impls::{compute, cpu, cpu_ndarray};
use life_rust::render::render_cells;
use life_rust::{Gol, GolError};

fn cells(rows: &[&str]) -> Vec<bool> {
    let mut out = Vec::new();
    for row in rows {
        for c in row.chars() {
            out.push(c == '1');
        }
    }
    out
}

fn glider() -> Vec<bool> {
    cells(&[
        "0100000", //
        "0010000", //
        "1110000", //
        "0000000", //
        "0000000", //
        "0000000", //
        "0000000",
    ])
}

fn step_many<T: Gol>(size: usize, start: &[bool], steps: usize) -> Vec<Vec<bool>> {
    let mut game = T::from_slice(size, start).unwrap();
    let mut seen = Vec::new();
    for _ in 0..steps {
        game = game.to_next();
        seen.push(game.to_vec());
    }
    seen
}

#[test]
fn engines_agree_on_a_glider() {
    let start = glider();
    let scalar = step_many::<cpu::GameState>(7, &start, 30);
    let vector = step_many::<cpu_ndarray::GameState>(7, &start, 30);
    let kernel = step_many::<compute::GameState>(7, &start, 30);
    assert_eq!(scalar, vector);
    assert_eq!(scalar, kernel);
    // a glider moves one cell down and one cell right every four steps
    let moved = cells(&[
        "0000000", //
        "0010000", //
        "0001000", //
        "0111000", //
        "0000000", //
        "0000000", //
        "0000000",
    ]);
    assert_eq!(scalar[3], moved);
    // and is back where it started after seven such moves around the torus
    assert_eq!(scalar[27], start);
}

#[test]
fn engines_agree_on_a_dense_grid() {
    let size = 11;
    let mut start = Vec::new();
    for i in 0..size * size {
        start.push((i * i + 3 * i) % 7 < 3);
    }
    let scalar = step_many::<cpu::GameState>(size, &start, 5);
    let vector = step_many::<cpu_ndarray::GameState>(size, &start, 5);
    let kernel = step_many::<compute::GameState>(size, &start, 5);
    assert_eq!(scalar, vector);
    assert_eq!(scalar, kernel);
}

#[test]
fn parallel_step_is_the_same_for_every_thread_count() {
    let size = 7;
    let start = glider();
    let previous = cpu::GameState::from_slice(size, &start).unwrap();
    let expected = previous.to_next().to_vec();
    // 49 cells: 1, 2 and 4 workers, counts that do not divide 49 evenly, one
    // worker per cell, and more workers than cells
    for threads in [1usize, 2, 4, 3, 5, 6, 7, 48, 49, 50, 200] {
        let next = cpu::GameState::from_previous_parallel(&previous, threads);
        assert_eq!(next.to_vec(), expected, "threads = {}", threads);
    }
}

#[test]
fn parallel_step_of_the_blinker() {
    let start = cells(&["00000", "00100", "00100", "00100", "00000"]);
    let expected = cells(&["00000", "00000", "01110", "00000", "00000"]);
    let previous = cpu::GameState::from_slice(5, &start).unwrap();
    let next = cpu::GameState::from_previous_parallel(&previous, 3);
    assert_eq!(next.to_vec(), expected);
    let back = cpu::GameState::from_previous_parallel(&next, 4);
    assert_eq!(back.to_vec(), start);
}

#[test]
fn slice_size_is_rounded_up() {
    assert_eq!(thread_slice_size(25, 4), 7);
    assert_eq!(thread_slice_size(16, 4), 4);
    assert_eq!(thread_slice_size(10, 3), 4);
    assert_eq!(thread_slice_size(4, 8), 1);
    assert_eq!(thread_slice_size(1, 1), 1);
    assert_eq!(thread_slice_size(0, 3), 0);
}

#[test]
fn partition_gives_every_index_to_one_worker() {
    assert_eq!(partition(25, 4), vec![(0, 7), (7, 14), (14, 21), (21, 25)]);
    assert_eq!(partition(16, 4), vec![(0, 4), (4, 8), (8, 12), (12, 16)]);
    assert_eq!(partition(10, 3), vec![(0, 4), (4, 8), (8, 10)]);
    assert_eq!(partition(1, 1), vec![(0, 1)]);
    // more workers than cells: the workers that are left get empty slices
    assert_eq!(partition(4, 6), vec![(0, 1), (1, 2), (2, 3), (3, 4), (4, 4), (4, 4)]);
    // 9 cells, 4 workers: the target of 3 is reached by the first three
    assert_eq!(partition(9, 4), vec![(0, 3), (3, 6), (6, 9), (9, 9)]);
    for cells in 0..40usize {
        for threads in 1..12usize {
            let ranges = partition(cells, threads);
            assert_eq!(ranges.len(), threads);
            let mut next = 0;
            for (start, end) in ranges {
                assert_eq!(start, next);
                assert!(start <= end);
                next = end;
            }
            assert_eq!(next, cells);
        }
    }
}

#[test]
fn slices_are_runs_of_the_next_generation() {
    let start = glider();
    let previous = cpu::GameState::from_slice(7, &start).unwrap();
    let expected = previous.to_next().to_vec();
    assert_eq!(previous.next_states_for_slice(0, 49), expected);
    assert_eq!(previous.next_states_for_slice(10, 25), expected[10..25].to_vec());
    assert_eq!(previous.next_states_for_slice(49, 49), Vec::<bool>::new());
    assert_eq!(previous.next_states_for_slice(0, 0), Vec::<bool>::new());
}

#[test]
fn assemble_puts_the_slices_together() {
    let start = cells(&["00000", "00100", "00100", "00100", "00000"]);
    let expected = cells(&["00000", "00000", "01110", "00000", "00000"]);
    let previous = cpu::GameState::from_slice(5, &start).unwrap();
    let mut parts = Vec::new();
    for (start, end) in partition(25, 4) {
        parts.push(Some(previous.next_states_for_slice(start, end)));
    }
    let next = cpu::GameState::assemble(&previous, 4, parts).unwrap();
    assert_eq!(next.to_vec(), expected);
}

#[test]
fn assemble_takes_the_cells_as_the_workers_gave_them() {
    let previous = cpu::GameState::from_slice(2, &[false; 4]).unwrap();
    let parts = vec![Some(vec![true, false]), Some(vec![false, true])];
    let next = cpu::GameState::assemble(&previous, 2, parts).unwrap();
    assert_eq!(next.to_vec(), vec![true, false, false, true]);
}

#[test]
fn assemble_fails_without_a_worker() {
    let start = cells(&["00000", "00100", "00100", "00100", "00000"]);
    let previous = cpu::GameState::from_slice(5, &start).unwrap();
    let ranges = partition(25, 4);
    let whole = |k: usize| Some(previous.next_states_for_slice(ranges[k].0, ranges[k].1));

    // a worker that handed back nothing
    let parts = vec![whole(0), None, whole(2), whole(3)];
    assert_eq!(
        cpu::GameState::assemble(&previous, 4, parts).unwrap_err(),
        GolError::WorkerFailure
    );
    // a worker that handed back too little
    let parts = vec![whole(0), whole(1), whole(2), Some(vec![false; 3])];
    assert_eq!(
        cpu::GameState::assemble(&previous, 4, parts).unwrap_err(),
        GolError::WorkerFailure
    );
    // a worker that handed back too much
    let parts = vec![Some(vec![false; 8]), whole(1), whole(2), whole(3)];
    assert_eq!(
        cpu::GameState::assemble(&previous, 4, parts).unwrap_err(),
        GolError::WorkerFailure
    );
    // a worker too few, and one too many
    let parts = vec![whole(0), whole(1), whole(2)];
    assert_eq!(
        cpu::GameState::assemble(&previous, 4, parts).unwrap_err(),
        GolError::WorkerFailure
    );
    let parts = vec![whole(0), whole(1), whole(2), whole(3), Some(Vec::new())];
    assert_eq!(
        cpu::GameState::assemble(&previous, 4, parts).unwrap_err(),
        GolError::WorkerFailure
    );
}

fn shape_mismatch_tester<T: Gol>() {
    assert!(matches!(T::from_slice(3, &[false; 8]), Err(GolError::ShapeMismatch)));
    assert!(matches!(T::from_slice(3, &[false; 10]), Err(GolError::ShapeMismatch)));
    assert!(matches!(T::from_slice(3, &[]), Err(GolError::ShapeMismatch)));
    assert!(matches!(T::from_slice(1, &[true, true]), Err(GolError::ShapeMismatch)));
    assert!(matches!(T::from_slice(usize::MAX, &[true]), Err(GolError::ShapeMismatch)));
    assert!(T::from_slice(3, &[false; 9]).is_ok());
    assert!(T::from_slice(1, &[true]).is_ok());
}

#[test]
fn cpu_rejects_a_wrong_number_of_cells() {
    shape_mismatch_tester::<cpu::GameState>();
}

#[test]
fn cpu_ndarray_rejects_a_wrong_number_of_cells() {
    shape_mismatch_tester::<cpu_ndarray::GameState>();
}

#[test]
fn compute_rejects_a_wrong_number_of_cells() {
    shape_mismatch_tester::<compute::GameState>();
}

fn round_trip_tester<T: Gol>() {
    let start = glider();
    let game = T::from_slice(7, &start).unwrap();
    assert_eq!(game.to_vec(), start);
    // reading does not change what is read
    assert_eq!(game.to_vec(), game.to_vec());
    let next = game.to_next();
    // stepping does not change the generation that was stepped
    assert_eq!(game.to_vec(), start);
    assert_eq!(next.to_vec(), next.to_vec());
    assert_eq!(next.to_vec().len(), 49);
}

#[test]
fn cpu_reads_back_what_it_was_given() {
    round_trip_tester::<cpu::GameState>();
}

#[test]
fn cpu_ndarray_reads_back_what_it_was_given() {
    round_trip_tester::<cpu_ndarray::GameState>();
}

#[test]
fn compute_reads_back_what_it_was_given() {
    round_trip_tester::<compute::GameState>();
}

fn dead_grid_tester<T: Gol>() {
    for size in [1usize, 2, 3, 4, 5, 8, 9, 16, 17] {
        let dead = vec![false; size * size];
        let game = T::from_slice(size, &dead).unwrap();
        let next = game.to_next();
        assert_eq!(next.to_vec(), dead, "size = {}", size);
        assert_eq!(next.to_next().to_vec(), dead, "size = {}", size);
    }
}

#[test]
fn cpu_dead_grid_stays_dead() {
    dead_grid_tester::<cpu::GameState>();
}

#[test]
fn cpu_ndarray_dead_grid_stays_dead() {
    dead_grid_tester::<cpu_ndarray::GameState>();
}

#[test]
fn compute_dead_grid_stays_dead() {
    dead_grid_tester::<compute::GameState>();
}

fn wrap_tester<T: Gol>() {
    // a blinker that lies across the lower and the upper border
    let start = cells(&["10000", "10000", "00000", "00000", "10000"]);
    let expected = cells(&["11001", "00000", "00000", "00000", "00000"]);
    let game = T::from_slice(5, &start).unwrap();
    let next = game.to_next();
    assert_eq!(next.to_vec(), expected);
    assert_eq!(next.to_next().to_vec(), start);

    // a blinker that lies across the right and the left border
    let start = cells(&["00000", "00000", "11001", "00000", "00000"]);
    let expected = cells(&["00000", "10000", "10000", "10000", "00000"]);
    let game = T::from_slice(5, &start).unwrap();
    assert_eq!(game.to_next().to_vec(), expected);
}

#[test]
fn cpu_wraps_around_the_borders() {
    wrap_tester::<cpu::GameState>();
}

#[test]
fn cpu_ndarray_wraps_around_the_borders() {
    wrap_tester::<cpu_ndarray::GameState>();
}

#[test]
fn compute_wraps_around_the_borders() {
    wrap_tester::<compute::GameState>();
}

fn tiny_grid_tester<T: Gol>() {
    // on a grid of one cell, the cell is all eight of its own neighbours
    let game = T::from_slice(1, &[true]).unwrap();
    assert_eq!(game.to_next().to_vec(), vec![false]);
    let game = T::from_slice(1, &[false]).unwrap();
    assert_eq!(game.to_next().to_vec(), vec![false]);

    // on a grid of side two, every other cell is a neighbour twice or four
    // times over
    let game = T::from_slice(2, &[true, false, false, false]).unwrap();
    assert_eq!(game.to_next().to_vec(), vec![false, false, false, false]);
    let game = T::from_slice(2, &[true, true, false, false]).unwrap();
    assert_eq!(game.to_next().to_vec(), vec![true, true, false, false]);
    let game = T::from_slice(2, &[true, true, true, true]).unwrap();
    assert_eq!(game.to_next().to_vec(), vec![false, false, false, false]);
}

#[test]
fn cpu_tiny_grids() {
    tiny_grid_tester::<cpu::GameState>();
}

#[test]
fn cpu_ndarray_tiny_grids() {
    tiny_grid_tester::<cpu_ndarray::GameState>();
}

#[test]
fn compute_tiny_grids() {
    tiny_grid_tester::<compute::GameState>();
}

fn rule_tester<T: Gol>() {
    // the middle cell of a grid of side 5, alive or dead, with 0 to 8 live
    // neighbours
    let around = [(1, 1), (2, 1), (3, 1), (1, 2), (3, 2), (1, 3), (2, 3), (3, 3)];
    for alive in [false, true] {
        for count in 0..=8usize {
            let mut start = vec![false; 25];
            start[12] = alive;
            for &(x, y) in around.iter().take(count) {
                start[y * 5 + x] = true;
            }
            let expected = if alive { count == 2 || count == 3 } else { count == 3 };
            let next = T::from_slice(5, &start).unwrap().to_next().to_vec();
            assert_eq!(next[12], expected, "alive = {}, neighbours = {}", alive, count);
        }
    }
}

#[test]
fn cpu_applies_the_rule() {
    rule_tester::<cpu::GameState>();
}

#[test]
fn cpu_ndarray_applies_the_rule() {
    rule_tester::<cpu_ndarray::GameState>();
}

#[test]
fn compute_applies_the_rule() {
    rule_tester::<compute::GameState>();
}

fn render_tester<T: Gol>() {
    let start = cells(&["00000", "00100", "00100", "00100", "00000"]);
    let game = T::from_slice(5, &start).unwrap();
    assert_eq!(game.render(), "00000\n00100\n00100\n00100\n00000\n");
    assert_eq!(game.to_next().render(), "00000\n00000\n01110\n00000\n00000\n");
    let game = T::from_slice(1, &[true]).unwrap();
    assert_eq!(game.render(), "1\n");
    let game = T::from_slice(2, &[true, false, false, true]).unwrap();
    assert_eq!(game.render(), "10\n01\n");
}

#[test]
fn cpu_renders_one_line_per_row() {
    render_tester::<cpu::GameState>();
}

#[test]
fn cpu_ndarray_renders_one_line_per_row() {
    render_tester::<cpu_ndarray::GameState>();
}

#[test]
fn compute_renders_one_line_per_row() {
    render_tester::<compute::GameState>();
}

#[test]
fn render_cells_renders_one_line_per_row() {
    assert_eq!(render_cells(1, &[false]), "0\n");
    assert_eq!(
        render_cells(3, &[true, false, false, false, true, false, true, true, true]),
        "100\n010\n111\n"
    );
}

#[test]
fn cpu_new_grid_is_dead() {
    let game = cpu::GameState::new(4);
    assert_eq!(game.to_vec(), vec![false; 16]);
    let game = cpu_ndarray::GameState::new(3);
    assert_eq!(game.to_vec(), vec![false; 9]);
}

#[test]
fn random_grids_have_the_size_asked_for() {
    for size in [1usize, 2, 5, 16] {
        let game = cpu::GameState::from_random(size);
        assert_eq!(game.to_vec().len(), size * size);
        assert_eq!(game.to_next().to_vec().len(), size * size);
        let game = cpu_ndarray::GameState::from_random(size);
        assert_eq!(game.to_vec().len(), size * size);
        assert_eq!(game.to_next().to_vec().len(), size * size);
        let game = compute::GameState::from_random(size);
        assert_eq!(game.to_vec().len(), size * size);
        assert_eq!(game.texels().len(), size * size);
        assert!(game.texels().iter().all(|t| *t <= 1));
        assert_eq!(game.to_next().to_vec().len(), size * size);
    }
}

#[test]
fn random_grids_step_alike_on_every_engine() {
    let start = cpu::GameState::from_random(13).to_vec();
    let scalar = step_many::<cpu::GameState>(13, &start, 4);
    let vector = step_many::<cpu_ndarray::GameState>(13, &start, 4);
    let kernel = step_many::<compute::GameState>(13, &start, 4);
    assert_eq!(scalar, vector);
    assert_eq!(scalar, kernel);
    let previous = cpu::GameState::from_slice(13, &start).unwrap();
    assert_eq!(cpu::GameState::from_previous_parallel(&previous, 5).to_vec(), scalar[0]);
}

#[test]
fn cpu_coords_from_index() {
    let game = cpu::GameState::new(5);
    assert_eq!(game.coords_from_index(0), (0, 0));
    assert_eq!(game.coords_from_index(4), (4, 0));
    assert_eq!(game.coords_from_index(5), (0, 1));
    assert_eq!(game.coords_from_index(13), (3, 2));
    assert_eq!(game.coords_from_index(24), (4, 4));
}

#[test]
fn next_state_of_single_cells() {
    let start = cells(&["00000", "00100", "00100", "00100", "00000"]);
    let expected = cells(&["00000", "00000", "01110", "00000", "00000"]);
    let scalar = cpu::GameState::from_slice(5, &start).unwrap();
    let vector = cpu_ndarray::GameState::from_slice(5, &start).unwrap();
    for y in 0..5 {
        for x in 0..5 {
            assert_eq!(scalar.next_state_for(y * 5 + x), expected[y * 5 + x]);
            assert_eq!(vector.next_state_for((y, x)), expected[y * 5 + x]);
        }
    }
    // a pattern that is not its own mirror image: rows and columns must not
    // be taken for one another
    let start = glider();
    let expected = cpu::GameState::from_slice(7, &start).unwrap().to_next().to_vec();
    let vector = cpu_ndarray::GameState::from_slice(7, &start).unwrap();
    for row in 0..7 {
        for column in 0..7 {
            assert_eq!(vector.next_state_for((row, column)), expected[row * 7 + column]);
        }
    }
}

#[test]
fn copy_cells_copies() {
    assert_eq!(cpu::copy_cells(&[true, false, true]), vec![true, false, true]);
    assert_eq!(cpu::copy_cells(&[]), Vec::<bool>::new());
}
