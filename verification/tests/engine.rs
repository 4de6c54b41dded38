use life::life::LifeBoard;
use life::{BaseLifeBoard, Cell, LifeBoard as Board, LifeBoardError, ParallelLifeBoard};

fn cells(matrix: &[Vec<bool>]) -> Vec<Vec<Cell>> {
    matrix
        .iter()
        .map(|column| column.iter().map(|alive| Cell::new(*alive)).collect())
        .collect()
}

fn start_7x7() -> Vec<Vec<bool>> {
    vec![
        vec![false, true, false, true, false, false, false],
        vec![false, true, false, false, true, false, false],
        vec![false, false, false, false, false, true, false],
        vec![false, false, false, false, false, true, false],
        vec![true, false, false, false, true, true, false],
        vec![true, false, true, false, false, false, false],
        vec![false, false, true, true, true, false, true],
    ]
}

fn first_7x7() -> Vec<Vec<bool>> {
    vec![
        vec![false, false, true, false, false, false, false],
        vec![false, false, true, false, true, false, false],
        vec![false, false, false, false, true, true, false],
        vec![false, false, false, false, false, true, true],
        vec![false, true, false, false, true, true, false],
        vec![false, false, true, false, false, false, false],
        vec![false, true, true, true, false, false, false],
    ]
}

fn tenth_7x7() -> Vec<Vec<bool>> {
    vec![
        vec![false, false, true, true, false, false, false],
        vec![false, false, true, true, false, false, false],
        vec![false, false, true, false, false, false, false],
        vec![false, false, true, false, false, false, false],
        vec![false, false, true, false, false, true, true],
        vec![false, false, false, false, true, false, true],
        vec![false, false, false, false, false, true, false],
    ]
}

fn sparse_5x5() -> Vec<Vec<bool>> {
    vec![
        vec![true, false, false, true, false],
        vec![false, false, true, true, false],
        vec![true, true, false, false, true],
        vec![false, true, true, false, false],
        vec![true, false, false, true, false],
    ]
}

fn ranges_of(width: usize, workers: usize) -> Vec<(usize, usize)> {
    ParallelLifeBoard::row_ranges(width, workers)
        .iter()
        .map(|range| (range.start, range.end))
        .collect()
}

#[test]
fn row_ranges_exact_values() {
    assert_eq!(ranges_of(7, 3), vec![(0, 2), (2, 4), (4, 7)]);
    assert_eq!(ranges_of(7, 1), vec![(0, 7)]);
    assert_eq!(ranges_of(8, 4), vec![(0, 2), (2, 4), (4, 6), (6, 8)]);
    assert_eq!(ranges_of(10, 4), vec![(0, 2), (2, 4), (4, 6), (6, 10)]);
    assert_eq!(ranges_of(1, 1), vec![(0, 1)]);
}

#[test]
fn row_ranges_with_more_workers_than_columns() {
    assert_eq!(
        ranges_of(7, 9),
        vec![
            (0, 0),
            (0, 0),
            (0, 0),
            (0, 0),
            (0, 0),
            (0, 0),
            (0, 0),
            (0, 0),
            (0, 7)
        ]
    );
    assert_eq!(ranges_of(1, 3), vec![(0, 0), (0, 0), (0, 1)]);
}

#[test]
fn row_ranges_cover_every_column_exactly_once() {
    for width in 1..=40usize {
        for workers in 1..=45usize {
            let ranges = ParallelLifeBoard::row_ranges(width, workers);
            assert_eq!(ranges.len(), workers);
            let mut hits = vec![0usize; width];
            for range in &ranges {
                assert!(range.start <= range.end && range.end <= width);
                for column in range.clone() {
                    hits[column] += 1;
                }
            }
            assert!(
                hits.iter().all(|count| *count == 1),
                "width {width}, {workers} workers: {hits:?}"
            );
            assert_eq!(ranges[0].start, 0);
            assert_eq!(ranges[workers - 1].end, width, "the last range ends at the width");
            for pair in ranges.windows(2) {
                assert_eq!(pair[0].end, pair[1].start);
            }
        }
    }
}

#[test]
fn engine_exposes_its_plan() {
    let engine = ParallelLifeBoard::from_grid(start_7x7(), 3).unwrap();
    assert_eq!(engine.thread_count(), 3);
    assert_eq!(engine.thread_range(0), 0..2);
    assert_eq!(engine.thread_range(1), 2..4);
    assert_eq!(engine.thread_range(2), 4..7);
    assert_eq!(engine.width(), 7);
    assert_eq!(engine.height(), 7);
}

#[test]
fn scenario_7x7_one_step_and_ten_steps_on_both_engines() {
    let mut sequential = BaseLifeBoard::from_bool_matrix(start_7x7()).unwrap();
    sequential.simulate();
    assert_eq!(sequential.to_vec_matrix(), cells(&first_7x7()));
    sequential.simulate_n_steps(9);
    assert_eq!(sequential.to_vec_matrix(), cells(&tenth_7x7()));
    assert_ne!(first_7x7(), tenth_7x7());

    for workers in [1u8, 3, 9] {
        let mut parallel = ParallelLifeBoard::from_grid(start_7x7(), workers).unwrap();
        parallel.simulate();
        assert_eq!(parallel.to_vec_matrix(), cells(&first_7x7()), "{workers} workers");
        parallel.simulate_n_steps(9);
        assert_eq!(parallel.to_vec_matrix(), cells(&tenth_7x7()), "{workers} workers");
    }
}

#[test]
fn scenario_5x5_dies_out_on_both_engines() {
    let dead = vec![vec![Cell::new(false); 5]; 5];
    let mut sequential = BaseLifeBoard::from_bool_matrix(sparse_5x5()).unwrap();
    sequential.simulate_n_steps(10);
    assert_eq!(sequential.to_vec_matrix(), dead);
    for workers in [1u8, 3, 9] {
        let mut parallel = ParallelLifeBoard::from_matrix(sparse_5x5(), workers).unwrap();
        parallel.simulate_n_steps(10);
        assert_eq!(parallel.to_vec_matrix(), dead, "{workers} workers");
    }
}

#[test]
fn engines_agree_at_every_step() {
    for start in [start_7x7(), sparse_5x5(), first_7x7()] {
        for workers in [1u8, 2, 3, 7, 9, 255] {
            let mut sequential = BaseLifeBoard::from_bool_matrix(start.clone()).unwrap();
            let mut parallel = ParallelLifeBoard::from_grid(start.clone(), workers).unwrap();
            let mut grid = LifeBoard::new(cells(&start)).unwrap();
            for step in 0..=10 {
                assert_eq!(
                    parallel.to_vec_matrix(),
                    sequential.to_vec_matrix(),
                    "{workers} workers, step {step}"
                );
                assert_eq!(parallel.to_vec_matrix(), grid.clone().into_grid());
                sequential.simulate();
                parallel.simulate();
                grid = grid.simulate();
            }
        }
    }
}

#[test]
fn nine_workers_reach_the_tenth_generation() {
    let mut actual = ParallelLifeBoard::from_grid(start_7x7(), 9).unwrap();
    actual.simulate_n_steps(10);
    let expected = ParallelLifeBoard::from_grid(tenth_7x7(), 9).unwrap();
    assert_eq!(expected, actual);
}

#[test]
fn wide_board_with_uneven_slices() {
    // 10 columns over 4 workers: the last worker takes four columns.
    let start: Vec<Vec<bool>> = (0..10)
        .map(|x| (0..6).map(|y| (x * 7 + y * 3) % 5 < 2).collect())
        .collect();
    let mut sequential = BaseLifeBoard::from_bool_matrix(start.clone()).unwrap();
    let mut parallel = ParallelLifeBoard::from_grid(start, 4).unwrap();
    for _ in 0..8 {
        sequential.simulate();
        parallel.simulate();
        assert_eq!(parallel.to_vec_matrix(), sequential.to_vec_matrix());
    }
}

#[test]
fn parallel_queries_read_the_current_generation() {
    let mut engine = ParallelLifeBoard::from_grid(start_7x7(), 3).unwrap();
    assert_eq!(engine.is_cell_alive(0, 1), Some(true));
    assert_eq!(engine.is_cell_alive(0, 0), Some(false));
    assert_eq!(engine.is_cell_alive(-1, 0), None);
    assert_eq!(engine.is_cell_alive(7, 0), None);
    assert_eq!(engine._is_cell_alive(0, 7), None);
    assert_eq!(engine._cell_at(6, 6), Some(Cell::new(true)));
    assert_eq!(Board::is_cell_alive(&engine, 6, 6), Some(true));
    assert_eq!(Board::cell_at(&engine, 7, 6), None);
    assert_eq!(engine.num_alive_neighbors_at(0, 0), 2);
    assert_eq!(engine.next_cell_state_at(0, 2), Some(Cell::new(true)));
    assert_eq!(engine.next_cell_state_at(7, 2), None);
    engine.simulate();
    assert_eq!(engine.is_cell_alive(0, 1), Some(false));
    assert_eq!(engine.is_cell_alive(0, 2), Some(true));
}

#[test]
fn snapshot_keeps_the_generation_it_was_taken_of() {
    let mut engine = ParallelLifeBoard::from_grid(start_7x7(), 3).unwrap();
    let before = engine.snapshot();
    assert_eq!((*before).clone().into_grid(), cells(&start_7x7()));
    engine.simulate();
    let after = engine.snapshot();
    assert_eq!((*before).clone().into_grid(), cells(&start_7x7()));
    assert_eq!((*after).clone().into_grid(), cells(&first_7x7()));
}

fn deliveries_of(engine: &ParallelLifeBoard) -> Vec<(Vec<Vec<Cell>>, usize)> {
    let board = engine.snapshot();
    (0..engine.thread_count())
        .map(|worker| (board.simulate_slice(engine.thread_range(worker)), worker))
        .collect()
}

#[test]
fn join_takes_deliveries_in_any_order() {
    let orders: [[usize; 3]; 6] = [
        [0, 1, 2],
        [0, 2, 1],
        [1, 0, 2],
        [1, 2, 0],
        [2, 0, 1],
        [2, 1, 0],
    ];
    for order in orders {
        let mut engine = ParallelLifeBoard::from_grid(start_7x7(), 3).unwrap();
        let deliveries = deliveries_of(&engine);
        let shuffled: Vec<_> = order.iter().map(|i| deliveries[*i].clone()).collect();
        assert!(engine.join(shuffled).is_ok());
        assert_eq!(engine.to_vec_matrix(), cells(&first_7x7()), "order {order:?}");
        assert_eq!(engine.thread_count(), 3);
        assert_eq!(engine.thread_range(2), 4..7);
    }
}

#[test]
fn join_places_each_slice_at_its_range() {
    let mut engine = ParallelLifeBoard::from_grid(vec![vec![false; 2]; 5], 2).unwrap();
    // worker 0 owns columns 0..2, worker 1 owns columns 2..5
    let first = vec![vec![Cell::new(true), Cell::new(false)]; 2];
    let second = vec![vec![Cell::new(false), Cell::new(true)]; 3];
    assert!(engine.join(vec![(second.clone(), 1), (first.clone(), 0)]).is_ok());
    let grid = engine.to_vec_matrix();
    assert_eq!(grid[0..2].to_vec(), first);
    assert_eq!(grid[2..5].to_vec(), second);
}

#[test]
fn join_with_more_workers_than_columns() {
    let mut engine = ParallelLifeBoard::from_grid(start_7x7(), 9).unwrap();
    let mut deliveries = deliveries_of(&engine);
    assert_eq!(deliveries.len(), 9);
    assert!(deliveries[..8].iter().all(|(slice, _)| slice.is_empty()));
    deliveries.reverse();
    assert!(engine.join(deliveries).is_ok());
    assert_eq!(engine.to_vec_matrix(), cells(&first_7x7()));
}

fn assert_worker_failure(engine: &mut ParallelLifeBoard, deliveries: Vec<(Vec<Vec<Cell>>, usize)>) {
    let before = engine.to_vec_matrix();
    match engine.join(deliveries) {
        Err(LifeBoardError::WorkerFailure(message)) => {
            assert_eq!(message, "Every worker must deliver its slice of the board once.")
        }
        other => panic!("unexpected {other:?}"),
    }
    assert_eq!(engine.to_vec_matrix(), before, "the generation must stay");
}

#[test]
fn join_fails_when_a_worker_is_missing() {
    let mut engine = ParallelLifeBoard::from_grid(start_7x7(), 3).unwrap();
    let mut deliveries = deliveries_of(&engine);
    deliveries.remove(1);
    assert_worker_failure(&mut engine, deliveries);
    assert_worker_failure(&mut engine, Vec::new());
}

#[test]
fn join_fails_when_a_worker_delivers_twice() {
    let mut engine = ParallelLifeBoard::from_grid(start_7x7(), 3).unwrap();
    let mut deliveries = deliveries_of(&engine);
    deliveries.push(deliveries[0].clone());
    assert_worker_failure(&mut engine, deliveries);
    let mut deliveries = deliveries_of(&engine);
    deliveries[2] = deliveries[0].clone();
    assert_worker_failure(&mut engine, deliveries);
}

#[test]
fn join_fails_on_an_unknown_worker() {
    let mut engine = ParallelLifeBoard::from_grid(start_7x7(), 3).unwrap();
    let mut deliveries = deliveries_of(&engine);
    deliveries[2].1 = 3;
    assert_worker_failure(&mut engine, deliveries);
}

#[test]
fn join_fails_on_a_slice_of_the_wrong_shape() {
    let mut engine = ParallelLifeBoard::from_grid(start_7x7(), 3).unwrap();
    let mut deliveries = deliveries_of(&engine);
    deliveries[1].0.pop();
    assert_worker_failure(&mut engine, deliveries);
    let mut deliveries = deliveries_of(&engine);
    deliveries[2].0[1].push(Cell::new(true));
    assert_worker_failure(&mut engine, deliveries);
    let mut deliveries = deliveries_of(&engine);
    deliveries[0].0.push(vec![Cell::new(false); 7]);
    assert_worker_failure(&mut engine, deliveries);
}

#[test]
fn engine_constructors_refuse_what_is_no_grid() {
    match ParallelLifeBoard::from_grid(Vec::new(), 3) {
        Err(LifeBoardError::InvalidBoard(message)) => assert!(message.contains("wide")),
        other => panic!("unexpected {other:?}"),
    }
    match ParallelLifeBoard::from_matrix(vec![Vec::new()], 3) {
        Err(LifeBoardError::InvalidBoard(message)) => assert!(message.contains("tall")),
        other => panic!("unexpected {other:?}"),
    }
    match ParallelLifeBoard::_from_grid(vec![vec![Cell::new(true)], Vec::new()], 3) {
        Err(LifeBoardError::InvalidBoard(message)) => assert!(message.contains("size")),
        other => panic!("unexpected {other:?}"),
    }
    let engine = ParallelLifeBoard::_from_grid(cells(&start_7x7()), 2).unwrap();
    assert_eq!(engine.to_vec_matrix(), cells(&start_7x7()));
    assert_eq!(engine.thread_count(), 2);
}

#[test]
fn parallel_gen_has_the_shape_and_the_plan_asked_for() {
    let engine = ParallelLifeBoard::gen(12, 5, 5);
    assert_eq!(engine.width(), 12);
    assert_eq!(engine.height(), 5);
    assert_eq!(engine.thread_count(), 5);
    assert_eq!(engine.thread_range(4), 8..12);
    let grid = engine.to_vec_matrix();
    assert_eq!(grid.len(), 12);
    assert!(grid.iter().all(|column| column.len() == 5));
}

#[test]
fn parallel_zero_steps_is_a_no_op() {
    let mut engine = ParallelLifeBoard::from_grid(start_7x7(), 3).unwrap();
    engine.simulate_n_steps(0);
    assert_eq!(engine.to_vec_matrix(), cells(&start_7x7()));
    Board::simulate_n_steps(&mut engine, 0);
    assert_eq!(engine.to_vec_matrix(), cells(&start_7x7()));
    Board::simulate_n_steps(&mut engine, 10);
    assert_eq!(engine.to_vec_matrix(), cells(&tenth_7x7()));
}

#[test]
fn engines_compare_by_generation_whatever_the_plan() {
    let three = ParallelLifeBoard::from_grid(start_7x7(), 3).unwrap();
    let nine = ParallelLifeBoard::from_grid(start_7x7(), 9).unwrap();
    let other = ParallelLifeBoard::from_grid(first_7x7(), 3).unwrap();
    assert!(three == nine);
    assert!(three != other);
    let copy = three.clone();
    assert!(copy == three);
    assert_eq!(copy.thread_count(), 3);
    assert_eq!(copy.thread_range(1), 2..4);
}

#[test]
fn parallel_text_is_the_text_of_its_generation() {
    let engine = ParallelLifeBoard::from_grid(vec![vec![true, false], vec![false, true]], 2)
        .unwrap();
    assert_eq!(engine.display_string(), "*   \n  * ");
    assert_eq!(
        engine.debug_string(),
        "(T, 0, 0) (F, 1, 0) \n(F, 0, 1) (T, 1, 1) "
    );
}
