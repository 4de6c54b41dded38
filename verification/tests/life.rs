use life::life::{Cell, LifeBoard};
use life::life_implementation::ParallelLifeBoard;
use life::life_interface::LifeBoardError;

fn assert_contains(actual: String, expected: &str) {
    assert!(
        actual.contains(expected),
        "Expected \"{actual}\" to contain \"{expected}\""
    )
}

fn to_grid<A, B>(collection: A) -> Vec<Vec<Cell>>
where
    A: IntoIterator<Item = B>,
    B: IntoIterator<Item = bool>,
{
    collection
        .into_iter()
        .map(|row| row.into_iter().map(|alive| Cell { alive }).collect())
        .collect()
}

fn get_3x3_board(array: [[bool; 3]; 3]) -> LifeBoard {
    let board = to_grid(array);
    LifeBoard::new(board).unwrap()
}

#[test]
fn test_exception_life_board_new_invalid_row() {
    let grid: Vec<Vec<Cell>> = Vec::new();
    match LifeBoard::new(grid) {
        Ok(_) => panic!("Board should be invalid."),
        Err(LifeBoardError::InvalidBoard(error)) => {
            assert_contains(error, "at least one cell wide");
        }
        Err(error) => panic!("Unexpected LifeBoardError {error:?}"),
    };
}

#[test]
fn test_exception_life_board_new_invalid_col() {
    let grid: Vec<Vec<Cell>> = to_grid([[]]);
    match LifeBoard::new(grid) {
        Ok(_) => panic!("Board should be invalid."),
        Err(LifeBoardError::InvalidBoard(error)) => {
            assert_contains(error, "at least one cell tall");
        }
        Err(error) => panic!("Unexpected LifeBoardError {error:?}"),
    };
}

#[test]
fn test_exception_life_board_new_inconsistent_col_len() {
    let mut grid: Vec<Vec<Cell>> = Vec::new();
    let mut col1 = Vec::<Cell>::new();
    let mut col2 = Vec::<Cell>::new();
    col1.push(Cell::gen());
    col1.push(Cell::gen());
    col2.push(Cell::gen());
    grid.push(col1);
    grid.push(col2);
    match LifeBoard::new(grid) {
        Ok(_) => panic!("Board should be invalid."),
        Err(LifeBoardError::InvalidBoard(error)) => {
            assert_contains(error, "consistent size");
        }
        Err(error) => panic!("Unexpected LifeBoardError {error:?}"),
    }
}

#[test]
fn test_equivalence_life_board_new_valid_2x2_board() {
    let grid = to_grid([[false, true], [true, true]]);
    match LifeBoard::new(grid) {
        Ok(_) => (),
        Err(error) => {
            panic!("Board should be invalid. Found {error:#?}");
        }
    }
}

#[test]
fn life_test_equivalence_life_board_is_cell_alive_false() {
    let board = LifeBoard::new(to_grid([[false]])).unwrap();
    match board.is_cell_alive(0, 0) {
        Some(alive) => assert!(!alive, "The cell should be dead."),
        None => panic!("Cell should be valid"),
    }
}

#[test]
fn life_test_equivalence_life_board_is_cell_alive_true() {
    let board = LifeBoard::new(to_grid([[true]])).unwrap();
    match board.is_cell_alive(0, 0) {
        Some(alive) => assert!(alive, "The cell should be alive."),
        None => panic!("Cell should be valid"),
    }
}

#[test]
fn life_test_exception_life_board_is_cell_alive_invalid_y() {
    let board = LifeBoard::new(to_grid([[true]])).unwrap();
    if let Some(_) = board.is_cell_alive(0, 1) {
        panic!("Cell should be invalid")
    }
}

#[test]
fn life_test_exception_life_board_is_cell_alive_invalid_x() {
    let board = LifeBoard::new(to_grid([[true]])).unwrap();
    if let Some(_) = board.is_cell_alive(-1, 0) {
        panic!("Cell should be invalid")
    }
}

#[test]
fn life_test_boundary_get_num_alive_neighbors_1x1_board() {
    let board = LifeBoard::new(to_grid([[true]])).unwrap();
    match board.get_num_alive_neighbors(0, 0) {
        0 => return,
        num => panic!("There should be no alive neighbors but found {num}."),
    }
}

#[test]
fn life_test_equivalence_get_num_alive_neighbors_3x3_board_none() {
    let board = get_3x3_board([
        [false, false, false],
        [false, false, false],
        [false, false, false],
    ]);
    match board.get_num_alive_neighbors(1, 1) {
        0 => return,
        num => panic!("There should be no alive neighbors but found {num}."),
    }
}

#[test]
fn life_test_equivalence_get_num_alive_neighbors_3x3_board_all() {
    let board = get_3x3_board([[true, true, true], [true, false, true], [true, true, true]]);
    match board.get_num_alive_neighbors(1, 1) {
        8 => return,
        num => panic!("Expected 8 neighbors but found {num}"),
    }
}

#[test]
fn life_test_equivalence_next_cell_state_3x3_board() {
    let board = get_3x3_board([
        [true, true, true],
        [false, true, false],
        [true, false, false],
    ]);
    assert!(board.next_cell_state(0, 0).alive, "Cell should survive");
    assert!(board.next_cell_state(0, 1).alive, "Cell should survive");
    assert!(board.next_cell_state(0, 2).alive, "Cell should survive");
    assert!(!board.next_cell_state(1, 0).alive, "Cell should remain dead");
    assert!(
        !board.next_cell_state(1, 1).alive,
        "Cell should die from overpopulation"
    );
    assert!(board.next_cell_state(1, 2).alive, "Cell should become alive");
    assert!(
        !board.next_cell_state(2, 0).alive,
        "Cell should die from underpopulation"
    );
    assert!(!board.next_cell_state(2, 1).alive, "Cell should remain dead");
    assert!(!board.next_cell_state(2, 2).alive, "Cell should remain dead");
}

fn assert_boards_eq(expected: LifeBoard, actual: LifeBoard) {
    assert_eq!(
        expected, actual,
        "\nEXPECTED:\n{expected:?}\n ACTUAL:\n{actual:?}\n"
    )
}

#[test]
fn life_test_equivalence_simulate_3x3_board() {
    let mut actual_board = get_3x3_start_board();
    let expected_board = get_3x3_end_board();
    actual_board = actual_board.simulate();
    assert_boards_eq(expected_board, actual_board);
}

fn get_3x3_end_board() -> LifeBoard {
    get_3x3_board([
        [true, true, true],
        [false, false, true],
        [false, false, false],
    ])
}

fn get_3x3_start_board() -> LifeBoard {
    get_3x3_board([
        [true, true, true],
        [false, true, false],
        [true, false, false],
    ])
}

#[test]
fn life_test_equivalence_simulate_5x5_board_10_steps_all_die() {
    let mut actual_board = LifeBoard::new(to_grid([
        [true, false, false, true, false],
        [false, false, true, true, false],
        [true, true, false, false, true],
        [false, true, true, false, false],
        [true, false, false, true, false],
    ]))
    .unwrap();
    actual_board = actual_board.simulate_n_steps(10);
    let expected_board = LifeBoard::new(to_grid([
        [false, false, false, false, false],
        [false, false, false, false, false],
        [false, false, false, false, false],
        [false, false, false, false, false],
        [false, false, false, false, false],
    ]))
    .unwrap();
    assert_boards_eq(expected_board, actual_board);
}

fn get_7x7_start_board_0th_gen() -> LifeBoard {
    LifeBoard::new(to_grid([
        [false, true, false, true, false, false, false],
        [false, true, false, false, true, false, false],
        [false, false, false, false, false, true, false],
        [false, false, false, false, false, true, false],
        [true, false, false, false, true, true, false],
        [true, false, true, false, false, false, false],
        [false, false, true, true, true, false, true],
    ]))
    .unwrap()
}

fn get_7x7_board_1st_gen() -> LifeBoard {
    LifeBoard::new(to_grid([
        [false, false, true, false, false, false, false],
        [false, false, true, false, true, false, false],
        [false, false, false, false, true, true, false],
        [false, false, false, false, false, true, true],
        [false, true, false, false, true, true, false],
        [false, false, true, false, false, false, false],
        [false, true, true, true, false, false, false],
    ]))
    .unwrap()
}

fn get_7x7_end_board_10th_gen() -> LifeBoard {
    LifeBoard::new(to_grid([
        [false, false, true, true, false, false, false],
        [false, false, true, true, false, false, false],
        [false, false, true, false, false, false, false],
        [false, false, true, false, false, false, false],
        [false, false, true, false, false, true, true],
        [false, false, false, false, true, false, true],
        [false, false, false, false, false, true, false],
    ]))
    .unwrap()
}

#[test]
fn life_test_equivalence_simulate_7x7_board_10_steps() {
    let mut actual_board = get_7x7_start_board_0th_gen();
    actual_board = actual_board.simulate_n_steps(10);
    let expected_board = get_7x7_end_board_10th_gen();
    assert_boards_eq(expected_board, actual_board);
}

#[test]
fn life_test_equivalence_parallel_3_threads_simulate_7x7_board_10_steps() {
    let actual_board = get_7x7_start_board_0th_gen();
    let mut actual_board = ParallelLifeBoard::from(actual_board, 3);
    actual_board.simulate_n_steps(10);
    let expected_board = get_7x7_end_board_10th_gen();
    let expected_board = ParallelLifeBoard::from(expected_board, 3);
    assert_eq!(expected_board, actual_board);
}

#[test]
fn life_test_equivalence_parallel_3_threads_simulate_7x7_board_1_steps() {
    let actual_board = get_7x7_start_board_0th_gen();
    let mut actual_board = ParallelLifeBoard::from(actual_board, 3);
    actual_board.simulate();
    let expected_board = get_7x7_board_1st_gen();
    let expected_board = ParallelLifeBoard::from(expected_board, 3);
    assert_eq!(expected_board, actual_board);
}

#[test]
fn life_test_equivalence_parallel_9_threads_simulate_7x7_board_10_steps() {
    let actual_board = get_7x7_start_board_0th_gen();
    let mut actual_board = ParallelLifeBoard::from(actual_board, 9);
    actual_board.simulate_n_steps(10);
    let expected_board = get_7x7_end_board_10th_gen();
    let _expected_board = ParallelLifeBoard::from(expected_board, 9);
}
