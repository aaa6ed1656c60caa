use fifteen_puzzle::board::{Board, Direction};

fn solved_cells_4() -> Vec<i32> {
    (1..=16).collect()
}

/// The fixture layout: solved except that the last two tiles trade places
/// with the empty slot between them moved forward one cell.
fn fixture_cells() -> Vec<i32> {
    vec![1, 2, 3, 4, 5, 6, 7, 8, 9, 10, 11, 12, 13, 14, 16, 15]
}

fn is_permutation_of_1_to_16(cells: &[i32]) -> bool {
    let mut sorted: Vec<i32> = cells.to_vec();
    sorted.sort();
    sorted == solved_cells_4()
}

#[test]
fn new_solved_board_is_solved() {
    let board = Board::new(solved_cells_4(), 4);
    assert!(board.solved);
    assert_eq!(board.cells, solved_cells_4());
    assert_eq!(board.size, 4);
}

#[test]
fn new_fixture_board_is_unsolved() {
    let board = Board::new(fixture_cells(), 4);
    assert!(!board.solved);
}

#[test]
fn get_empty_index_finds_blank() {
    let board = Board::new(solved_cells_4(), 4);
    assert_eq!(board.get_empty_index(), 15);
    let board = Board::new(fixture_cells(), 4);
    assert_eq!(board.get_empty_index(), 14);
}

#[test]
fn neighbors_of_first_cell() {
    let board = Board::new(solved_cells_4(), 4);
    assert_eq!(board.get_neighbor_index(0, Direction::Up), None);
    assert_eq!(board.get_neighbor_index(0, Direction::Left), None);
    assert_eq!(board.get_neighbor_index(0, Direction::Down), Some(4));
    assert_eq!(board.get_neighbor_index(0, Direction::Right), Some(1));
}

#[test]
fn neighbors_of_last_cell() {
    let board = Board::new(solved_cells_4(), 4);
    assert_eq!(board.get_neighbor_index(15, Direction::Down), None);
    assert_eq!(board.get_neighbor_index(15, Direction::Right), None);
    assert_eq!(board.get_neighbor_index(15, Direction::Up), Some(11));
    assert_eq!(board.get_neighbor_index(15, Direction::Left), Some(14));
}

#[test]
fn move_left_on_fixture_swaps_empty_with_its_left_neighbor() {
    let mut board = Board::new(fixture_cells(), 4);
    board.move_empty(Direction::Left);
    assert_eq!(
        board.cells,
        vec![1, 2, 3, 4, 5, 6, 7, 8, 9, 10, 11, 12, 13, 16, 14, 15]
    );
    assert!(!board.solved);
}

#[test]
fn boundary_moves_are_noops() {
    // Empty slot in the last row and column: Down and Right hit the boundary.
    let mut board = Board::new(solved_cells_4(), 4);
    board.move_empty(Direction::Down);
    assert_eq!(board.cells, solved_cells_4());
    assert!(board.solved);
    board.move_empty(Direction::Right);
    assert_eq!(board.cells, solved_cells_4());
    assert!(board.solved);

    // Empty slot in row 0, column 0: Up and Left hit the boundary.
    let corner = vec![16, 2, 3, 4, 5, 6, 7, 8, 9, 10, 11, 12, 13, 14, 15, 1];
    let mut board = Board::new(corner.clone(), 4);
    board.move_empty(Direction::Up);
    assert_eq!(board.cells, corner);
    assert!(!board.solved);
    board.move_empty(Direction::Left);
    assert_eq!(board.cells, corner);
    assert!(!board.solved);
}

#[test]
fn inverse_move_round_trip_restores_solved_board() {
    // From the solved layout the empty slot sits on the bottom-right corner,
    // so Down is absorbed at the boundary; Up moves, and Down undoes it.
    let mut board = Board::new(solved_cells_4(), 4);
    board.move_empty(Direction::Down);
    assert_eq!(board.cells, solved_cells_4());
    board.move_empty(Direction::Up);
    assert!(!board.solved);
    board.move_empty(Direction::Down);
    assert_eq!(board.cells, solved_cells_4());
    assert!(board.solved);

    board.move_empty(Direction::Left);
    board.move_empty(Direction::Right);
    assert_eq!(board.cells, solved_cells_4());
    assert!(board.solved);
}

#[test]
fn moves_keep_cells_a_permutation() {
    let mut board = Board::new(fixture_cells(), 4);
    let moves = [
        Direction::Up,
        Direction::Left,
        Direction::Left,
        Direction::Down,
        Direction::Right,
        Direction::Up,
        Direction::Up,
        Direction::Up,
        Direction::Right,
        Direction::Down,
        Direction::Left,
        Direction::Down,
    ];
    for direction in moves {
        board.move_empty(direction);
        assert!(is_permutation_of_1_to_16(&board.cells));
    }
}

#[test]
fn set_cells_replaces_layout_and_recomputes_solved() {
    let mut board = Board::new(fixture_cells(), 4);
    assert!(!board.solved);
    board.set_cells(solved_cells_4());
    assert_eq!(board.cells, solved_cells_4());
    assert!(board.solved);
    board.set_cells(fixture_cells());
    assert_eq!(board.cells, fixture_cells());
    assert!(!board.solved);
}

#[test]
fn solved_flag_tracks_cells_after_each_mutation() {
    let mut board = Board::new(solved_cells_4(), 4);
    assert_eq!(board.solved, board.cells == solved_cells_4());
    board.move_empty(Direction::Up);
    assert_eq!(board.solved, board.cells == solved_cells_4());
    board.move_empty(Direction::Down);
    assert_eq!(board.solved, board.cells == solved_cells_4());
}

#[test]
fn scramble_always_yields_a_permutation_and_rarely_a_solved_board() {
    let mut solved_count = 0;
    for _ in 0..1000 {
        let mut board = Board::new(solved_cells_4(), 4);
        board.scramble();
        assert!(is_permutation_of_1_to_16(&board.cells));
        if board.solved {
            solved_count += 1;
        }
    }
    assert!(solved_count < 10);
}

#[test]
fn three_by_three_board_moves() {
    let mut board = Board::new((1..=9).collect(), 3);
    assert!(board.solved);
    assert_eq!(board.get_empty_index(), 8);
    board.move_empty(Direction::Up);
    assert_eq!(board.cells, vec![1, 2, 3, 4, 5, 9, 7, 8, 6]);
    assert!(!board.solved);
    board.move_empty(Direction::Down);
    assert!(board.solved);
}
