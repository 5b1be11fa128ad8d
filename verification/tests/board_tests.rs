use ball_maze::board::{Board, Cell};
use ball_maze::state::State;

#[test]
fn test_vec() {
    let v1 = vec![1, 2, 3];
    let v2 = vec![1, 3, 2];

    assert!(v1 != v2);
}

#[test]
fn board_records_cells_and_registries() {
    let mut board = Board::new();
    assert_eq!(*board.get_cell(0), Cell::Wall);
    board.set_cell(2, 1, Cell::Empty);
    assert_eq!(*board.get_cell(1 * 21 + 2), Cell::Empty);
    board.set_cell(4, 5, Cell::Switch(3));
    assert_eq!(*board.get_cell(5 * 21 + 4), Cell::Switch(3));
    assert_eq!(board.get_switch_pos(3), 5 * 21 + 4);
    board.set_cell(6, 7, Cell::MagneticField(2));
    assert_eq!(board.get_gate_pos(2), 7 * 21 + 6);
    board.set_start(1, 1);
    board.set_target(3, 2);
    assert_eq!(board.get_start(), 22);
    assert_eq!(board.get_target(), 2 * 21 + 3);
}

#[test]
fn simplifier_fills_dead_ends_and_fuses_wedged_balls() {
    let mut board = Board::new();
    // a corridor along row 1 with a dead-end stub hanging off it
    board.set_cell(1, 1, Cell::Empty);
    board.set_cell(2, 1, Cell::Empty);
    board.set_cell(3, 1, Cell::Empty);
    board.set_cell(2, 2, Cell::Empty);
    board.set_cell(2, 3, Cell::Empty);
    board.set_start(1, 1);
    board.set_target(3, 1);
    // a ball wedged into a wall corner, far from the corridor
    board.set_cell(5, 5, Cell::Empty);
    let mut state = State::new(1 * 21 + 1);
    state.add_garbage_ball(5 * 21 + 5);

    board.simplify(&mut state);

    // the stub (2,3) then (2,2) is filled back to the corridor
    assert_eq!(*board.get_cell(3 * 21 + 2), Cell::Wall);
    assert_eq!(*board.get_cell(2 * 21 + 2), Cell::Wall);
    // the corridor itself stays open
    assert_eq!(*board.get_cell(1 * 21 + 1), Cell::Empty);
    assert_eq!(*board.get_cell(1 * 21 + 2), Cell::Empty);
    assert_eq!(*board.get_cell(1 * 21 + 3), Cell::Empty);
    // the wedged ball became terrain and left the state
    assert_eq!(*board.get_cell(5 * 21 + 5), Cell::Wall);
    assert!(state.get_garbage_balls().is_empty());
}

#[test]
fn simplifier_twice_equals_once() {
    let mut board = Board::new();
    board.set_cell(1, 1, Cell::Empty);
    board.set_cell(2, 1, Cell::Empty);
    board.set_cell(3, 1, Cell::Empty);
    board.set_cell(2, 2, Cell::Empty);
    board.set_cell(2, 3, Cell::Empty);
    board.set_cell(5, 5, Cell::Empty);
    board.set_cell(5, 6, Cell::Empty);
    board.set_start(1, 1);
    board.set_target(3, 1);
    let mut state = State::new(1 * 21 + 1);
    state.add_garbage_ball(5 * 21 + 5);
    state.add_garbage_ball(6 * 21 + 5);

    board.simplify(&mut state);
    let cells_once: Vec<Cell> = (0..441).map(|i| *board.get_cell(i)).collect();
    let balls_once = state.get_garbage_balls().clone();
    let pos_once = state.get_current_pos();

    board.simplify(&mut state);
    let cells_twice: Vec<Cell> = (0..441).map(|i| *board.get_cell(i)).collect();

    assert_eq!(cells_once, cells_twice);
    assert_eq!(balls_once, *state.get_garbage_balls());
    assert_eq!(pos_once, state.get_current_pos());
    assert_eq!(board.get_start(), 1 * 21 + 1);
    assert_eq!(board.get_target(), 1 * 21 + 3);
}

#[test]
fn simplifier_keeps_unwedged_balls() {
    // a ball in the middle of an open room is not wedged: it survives
    // with its push count, and its cell stays empty
    let mut board = Board::new();
    for y in 1..=5 {
        for x in 1..=5 {
            board.set_cell(x, y, Cell::Empty);
        }
    }
    board.set_start(1, 1);
    board.set_target(5, 5);
    let mut state = State::new(1 * 21 + 1);
    state.add_garbage_ball(3 * 21 + 3);

    board.simplify(&mut state);

    assert_eq!(*state.get_garbage_balls(), vec![3 * 21 + 3]);
    assert_eq!(*board.get_cell(3 * 21 + 3), Cell::Empty);
    assert!(state.is_garbage_ball(3 * 21 + 3));
}
