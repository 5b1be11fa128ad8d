use ball_maze::board::{Board, Cell};
use ball_maze::state::State;

fn row_board(open_to: usize, target_x: usize) -> Board {
    let mut board = Board::new();
    for x in 1..=open_to {
        board.set_cell(x, 1, Cell::Empty);
    }
    board.set_start(1, 1);
    board.set_target(target_x, 1);
    board
}

#[test]
fn push_refused_onto_target() {
    // pusher at (1,1), ball at (2,1), destination (3,1) is the target
    let board = row_board(4, 3);
    let mut st = State::new(1 * 21 + 1);
    st.add_garbage_ball(1 * 21 + 2);
    assert!(st.try_push(&board, 1 * 21 + 2).is_none());
}

#[test]
fn push_refused_onto_wall() {
    // destination (3,1) stays a wall
    let board = row_board(2, 4);
    let mut st = State::new(1 * 21 + 1);
    st.add_garbage_ball(1 * 21 + 2);
    assert!(st.try_push(&board, 1 * 21 + 2).is_none());
}

#[test]
fn push_refused_onto_other_ball() {
    let board = row_board(5, 5);
    let mut st = State::new(1 * 21 + 1);
    st.add_garbage_ball(1 * 21 + 2);
    st.add_garbage_ball(1 * 21 + 3);
    assert!(st.try_push(&board, 1 * 21 + 2).is_none());
}

#[test]
fn push_moves_ball_at_most_twice() {
    let board = row_board(6, 6);
    let mut st = State::new(1 * 21 + 1);
    st.add_garbage_ball(1 * 21 + 2);

    // first push: ball (2,1) -> (3,1)
    let mut st = st.try_push(&board, 1 * 21 + 2).expect("first push succeeds");
    assert!(st.is_garbage_ball(1 * 21 + 3));
    assert!(!st.is_garbage_ball(1 * 21 + 2));

    // second push: ball (3,1) -> (4,1)
    st.set_current_pos(1 * 21 + 2);
    let mut st = st.try_push(&board, 1 * 21 + 3).expect("second push succeeds");
    assert!(st.is_garbage_ball(1 * 21 + 4));

    // the push budget is spent: a third push is refused
    st.set_current_pos(1 * 21 + 3);
    assert!(st.try_push(&board, 1 * 21 + 4).is_none());
}

#[test]
fn pushed_ball_toggles_switch_it_lands_on() {
    let mut board = row_board(2, 5);
    board.set_cell(3, 1, Cell::Switch(4));
    board.set_cell(5, 1, Cell::Empty);
    let mut st = State::new(1 * 21 + 1);
    st.add_garbage_ball(1 * 21 + 2);
    assert!(!st.is_magnetic_field_on(4));

    let st = st.try_push(&board, 1 * 21 + 2).expect("push onto the switch succeeds");
    assert!(st.is_garbage_ball(1 * 21 + 3));
    assert!(st.is_magnetic_field_on(4));
}

#[test]
fn dedup_ignores_push_counts_and_moves() {
    // same position, gate bitset and ball sequence: equal states,
    // whatever their push counts and move strings say
    let mut a = State::new(22);
    a.add_garbage_ball(30);
    let mut b = State::new(22);
    b.add_garbage_ball(30);
    b.add_actions(&'R');
    b.add_actions(&'L');
    b.move_ball(30, 30);
    assert!(a == b);

    // a different gate bitset breaks the equality
    let mut c = State::new(22);
    c.add_garbage_ball(30);
    c.toggle_magnetic_field(1);
    assert!(a != c);
}
