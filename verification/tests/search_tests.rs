use ball_maze::bfs::{solve, solve_anytime, solve_graph};
use ball_maze::board::{Board, Cell};
use ball_maze::graph::precompute;
use ball_maze::state::State;

#[test]
fn open_board_shortest_route() {
    // a 5x5 open board (walls all round), start (1,1), target (3,3)
    let mut board = Board::new();
    for y in 1..=3 {
        for x in 1..=3 {
            board.set_cell(x, y, Cell::Empty);
        }
    }
    board.set_start(1, 1);
    board.set_target(3, 3);
    let state = State::new(1 * 21 + 1);

    let sol = solve(&board, &state, 1000).expect("an open board has a route");
    let acts = sol.get_actions();
    assert_eq!(acts.len(), 4);
    assert!(acts.chars().all(|c| c == 'R' || c == 'D'));
}

#[test]
fn solution_replays_to_the_target() {
    let mut board = Board::new();
    for y in 1..=3 {
        for x in 1..=3 {
            board.set_cell(x, y, Cell::Empty);
        }
    }
    board.set_start(1, 1);
    board.set_target(3, 3);
    let state = State::new(1 * 21 + 1);

    let sol = solve(&board, &state, 1000).expect("an open board has a route");
    let mut pos = state.get_current_pos();
    for c in sol.get_actions().chars() {
        pos = match c {
            'L' => pos - 1,
            'R' => pos + 1,
            'U' => pos - 21,
            'D' => pos + 21,
            other => panic!("unexpected move symbol {}", other),
        };
        assert!(*board.get_cell(pos) != Cell::Wall);
    }
    assert_eq!(pos, board.get_target());
    assert_eq!(pos, sol.get_current_pos());
}

#[test]
fn gate_needs_switch_first() {
    // target right behind an initially active gate; the switch sits at the
    // end of a side corridor
    let mut board = Board::new();
    board.set_cell(1, 1, Cell::Empty);
    board.set_cell(2, 1, Cell::MagneticField(1));
    board.set_cell(3, 1, Cell::Empty);
    board.set_cell(1, 2, Cell::Empty);
    board.set_cell(1, 3, Cell::Switch(1));
    board.set_start(1, 1);
    board.set_target(3, 1);
    let mut state = State::new(1 * 21 + 1);
    state.toggle_magnetic_field(1);

    // the portal graph has no direct start-to-target connection: a gate
    // cell is a barrier for path continuation
    let graph = precompute(&board, &state);
    assert!(graph.get(board.get_start(), board.get_target()).is_none());
    // but the switch is directly reachable
    let to_switch = graph.get(board.get_start(), 3 * 21 + 1).expect("switch reachable");
    assert_eq!(to_switch.as_str(), "DD");

    // the search must detour over the switch: down, down, up, up, right, right
    let sol = solve(&board, &state, 1000).expect("the switch opens the way");
    assert_eq!(sol.get_actions().as_str(), "DDUURR");

    // with an inactive gate, the direct route exists
    let open_state = State::new(1 * 21 + 1);
    let sol2 = solve(&board, &open_state, 1000).expect("inactive gate is passable");
    assert_eq!(sol2.get_actions().as_str(), "RR");
}

#[test]
fn exhausted_ball_blocks_only_route() {
    // a ball whose push budget is already spent blocks the single corridor
    let mut board = Board::new();
    board.set_cell(1, 1, Cell::Empty);
    board.set_cell(2, 1, Cell::Empty);
    board.set_cell(3, 1, Cell::Empty);
    board.set_start(1, 1);
    board.set_target(3, 1);
    let mut state = State::new(1 * 21 + 1);
    state.add_garbage_ball(1 * 21 + 2);
    state.move_ball(1 * 21 + 2, 1 * 21 + 2);
    state.move_ball(1 * 21 + 2, 1 * 21 + 2);

    assert!(solve(&board, &state, 1000).is_none());
}

#[test]
fn search_pushes_ball_out_of_the_way() {
    // a ball sits on the corridor; the route pushes it ahead and turns
    // off to the target below
    let mut board = Board::new();
    board.set_cell(1, 1, Cell::Empty);
    board.set_cell(2, 1, Cell::Empty);
    board.set_cell(3, 1, Cell::Empty);
    board.set_cell(2, 2, Cell::Empty);
    board.set_start(1, 1);
    board.set_target(2, 2);
    let mut state = State::new(1 * 21 + 1);
    state.add_garbage_ball(1 * 21 + 2);

    let sol = solve(&board, &state, 1000).expect("the ball can be pushed ahead");
    assert_eq!(sol.get_actions().as_str(), "RD");
    assert!(sol.is_garbage_ball(1 * 21 + 3));
}

#[test]
fn graph_mode_crosses_the_open_board() {
    let mut board = Board::new();
    for y in 1..=3 {
        for x in 1..=3 {
            board.set_cell(x, y, Cell::Empty);
        }
    }
    board.set_start(1, 1);
    board.set_target(3, 3);
    let state = State::new(1 * 21 + 1);

    let graph = precompute(&board, &state);
    let sol = solve_graph(&board, &graph, &state, 1000).expect("one edge reaches the target");
    assert_eq!(sol.get_actions().as_str(), "RRDD");
}

#[test]
fn graph_mode_detours_over_the_switch() {
    let mut board = Board::new();
    board.set_cell(1, 1, Cell::Empty);
    board.set_cell(2, 1, Cell::MagneticField(1));
    board.set_cell(3, 1, Cell::Empty);
    board.set_cell(1, 2, Cell::Empty);
    board.set_cell(1, 3, Cell::Switch(1));
    board.set_start(1, 1);
    board.set_target(3, 1);
    let mut state = State::new(1 * 21 + 1);
    state.toggle_magnetic_field(1);

    let graph = precompute(&board, &state);
    let sol = solve_graph(&board, &graph, &state, 1000).expect("the switch opens the way");
    assert_eq!(sol.get_actions().as_str(), "DDUURR");
}

#[test]
fn graph_mode_finds_nothing_past_an_exhausted_ball() {
    let mut board = Board::new();
    board.set_cell(1, 1, Cell::Empty);
    board.set_cell(2, 1, Cell::Empty);
    board.set_cell(3, 1, Cell::Empty);
    board.set_start(1, 1);
    board.set_target(3, 1);
    let mut state = State::new(1 * 21 + 1);
    state.add_garbage_ball(1 * 21 + 2);
    state.move_ball(1 * 21 + 2, 1 * 21 + 2);
    state.move_ball(1 * 21 + 2, 1 * 21 + 2);

    let graph = precompute(&board, &state);
    assert!(solve_graph(&board, &graph, &state, 1000).is_none());
}

#[test]
fn anytime_search_records_the_shortest_first() {
    let mut board = Board::new();
    for y in 1..=3 {
        for x in 1..=3 {
            board.set_cell(x, y, Cell::Empty);
        }
    }
    board.set_start(1, 1);
    board.set_target(3, 3);
    let state = State::new(1 * 21 + 1);

    let solutions = solve_anytime(&board, &state, 1000);
    assert!(!solutions.is_empty());
    assert!(solutions.len() <= 100);
    assert_eq!(solutions[0].get_actions().len(), 4);
    for sol in solutions.iter() {
        assert_eq!(sol.get_current_pos(), board.get_target());
        assert!(sol.get_actions().len() >= 4);
        assert!(sol.get_actions().chars().all(|c| "LRUD".contains(c)));
    }
}
