//! The search engine: a time-bounded breadth-first traversal over states,
//! honouring gate and obstacle-push rules.  Every returned state carries a
//! move string that, replayed step by step from the initial state,
//! reproduces the returned physical configuration exactly.
use vstd::prelude::*;

use std::collections::VecDeque;

use crate::board::{Board, BoardModel, Cell, GRID_CELLS};
use crate::clock::{clock_now, elapsed_millis};
use crate::graph::PortalGraph;
use crate::state::{gate_active, push_outcome, PhysModel, State, StateModel};

verus! {

/// States whose move string has grown past this length are pruned, to
/// bound memory on pathological boards.
pub const MOVE_CAP: usize = 1000;

/// Greatest number of solutions the anytime search records before it
/// stops early.
pub const SOLUTION_CAP: usize = 100;

/// Iteration allowance of the search loop: far beyond what any queue on
/// a 441-cell grid can grow to before the wall clock runs out, and a
/// bound the loop provably shrinks towards.
pub const SEARCH_FUEL: u64 = 0xffff_ffff_ffff;

/// Grid offset of one move symbol.
pub open spec fn dir_delta(c: char) -> int {
    if c == 'L' {
        -1
    } else if c == 'R' {
        1
    } else if c == 'U' {
        -21
    } else {
        21
    }
}

/// A move symbol may be taken from `pos` without leaving the grid.
pub open spec fn dir_ok(pos: usize, c: char) -> bool {
    &&& pos < GRID_CELLS
    &&& (c == 'L' || c == 'R' || c == 'U' || c == 'D')
    &&& (c == 'L' ==> pos % 21 > 0)
    &&& (c == 'R' ==> pos % 21 < 20)
    &&& (c == 'U' ==> pos / 21 > 0)
    &&& (c == 'D' ==> pos / 21 < 20)
}

/// One step of the search dynamics: from configuration `s`, taking move
/// `c` on board `b`.  `None` means the move is refused: it would leave the
/// grid, run into a wall or an active gate, or push a ball illegally.
/// Stepping onto a switch toggles its gate; stepping onto a ball pushes it
/// by the push protocol.
pub open spec fn step(b: BoardModel, s: PhysModel, c: char) -> Option<PhysModel> {
    if !dir_ok(s.pos, c) {
        None
    } else {
        let ni = (s.pos + dir_delta(c)) as usize;
        match b.cells[ni as int] {
            Cell::Wall => None,
            Cell::Switch(id) => {
                if s.balls.contains(ni) {
                    if !dir_ok(ni, c) {
                        None
                    } else {
                        match push_outcome(b, s, ni) {
                            None => None,
                            Some(p) => Some(
                                PhysModel { pos: ni, fields: p.fields ^ (1u16 << id), ..p },
                            ),
                        }
                    }
                } else {
                    Some(PhysModel { pos: ni, fields: s.fields ^ (1u16 << id), ..s })
                }
            },
            Cell::MagneticField(id) => {
                if gate_active(s.fields, id) {
                    None
                } else {
                    Some(PhysModel { pos: ni, ..s })
                }
            },
            Cell::Empty => {
                if s.balls.contains(ni) {
                    if !dir_ok(ni, c) {
                        None
                    } else {
                        match push_outcome(b, s, ni) {
                            None => None,
                            Some(p) => Some(PhysModel { pos: ni, ..p }),
                        }
                    }
                } else {
                    Some(PhysModel { pos: ni, ..s })
                }
            },
        }
    }
}

/// The configuration reached by replaying `acts` from `s`, move by move;
/// `None` when some move is refused.
pub open spec fn replay(b: BoardModel, s: PhysModel, acts: Seq<char>) -> Option<PhysModel>
    decreases acts.len(),
{
    if acts.len() == 0 {
        Some(s)
    } else {
        match step(b, s, acts[0]) {
            None => None,
            Some(s2) => replay(b, s2, acts.drop_first()),
        }
    }
}

/// Replaying one appended move is stepping after the replay.
pub proof fn lemma_replay_snoc(b: BoardModel, s: PhysModel, acts: Seq<char>, c: char)
    ensures
        replay(b, s, acts.push(c)) == (match replay(b, s, acts) {
            None => None,
            Some(s2) => step(b, s2, c),
        }),
    decreases acts.len(),
{
    if acts.len() == 0 {
        assert(acts.push(c)[0] == c);
        assert(acts.push(c).drop_first() =~= Seq::<char>::empty());
        match step(b, s, c) {
            None => {
                assert(replay(b, s, acts.push(c)) == None::<PhysModel>);
            },
            Some(s2) => {
                assert(replay(b, s2, acts.push(c).drop_first()) == Some(s2));
            },
        }
    } else {
        assert(acts.push(c)[0] == acts[0]);
        assert(acts.push(c).drop_first() =~= acts.drop_first().push(c));
        match step(b, s, acts[0]) {
            None => {},
            Some(s2) => {
                lemma_replay_snoc(b, s2, acts.drop_first(), c);
            },
        }
    }
}

/// A state enqueued by the search: well formed, on the grid, and its move
/// string replays from the initial configuration to its own.
pub open spec fn node_ok(b: BoardModel, init: PhysModel, s: StateModel) -> bool {
    &&& s.wf()
    &&& s.pos < GRID_CELLS
    &&& replay(b, init, s.actions) == Some(s.phys())
}

/// The move symbol of direction slot `d`.
pub open spec fn slot_char(d: int) -> char {
    if d == 0 {
        'L'
    } else if d == 1 {
        'R'
    } else if d == 2 {
        'U'
    } else {
        'D'
    }
}

/// The move symbol explored in direction slot `d`.
pub(crate) fn dir_char(d: usize) -> (c: char)
    requires
        d < 4,
    ensures
        c == slot_char(d as int),
        c == 'L' || c == 'R' || c == 'U' || c == 'D',
{
    if d == 0 {
        'L'
    } else if d == 1 {
        'R'
    } else if d == 2 {
        'U'
    } else {
        'D'
    }
}

/// Whether move `c` stays on the grid when taken from `pos`.
pub(crate) fn can_step(pos: usize, c: char) -> (r: bool)
    requires
        pos < GRID_CELLS,
        c == 'L' || c == 'R' || c == 'U' || c == 'D',
    ensures
        r == dir_ok(pos, c),
{
    match c {
        'L' => pos % 21 > 0,
        'R' => pos % 21 < 20,
        'U' => pos / 21 > 0,
        _ => pos / 21 < 20,
    }
}

/// The cell reached by taking move `c` from `pos`.
pub(crate) fn step_index(pos: usize, c: char) -> (ni: usize)
    requires
        dir_ok(pos, c),
    ensures
        ni == pos + dir_delta(c),
        ni < GRID_CELLS,
{
    match c {
        'L' => pos - 1,
        'R' => pos + 1,
        'U' => pos - 21,
        _ => pos + 21,
    }
}

/// One raw expansion step: the successor of `st` after taking move `c`,
/// or `None` when the move is refused; the outcome is exactly the
/// spec-level `step` of the state's configuration, with `c` appended to
/// the move string.
pub fn step_state(board: &Board, st: &State, c: char) -> (r: Option<State>)
    requires
        board@.wf(),
        st@.wf(),
        st@.pos < GRID_CELLS,
        c == 'L' || c == 'R' || c == 'U' || c == 'D',
    ensures
        (match r {
            Some(ns) => {
                &&& step(board@, st@.phys(), c) == Some(ns@.phys())
                &&& ns@.actions == st@.actions.push(c)
                &&& ns@.wf()
                &&& ns@.pos < GRID_CELLS
            },
            None => step(board@, st@.phys(), c) == None::<PhysModel>,
        }),
{
    let pos = st.get_current_pos();
    if !can_step(pos, c) {
        return None;
    }
    let new_idx = step_index(pos, c);
    match *board.get_cell(new_idx) {
        Cell::Switch(id) => {
            if st.is_garbage_ball(new_idx) {
                if !can_step(new_idx, c) {
                    return None;
                }
                match st.try_push(board, new_idx) {
                    None => None,
                    Some(pushed) => {
                        let mut new_state = pushed;
                        new_state.toggle_magnetic_field(id);
                        new_state.add_actions(&c);
                        new_state.set_current_pos(new_idx);
                        Some(new_state)
                    },
                }
            } else {
                let mut new_state = st.clone();
                new_state.toggle_magnetic_field(id);
                new_state.add_actions(&c);
                new_state.set_current_pos(new_idx);
                Some(new_state)
            }
        },
        Cell::MagneticField(id) => {
            if st.is_magnetic_field_on(id) {
                return None;
            }
            let mut new_state = st.clone();
            new_state.add_actions(&c);
            new_state.set_current_pos(new_idx);
            Some(new_state)
        },
        Cell::Empty => {
            if st.is_garbage_ball(new_idx) {
                if !can_step(new_idx, c) {
                    return None;
                }
                match st.try_push(board, new_idx) {
                    None => None,
                    Some(pushed) => {
                        let mut new_state = pushed;
                        new_state.add_actions(&c);
                        new_state.set_current_pos(new_idx);
                        Some(new_state)
                    },
                }
            } else {
                let mut new_state = st.clone();
                new_state.add_actions(&c);
                new_state.set_current_pos(new_idx);
                Some(new_state)
            }
        },
        Cell::Wall => None,
    }
}

/// Whether `st` has already been expanded (structural state equality).
fn already_visited(visited: &Vec<State>, st: &State) -> bool {
    let n = visited.len();
    for i in 0..n
        invariant
            n == visited@.len(),
    {
        if visited[i] == *st {
            return true;
        }
    }
    false
}

/// Breadth-first search from `initial_state` for a move string that brings
/// the token to the board's target, bounded by `time_budget_ms` of wall
/// clock.  `Some(st)` is a state standing on the target whose move string
/// replays, move by move from the initial configuration, to exactly the
/// returned configuration; `None` means no route was found within the
/// budget (the target may be unreachable, or the budget too small).
pub fn solve(board: &Board, initial_state: &State, time_budget_ms: u64) -> (r: Option<State>)
    requires
        board@.wf(),
        initial_state@.wf(),
        initial_state@.pos < GRID_CELLS,
        initial_state@.actions.len() == 0,
    ensures
        (match r {
            Some(st) => {
                &&& st@.wf()
                &&& st@.pos == board@.target
                &&& replay(board@, initial_state@.phys(), st@.actions) == Some(st@.phys())
            },
            None => true,
        }),
{
    let ghost init = initial_state@.phys();

    let mut queue: VecDeque<State> = VecDeque::new();
    let mut visited: Vec<State> = Vec::new();

    queue.push_back(initial_state.clone());

    let start_time = clock_now();
    let mut fuel: u64 = SEARCH_FUEL;
    while fuel > 0 && elapsed_millis(&start_time) < time_budget_ms
        invariant
            board@.wf(),
            init == initial_state@.phys(),
            forall|k: int|
                0 <= k < queue@.len() ==> node_ok(board@, init, (#[trigger] queue@[k])@),
        decreases fuel,
    {
        fuel = fuel - 1;
        match queue.pop_front() {
            None => {
                return None;
            },
            Some(current_state) => {
                if current_state.get_current_pos() == board.get_target() {
                    return Some(current_state.clone());
                }

                if already_visited(&visited, &current_state) {
                    continue;
                }
                if current_state.get_actions().as_str().unicode_len() > MOVE_CAP {
                    continue;
                }
                visited.push(current_state.clone());

                // explore the four neighbour cells
                for d in 0..4usize
                    invariant
                        board@.wf(),
                        init == initial_state@.phys(),
                        node_ok(board@, init, current_state@),
                        forall|k: int|
                            0 <= k < queue@.len() ==> node_ok(
                                board@,
                                init,
                                (#[trigger] queue@[k])@,
                            ),
                {
                    let direction = dir_char(d);
                    match step_state(board, &current_state, direction) {
                        None => {},
                        Some(new_state) => {
                            proof {
                                lemma_step_node(
                                    board@,
                                    init,
                                    current_state@,
                                    new_state@,
                                    direction,
                                );
                            }
                            queue.push_back(new_state);
                        },
                    }
                }
            },
        }
    }
    None
}

/// A successor built as the exec code builds it satisfies `node_ok` when
/// its configuration equals the spec-level step of its parent.
proof fn lemma_step_node(
    b: BoardModel,
    init: PhysModel,
    cur: StateModel,
    new: StateModel,
    c: char,
)
    requires
        node_ok(b, init, cur),
        new.wf(),
        new.pos < GRID_CELLS,
        new.actions == cur.actions.push(c),
        step(b, cur.phys(), c) == Some(new.phys()),
    ensures
        node_ok(b, init, new),
{
    lemma_replay_snoc(b, init, cur.actions, c);
}


/// Anytime variant of `solve`: solutions are recorded and the search
/// goes on until the wall clock or the queue runs out, or `SOLUTION_CAP`
/// solutions have been found.  Every recorded state stands on the target
/// and carries a move string that replays, move by move from the initial
/// configuration, to exactly that state; an empty result means no route
/// was found within the budget.
pub fn solve_anytime(board: &Board, initial_state: &State, time_budget_ms: u64) -> (r: Vec<
    State,
>)
    requires
        board@.wf(),
        initial_state@.wf(),
        initial_state@.pos < GRID_CELLS,
        initial_state@.actions.len() == 0,
    ensures
        forall|k: int|
            0 <= k < r@.len() ==> {
                let st = (#[trigger] r@[k])@;
                &&& st.wf()
                &&& st.pos == board@.target
                &&& replay(board@, initial_state@.phys(), st.actions) == Some(st.phys())
            },
{
    let ghost init = initial_state@.phys();

    let mut queue: VecDeque<State> = VecDeque::new();
    let mut visited: Vec<State> = Vec::new();
    let mut solutions: Vec<State> = Vec::new();

    queue.push_back(initial_state.clone());

    let start_time = clock_now();
    let mut fuel: u64 = SEARCH_FUEL;
    while fuel > 0 && elapsed_millis(&start_time) < time_budget_ms
        invariant
            board@.wf(),
            init == initial_state@.phys(),
            forall|k: int|
                0 <= k < queue@.len() ==> node_ok(board@, init, (#[trigger] queue@[k])@),
            forall|k: int|
                0 <= k < solutions@.len() ==> {
                    let st = (#[trigger] solutions@[k])@;
                    &&& node_ok(board@, init, st)
                    &&& st.pos == board@.target
                },
        decreases fuel,
    {
        fuel = fuel - 1;
        match queue.pop_front() {
            None => {
                return solutions;
            },
            Some(current_state) => {
                if current_state.get_current_pos() == board.get_target() {
                    solutions.push(current_state);
                    if solutions.len() >= SOLUTION_CAP {
                        return solutions;
                    }
                    continue;
                }

                if already_visited(&visited, &current_state) {
                    continue;
                }
                if current_state.get_actions().as_str().unicode_len() > MOVE_CAP {
                    continue;
                }
                visited.push(current_state.clone());

                // explore the four neighbour cells
                for d in 0..4usize
                    invariant
                        board@.wf(),
                        init == initial_state@.phys(),
                        node_ok(board@, init, current_state@),
                        forall|k: int|
                            0 <= k < queue@.len() ==> node_ok(
                                board@,
                                init,
                                (#[trigger] queue@[k])@,
                            ),
                {
                    let direction = dir_char(d);
                    match step_state(board, &current_state, direction) {
                        None => {},
                        Some(new_state) => {
                            proof {
                                lemma_step_node(
                                    board@,
                                    init,
                                    current_state@,
                                    new_state@,
                                    direction,
                                );
                            }
                            queue.push_back(new_state);
                        },
                    }
                }
            },
        }
    }
    solutions
}

/// Replaying a concatenation is replaying the first part, then the rest.
pub proof fn lemma_replay_append(b: BoardModel, s: PhysModel, a1: Seq<char>, a2: Seq<char>)
    ensures
        replay(b, s, a1 + a2) == (match replay(b, s, a1) {
            None => None,
            Some(m) => replay(b, m, a2),
        }),
    decreases a1.len(),
{
    if a1.len() == 0 {
        assert(a1 + a2 =~= a2);
    } else {
        assert((a1 + a2)[0] == a1[0]);
        assert((a1 + a2).drop_first() =~= a1.drop_first() + a2);
        match step(b, s, a1[0]) {
            None => {},
            Some(m) => {
                lemma_replay_append(b, m, a1.drop_first(), a2);
            },
        }
    }
}

/// Replays one precomputed edge's move string from `st` under the full
/// search dynamics, move by move.  `None` prunes the edge: some move of
/// it is refused under the current state — an active gate on arrival, or
/// a ball that has moved onto the edge and cannot be pushed.
fn apply_edge(board: &Board, st: &State, path: &String) -> (r: Option<State>)
    requires
        board@.wf(),
        st@.wf(),
        st@.pos < GRID_CELLS,
    ensures
        (match r {
            Some(ns) => {
                &&& ns@.wf()
                &&& ns@.pos < GRID_CELLS
                &&& ns@.actions == st@.actions + path@
                &&& replay(board@, st@.phys(), path@) == Some(ns@.phys())
            },
            None => true,
        }),
{
    let mut curst = st.clone();
    let n = path.as_str().unicode_len();
    proof {
        assert(path@.take(0) =~= Seq::<char>::empty());
        assert(st@.actions + path@.take(0) =~= st@.actions);
    }
    for i in 0..n
        invariant
            board@.wf(),
            n == path@.len(),
            curst@.wf(),
            curst@.pos < GRID_CELLS,
            curst@.actions == st@.actions + path@.take(i as int),
            replay(board@, st@.phys(), path@.take(i as int)) == Some(curst@.phys()),
    {
        let c = path.as_str().get_char(i);
        if !(c == 'L' || c == 'R' || c == 'U' || c == 'D') {
            return None;
        }
        match step_state(board, &curst, c) {
            None => {
                return None;
            },
            Some(ns) => {
                proof {
                    lemma_replay_snoc(board@, st@.phys(), path@.take(i as int), c);
                    assert(path@.take(i + 1) =~= path@.take(i as int).push(c));
                    assert(st@.actions + path@.take(i + 1) =~= (st@.actions + path@.take(
                        i as int,
                    )).push(c));
                }
                curst = ns;
            },
        }
    }
    proof {
        assert(path@.take(n as int) =~= path@);
    }
    Some(curst)
}

/// Best-first search over the portal graph: the state with the shortest
/// move string is expanded next, and its successors come from replaying
/// the precomputed portal-to-portal move strings under the full dynamics
/// (so an edge invalidated by a moved ball or an active gate is pruned,
/// not followed blindly).  The same exact-replay guarantee as `solve`
/// holds for the result.
pub fn solve_graph(
    board: &Board,
    graph: &PortalGraph,
    initial_state: &State,
    time_budget_ms: u64,
) -> (r: Option<State>)
    requires
        board@.wf(),
        initial_state@.wf(),
        initial_state@.pos < GRID_CELLS,
        initial_state@.actions.len() == 0,
    ensures
        (match r {
            Some(st) => {
                &&& st@.wf()
                &&& st@.pos == board@.target
                &&& replay(board@, initial_state@.phys(), st@.actions) == Some(st@.phys())
            },
            None => true,
        }),
{
    let ghost init = initial_state@.phys();

    let mut queue: Vec<State> = Vec::new();
    let mut visited: Vec<State> = Vec::new();

    queue.push(initial_state.clone());

    let start_time = clock_now();
    let mut fuel: u64 = SEARCH_FUEL;
    while fuel > 0 && elapsed_millis(&start_time) < time_budget_ms
        invariant
            board@.wf(),
            init == initial_state@.phys(),
            forall|k: int|
                0 <= k < queue@.len() ==> node_ok(board@, init, (#[trigger] queue@[k])@),
        decreases fuel,
    {
        fuel = fuel - 1;
        if queue.len() == 0 {
            return None;
        }

        // pop the state with the smallest fitness (move-string length)
        let mut best_i: usize = 0;
        let qn = queue.len();
        for j in 1..qn
            invariant
                qn == queue@.len(),
                best_i < qn,
        {
            if queue[j].get_actions().as_str().unicode_len() < queue[best_i].get_actions().as_str().unicode_len() {
                best_i = j;
            }
        }
        let current_state = queue.remove(best_i);

        if current_state.get_current_pos() == board.get_target() {
            return Some(current_state);
        }

        if already_visited(&visited, &current_state) {
            continue;
        }
        if current_state.get_actions().as_str().unicode_len() > MOVE_CAP {
            continue;
        }
        visited.push(current_state.clone());

        let ne = graph.edges.len();
        for e in 0..ne
            invariant
                board@.wf(),
                init == initial_state@.phys(),
                ne == graph.edges@.len(),
                node_ok(board@, init, current_state@),
                forall|k: int|
                    0 <= k < queue@.len() ==> node_ok(board@, init, (#[trigger] queue@[k])@),
        {
            let from = graph.edges[e].from;
            let to = graph.edges[e].to;
            if from == current_state.get_current_pos() && to < GRID_CELLS {
                match apply_edge(board, &current_state, &graph.edges[e].path) {
                    None => {},
                    Some(new_state) => {
                        proof {
                            lemma_replay_append(
                                board@,
                                init,
                                current_state@.actions,
                                graph.edges@[e as int].path@,
                            );
                        }
                        queue.push(new_state);
                    },
                }
            }
        }
    }
    None
}

} // verus!
