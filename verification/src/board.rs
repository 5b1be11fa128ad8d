//! The board: a fixed 21 x 21 grid of cells, the start and target
//! positions, and the registries of switch and gate positions, together
//! with the two board simplification passes.
use vstd::prelude::*;

use crate::state::{State, StateModel};

verus! {

/// Side length of the square grid.
pub const GRID_SIDE: usize = 21;

/// Number of cells on the grid.
pub const GRID_CELLS: usize = 441;

/// Capacity of the switch and gate registries; id 0 is a reserved sentinel.
pub const ID_CAP: usize = 11;

/// Classification of one grid cell.
///
/// `Switch(id)` toggles gate `id` when stepped on; `MagneticField(id)` is a
/// gate: passable only while gate `id` is inactive; `Empty` is passable and
/// may host an obstacle ball.
#[derive(Clone, Copy, Debug, PartialEq, Eq, Structural)]
pub enum Cell {
    Wall,
    Switch(usize),
    MagneticField(usize),
    Empty,
}

/// Mathematical model of a board.
#[verifier::ext_equal]
pub struct BoardModel {
    pub cells: Seq<Cell>,
    pub start: usize,
    pub target: usize,
    pub switches: Seq<usize>,
    pub gates: Seq<usize>,
}

impl BoardModel {
    /// Well-formedness: the grid holds exactly 441 cells, the registries
    /// hold 11 entries, start and target are on the grid, and every
    /// classified cell carries an id below the registry capacity.
    pub open spec fn wf(self) -> bool {
        &&& self.cells.len() == GRID_CELLS
        &&& self.switches.len() == ID_CAP
        &&& self.gates.len() == ID_CAP
        &&& self.start < GRID_CELLS
        &&& self.target < GRID_CELLS
        &&& forall|i: int|
            0 <= i < GRID_CELLS ==> cell_id_ok(#[trigger] self.cells[i])
    }
}

/// The id carried by a switch or gate cell is below the registry capacity.
pub open spec fn cell_id_ok(c: Cell) -> bool {
    match c {
        Cell::Switch(id) => id < ID_CAP,
        Cell::MagneticField(id) => id < ID_CAP,
        _ => true,
    }
}

/// A cell index lies strictly inside the border ring of the grid.
pub open spec fn interior(idx: int) -> bool {
    &&& 0 <= idx < GRID_CELLS
    &&& 0 < idx % 21 < 20
    &&& 0 < idx / 21 < 20
}

/// The board: cell grid, start and target, and the switch and gate
/// position registries, indexed by id.
pub struct Board {
    board: Vec<Cell>,
    start: usize,
    target: usize,
    all_switches: Vec<usize>,
    all_magnetic_fields: Vec<usize>,
}

impl View for Board {
    type V = BoardModel;

    closed spec fn view(&self) -> BoardModel {
        BoardModel {
            cells: self.board@,
            start: self.start,
            target: self.target,
            switches: self.all_switches@,
            gates: self.all_magnetic_fields@,
        }
    }
}

impl Board {
    /// A fresh board: every cell a wall, start and target at index 0,
    /// every registry entry the sentinel 0.
    pub fn new() -> (b: Board)
        ensures
            b@.wf(),
            b@.cells == Seq::new(GRID_CELLS as nat, |i: int| Cell::Wall),
            b@.start == 0,
            b@.target == 0,
            b@.switches == Seq::new(ID_CAP as nat, |i: int| 0usize),
            b@.gates == Seq::new(ID_CAP as nat, |i: int| 0usize),
    {
        let mut cells: Vec<Cell> = Vec::new();
        for k in 0..GRID_CELLS
            invariant
                cells@.len() == k,
                forall|i: int| 0 <= i < k ==> cells@[i] == Cell::Wall,
        {
            cells.push(Cell::Wall);
        }
        let mut switches: Vec<usize> = Vec::new();
        let mut fields: Vec<usize> = Vec::new();
        for k in 0..ID_CAP
            invariant
                switches@.len() == k,
                fields@.len() == k,
                forall|i: int| 0 <= i < k ==> switches@[i] == 0usize,
                forall|i: int| 0 <= i < k ==> fields@[i] == 0usize,
        {
            switches.push(0);
            fields.push(0);
        }
        let b = Board { board: cells, start: 0, target: 0, all_switches: switches, all_magnetic_fields: fields };
        proof {
            assert(b@.cells =~= Seq::new(GRID_CELLS as nat, |i: int| Cell::Wall));
            assert(b@.switches =~= Seq::new(ID_CAP as nat, |i: int| 0usize));
            assert(b@.gates =~= Seq::new(ID_CAP as nat, |i: int| 0usize));
        }
        b
    }

    /// Records `cell` at column `x`, row `y`; a switch or gate cell is also
    /// registered under its id.
    pub fn set_cell(&mut self, x: usize, y: usize, cell: Cell)
        requires
            old(self)@.wf(),
            x < GRID_SIDE,
            y < GRID_SIDE,
            cell_id_ok(cell),
        ensures
            final(self)@.wf(),
            final(self)@.cells == old(self)@.cells.update((y * 21 + x) as int, cell),
            final(self)@.start == old(self)@.start,
            final(self)@.target == old(self)@.target,
            final(self)@.switches == match cell {
                Cell::Switch(id) => old(self)@.switches.update(id as int, (y * 21 + x) as usize),
                _ => old(self)@.switches,
            },
            final(self)@.gates == match cell {
                Cell::MagneticField(id) => old(self)@.gates.update(id as int, (y * 21 + x) as usize),
                _ => old(self)@.gates,
            },
    {
        let pos = y * 21 + x;
        match cell {
            Cell::Switch(idx) => {
                self.all_switches[idx] = pos;
            },
            Cell::MagneticField(idx) => {
                self.all_magnetic_fields[idx] = pos;
            },
            _ => (),
        }
        self.board[pos] = cell;
    }

    /// The cell at flat index `idx`.
    pub fn get_cell(&self, idx: usize) -> (c: &Cell)
        requires
            idx < self@.cells.len(),
        ensures
            *c == self@.cells[idx as int],
    {
        &self.board[idx]
    }

    /// Sets the start position to column `x`, row `y`.
    pub fn set_start(&mut self, x: usize, y: usize)
        requires
            old(self)@.wf(),
            x < GRID_SIDE,
            y < GRID_SIDE,
        ensures
            final(self)@ == (BoardModel { start: (y * 21 + x) as usize, ..old(self)@ }),
            final(self)@.wf(),
    {
        self.start = y * 21 + x;
    }

    /// The start position as a flat index.
    pub fn get_start(&self) -> (r: usize)
        ensures
            r == self@.start,
    {
        self.start
    }

    /// Sets the target position to column `x`, row `y`.
    pub fn set_target(&mut self, x: usize, y: usize)
        requires
            old(self)@.wf(),
            x < GRID_SIDE,
            y < GRID_SIDE,
        ensures
            final(self)@ == (BoardModel { target: (y * 21 + x) as usize, ..old(self)@ }),
            final(self)@.wf(),
    {
        self.target = y * 21 + x;
    }

    /// The target position as a flat index.
    pub fn get_target(&self) -> (r: usize)
        ensures
            r == self@.target,
    {
        self.target
    }

    /// Whether start and target sit on passable, non-wall cells: the
    /// board invariant a loader must establish (the dead-end pass's
    /// connectivity guarantee is anchored at a non-wall start cell).
    pub fn endpoints_open(&self) -> (r: bool)
        requires
            self@.wf(),
        ensures
            r == (self@.cells[self@.start as int] != Cell::Wall && self@.cells[self@.target
                as int] != Cell::Wall),
    {
        *self.get_cell(self.start) != Cell::Wall && *self.get_cell(self.target) != Cell::Wall
    }

    /// The registered position of switch `id` (0 when unused).
    pub fn get_switch_pos(&self, id: usize) -> (r: usize)
        requires
            self@.wf(),
            id < ID_CAP,
        ensures
            r == self@.switches[id as int],
    {
        self.all_switches[id]
    }

    /// The registered position of gate `id` (0 when unused).
    pub fn get_gate_pos(&self, id: usize) -> (r: usize)
        requires
            self@.wf(),
            id < ID_CAP,
        ensures
            r == self@.gates[id as int],
    {
        self.all_magnetic_fields[id]
    }
}

/// How a simplification pass may change a board: start, target and the
/// registries stay; a cell either stays, or was empty and became a wall.
pub open spec fn board_shrunk(a: BoardModel, b: BoardModel) -> bool {
    &&& b.start == a.start
    &&& b.target == a.target
    &&& b.switches == a.switches
    &&& b.gates == a.gates
    &&& b.cells.len() == a.cells.len()
    &&& forall|i: int|
        0 <= i < a.cells.len() ==> (#[trigger] b.cells[i]) == a.cells[i] || (a.cells[i]
            == Cell::Empty && b.cells[i] == Cell::Wall)
}

/// How a simplification pass may change a state: only balls (with their
/// push counts) may be dropped; here only the count matters.
pub open spec fn state_shrunk(a: StateModel, b: StateModel) -> bool {
    &&& b.pos == a.pos
    &&& b.fields == a.fields
    &&& b.actions == a.actions
    &&& b.balls.len() <= a.balls.len()
    &&& b.wf()
}

/// Number of wall cells among the four orthogonal neighbours of `idx`.
pub open spec fn wall_count(cells: Seq<Cell>, idx: int) -> int {
    (if cells[idx - 1] == Cell::Wall {
        1int
    } else {
        0int
    }) + (if cells[idx + 1] == Cell::Wall {
        1int
    } else {
        0int
    }) + (if cells[idx - 21] == Cell::Wall {
        1int
    } else {
        0int
    }) + (if cells[idx + 21] == Cell::Wall {
        1int
    } else {
        0int
    })
}

/// An interior empty cell, other than start and target, walled on exactly
/// three sides: the dead-end pass fills it.
pub open spec fn deadend_fillable(b: BoardModel, idx: int) -> bool {
    &&& interior(idx)
    &&& idx != b.start
    &&& idx != b.target
    &&& b.cells[idx] == Cell::Empty
    &&& wall_count(b.cells, idx) == 3
}

/// No cell is left for the dead-end pass to fill.
pub open spec fn deadend_fixpoint(b: BoardModel) -> bool {
    forall|idx: int| !deadend_fillable(b, idx)
}

/// A wall beside the cell and a wall above or below it: whatever sits
/// there can never be pushed out of the corner.
pub open spec fn wall_cornered(cells: Seq<Cell>, ball: usize) -> bool {
    &&& interior(ball as int)
    &&& {
        let l = cells[ball - 1] == Cell::Wall;
        let r = cells[ball + 1] == Cell::Wall;
        let u = cells[ball - 21] == Cell::Wall;
        let d = cells[ball + 21] == Cell::Wall;
        (l && u) || (r && u) || (l && d) || (r && d)
    }
}

/// A ball wedged into a wall corner on its empty cell: the obstacle pass
/// fuses it into the terrain.
pub open spec fn wedged(cells: Seq<Cell>, ball: usize) -> bool {
    &&& wall_cornered(cells, ball)
    &&& cells[ball as int] == Cell::Empty
}

/// No ball is left for the obstacle pass to fuse.
pub open spec fn balls_fixpoint(b: BoardModel, s: StateModel) -> bool {
    forall|i: int| 0 <= i < s.balls.len() ==> !wedged(b.cells, #[trigger] s.balls[i])
}

/// The (position, push count) pairs of a state's balls.
pub open spec fn ball_pairs(s: StateModel) -> Seq<(usize, u8)> {
    Seq::new(s.balls.len(), |i: int| (s.balls[i], s.counts[i]))
}

/// What must hold of a ball the obstacle pass dropped: it sat wall
/// cornered and its cell has become terrain.
pub open spec fn removal_justified(p: (usize, u8), cells: Seq<Cell>) -> bool {
    &&& wall_cornered(cells, p.0)
    &&& cells[p.0 as int] == Cell::Wall
}

/// The new ball-pair list is a subsequence of the old one — positions,
/// push counts and order unchanged — and every dropped pair is a
/// justified removal.
pub open spec fn balls_reduced(
    op: Seq<(usize, u8)>,
    np: Seq<(usize, u8)>,
    cells: Seq<Cell>,
) -> bool
    decreases op.len(),
{
    if op.len() == 0 {
        np.len() == 0
    } else {
        ||| (np.len() > 0 && np[0] == op[0] && balls_reduced(
            op.drop_first(),
            np.drop_first(),
            cells,
        ))
        ||| (removal_justified(op[0], cells) && balls_reduced(op.drop_first(), np, cells))
    }
}

/// The first `bound + 1` balls (positions and counts) of `cur` agree
/// with `s0`.
pub open spec fn balls_prefix_intact(s0: StateModel, cur: StateModel, bound: int) -> bool {
    forall|i2: int|
        0 <= i2 <= bound ==> i2 < cur.balls.len() && (#[trigger] cur.balls[i2])
            == s0.balls[i2] && cur.counts[i2] == s0.counts[i2]
}

/// Nothing removed is a (justified) reduction.
proof fn lemma_balls_reduced_refl(p: Seq<(usize, u8)>, cells: Seq<Cell>)
    ensures
        balls_reduced(p, p, cells),
    decreases p.len(),
{
    if p.len() > 0 {
        lemma_balls_reduced_refl(p.drop_first(), cells);
    }
}

/// A reduction stays one when walls only accumulate.
proof fn lemma_balls_reduced_mono(
    op: Seq<(usize, u8)>,
    np: Seq<(usize, u8)>,
    a: Seq<Cell>,
    b: Seq<Cell>,
)
    requires
        balls_reduced(op, np, a),
        a.len() == GRID_CELLS,
        a.len() == b.len(),
        forall|i: int| 0 <= i < a.len() && (#[trigger] a[i]) == Cell::Wall ==> b[i] == Cell::Wall,
    ensures
        balls_reduced(op, np, b),
    decreases op.len(),
{
    if op.len() > 0 {
        if np.len() > 0 && np[0] == op[0] && balls_reduced(op.drop_first(), np.drop_first(), a) {
            lemma_balls_reduced_mono(op.drop_first(), np.drop_first(), a, b);
        } else {
            assert(removal_justified(op[0], a) && balls_reduced(op.drop_first(), np, a));
            let p0 = op[0].0;
            assert(interior(p0 as int));
            assert(wall_cornered(b, p0)) by {
                assert(interior(p0 as int));
                if a[p0 - 1] == Cell::Wall {
                    assert(b[p0 - 1] == Cell::Wall);
                }
                if a[p0 + 1] == Cell::Wall {
                    assert(b[p0 + 1] == Cell::Wall);
                }
                if a[p0 - 21] == Cell::Wall {
                    assert(b[p0 - 21] == Cell::Wall);
                }
                if a[p0 + 21] == Cell::Wall {
                    assert(b[p0 + 21] == Cell::Wall);
                }
            }
            assert(b[p0 as int] == Cell::Wall);
            assert(removal_justified(op[0], b));
            lemma_balls_reduced_mono(op.drop_first(), np, a, b);
        }
    }
}

/// Reductions compose.
proof fn lemma_balls_reduced_trans(
    a: Seq<(usize, u8)>,
    b: Seq<(usize, u8)>,
    c: Seq<(usize, u8)>,
    cells: Seq<Cell>,
)
    requires
        balls_reduced(a, b, cells),
        balls_reduced(b, c, cells),
    ensures
        balls_reduced(a, c, cells),
    decreases a.len(),
{
    if a.len() > 0 {
        if b.len() > 0 && b[0] == a[0] && balls_reduced(a.drop_first(), b.drop_first(), cells) {
            if c.len() > 0 && c[0] == b[0] && balls_reduced(
                b.drop_first(),
                c.drop_first(),
                cells,
            ) {
                lemma_balls_reduced_trans(a.drop_first(), b.drop_first(), c.drop_first(), cells);
            } else {
                assert(removal_justified(b[0], cells) && balls_reduced(
                    b.drop_first(),
                    c,
                    cells,
                ));
                lemma_balls_reduced_trans(a.drop_first(), b.drop_first(), c, cells);
            }
        } else {
            lemma_balls_reduced_trans(a.drop_first(), b, c, cells);
        }
    }
}

/// A justified removal from an already-reduced list keeps it reduced.
proof fn lemma_balls_reduced_remove(
    a: Seq<(usize, u8)>,
    b: Seq<(usize, u8)>,
    cells: Seq<Cell>,
    i: int,
)
    requires
        balls_reduced(a, b, cells),
        0 <= i < b.len(),
        removal_justified(b[i], cells),
    ensures
        balls_reduced(a, b.remove(i), cells),
    decreases a.len(),
{
    if a.len() == 0 {
        assert(false);
    } else if b.len() > 0 && b[0] == a[0] && balls_reduced(
        a.drop_first(),
        b.drop_first(),
        cells,
    ) {
        if i == 0 {
            assert(b.remove(0) =~= b.drop_first());
            assert(removal_justified(a[0], cells));
        } else {
            lemma_balls_reduced_remove(a.drop_first(), b.drop_first(), cells, i - 1);
            assert(b.remove(i).drop_first() =~= b.drop_first().remove(i - 1));
            assert(b.remove(i)[0] == b[0]);
        }
    } else {
        lemma_balls_reduced_remove(a.drop_first(), b, cells, i);
    }
}

/// A walk across non-wall cells: each move must stay on the grid and the
/// entered cell must not be a wall (balls and gate activation are ignored
/// here — this is bare terrain connectivity).
pub open spec fn wall_walk(cells: Seq<Cell>, from: usize, w: Seq<char>) -> Option<usize>
    decreases w.len(),
{
    if w.len() == 0 {
        Some(from)
    } else if crate::bfs::dir_ok(from, w[0]) {
        let ni = ((from + crate::bfs::dir_delta(w[0])) as usize);
        if cells[ni as int] != Cell::Wall {
            wall_walk(cells, ni, w.drop_first())
        } else {
            None
        }
    } else {
        None
    }
}

/// Some walk across non-wall cells joins `from` to `to`.
pub open spec fn connected(cells: Seq<Cell>, from: usize, to: usize) -> bool {
    exists|w: Seq<char>| wall_walk(cells, from, w) == Some(to)
}

/// A walk stays valid on a board with fewer walls.
proof fn lemma_wall_walk_fewer(
    more: Seq<Cell>,
    less: Seq<Cell>,
    from: usize,
    w: Seq<char>,
    to: usize,
)
    requires
        more.len() == GRID_CELLS,
        more.len() == less.len(),
        forall|i: int| 0 <= i < less.len() && (#[trigger] less[i]) == Cell::Wall ==> more[i]
            == Cell::Wall,
        wall_walk(more, from, w) == Some(to),
    ensures
        wall_walk(less, from, w) == Some(to),
    decreases w.len(),
{
    if w.len() > 0 {
        assert(crate::bfs::dir_ok(from, w[0]));
        let ni = ((from + crate::bfs::dir_delta(w[0])) as usize);
        assert(more[ni as int] != Cell::Wall);
        assert(less[ni as int] != Cell::Wall);
        lemma_wall_walk_fewer(more, less, ni, w.drop_first(), to);
    }
}

/// Path surgery around a filled dead end: a three-walled cell other than
/// the walk's two endpoints can always be avoided, since any visit must
/// enter and leave it through its single non-wall neighbour.
proof fn lemma_walk_avoids_deadend(
    cells: Seq<Cell>,
    cfill: usize,
    from: usize,
    w: Seq<char>,
    to: usize,
)
    requires
        cells.len() == GRID_CELLS,
        wall_walk(cells, from, w) == Some(to),
        from < GRID_CELLS,
        cells[from as int] != Cell::Wall,
        from != cfill,
        to != cfill,
        interior(cfill as int),
        wall_count(cells, cfill as int) == 3,
    ensures
        exists|w2: Seq<char>|
            wall_walk(cells.update(cfill as int, Cell::Wall), from, w2) == Some(to),
    decreases w.len(),
{
    let upd = cells.update(cfill as int, Cell::Wall);
    if w.len() == 0 {
        assert(wall_walk(upd, from, Seq::<char>::empty()) == Some(to));
    } else {
        let c0 = w[0];
        assert(crate::bfs::dir_ok(from, c0));
        let ni = ((from + crate::bfs::dir_delta(c0)) as usize);
        assert(cells[ni as int] != Cell::Wall);
        if ni != cfill {
            lemma_walk_avoids_deadend(cells, cfill, ni, w.drop_first(), to);
            let w2 = choose|w2: Seq<char>| wall_walk(upd, ni, w2) == Some(to);
            assert((seq![c0] + w2)[0] == c0);
            assert((seq![c0] + w2).drop_first() =~= w2);
            assert(wall_walk(upd, from, seq![c0] + w2) == Some(to));
        } else {
            // the walk enters the dead end; it must leave through the one
            // non-wall neighbour, which is where it came from
            let rest = w.drop_first();
            assert(wall_walk(cells, cfill, rest) == Some(to));
            assert(rest.len() >= 1);
            let c1 = rest[0];
            assert(crate::bfs::dir_ok(cfill, c1));
            let x = ((cfill + crate::bfs::dir_delta(c1)) as usize);
            assert(cells[x as int] != Cell::Wall);
            assert(wall_walk(cells, x, rest.drop_first()) == Some(to));
            // from and x are both non-wall orthogonal neighbours of cfill
            assert(from as int == cfill - crate::bfs::dir_delta(c0));
            assert(x == from) by {
                assert(from as int == cfill - 1 || from as int == cfill + 1 || from as int
                    == cfill - 21 || from as int == cfill + 21);
                assert(x as int == cfill - 1 || x as int == cfill + 1 || x as int == cfill
                    - 21 || x as int == cfill + 21);
            }
            assert(rest.drop_first() =~= w.skip(2));
            lemma_walk_avoids_deadend(cells, cfill, from, w.skip(2), to);
        }
    }
}

/// Number of empty cells in the grid; the simplification passes only ever
/// shrink it.
pub open spec fn count_empty(cells: Seq<Cell>) -> nat
    decreases cells.len(),
{
    if cells.len() == 0 {
        0
    } else {
        (if cells[0] == Cell::Empty {
            1nat
        } else {
            0nat
        }) + count_empty(cells.drop_first())
    }
}

/// Walling an empty cell strictly shrinks the empty-cell count.
proof fn lemma_count_empty_update(cells: Seq<Cell>, i: int)
    requires
        0 <= i < cells.len(),
        cells[i] == Cell::Empty,
    ensures
        count_empty(cells.update(i, Cell::Wall)) < count_empty(cells),
    decreases cells.len(),
{
    let upd = cells.update(i, Cell::Wall);
    if i == 0 {
        assert(upd.drop_first() =~= cells.drop_first());
    } else {
        assert(upd[0] == cells[0]);
        assert(upd.drop_first() =~= cells.drop_first().update(i - 1, Cell::Wall));
        lemma_count_empty_update(cells.drop_first(), i - 1);
    }
}

/// In a strictly increasing sequence, entries grow at least by index.
proof fn lemma_strict_inc_gap(s: Seq<usize>, p: int, q: int)
    requires
        forall|r1: int, r2: int| 0 <= r1 < r2 < s.len() ==> s[r1] < s[r2],
        0 <= p <= q < s.len(),
    ensures
        s[q] >= s[p] + (q - p),
    decreases q - p,
{
    if p < q {
        lemma_strict_inc_gap(s, p, q - 1);
    }
}

/// Removes the marked balls (indices strictly increasing), largest first
/// so the remaining indices stay valid.  Each marked ball must be a
/// justified removal with respect to `cells`; the survivors keep their
/// positions, push counts and order.
fn remove_marked_balls(state: &mut State, marks: &Vec<usize>, Ghost(cells): Ghost<Seq<Cell>>)
    requires
        old(state)@.wf(),
        forall|p: int, q: int| 0 <= p < q < marks@.len() ==> marks@[p] < marks@[q],
        forall|p: int| 0 <= p < marks@.len() ==> (#[trigger] marks@[p])
            < old(state)@.balls.len(),
        forall|j: int|
            0 <= j < marks@.len() ==> removal_justified(
                ball_pairs(old(state)@)[#[trigger] marks@[j] as int],
                cells,
            ),
    ensures
        final(state)@.wf(),
        final(state)@.pos == old(state)@.pos,
        final(state)@.fields == old(state)@.fields,
        final(state)@.actions == old(state)@.actions,
        final(state)@.balls.len() == old(state)@.balls.len() - marks@.len(),
        balls_reduced(ball_pairs(old(state)@), ball_pairs(final(state)@), cells),
        marks@.len() == 0 ==> final(state)@ == old(state)@,
{
    let ghost s0 = state@;
    let k = marks.len();
    proof {
        lemma_balls_reduced_refl(ball_pairs(s0), cells);
    }
    for t in 0..k
        invariant
            k == marks@.len(),
            state@.wf(),
            state@.pos == s0.pos,
            state@.fields == s0.fields,
            state@.actions == s0.actions,
            state@.balls.len() == s0.balls.len() - t,
            forall|p: int, q: int| 0 <= p < q < k ==> marks@[p] < marks@[q],
            forall|p: int| 0 <= p < k ==> (#[trigger] marks@[p]) < s0.balls.len(),
            forall|j: int|
                0 <= j < k ==> removal_justified(
                    ball_pairs(s0)[#[trigger] marks@[j] as int],
                    cells,
                ),
            balls_reduced(ball_pairs(s0), ball_pairs(state@), cells),
            t == 0 ==> state@ == s0,
            t < k ==> balls_prefix_intact(s0, state@, marks@[k - 1 - t] as int),
    {
        let idx = marks[k - 1 - t];
        proof {
            lemma_strict_inc_gap(marks@, k - 1 - t, k - 1);
        }
        let ghost before = state@;
        state.remove_garbage_ball_by_idx(idx);
        proof {
            assert(ball_pairs(state@) =~= ball_pairs(before).remove(idx as int));
            assert(ball_pairs(before)[idx as int] == ball_pairs(s0)[idx as int]);
            lemma_balls_reduced_remove(
                ball_pairs(s0),
                ball_pairs(before),
                cells,
                idx as int,
            );
            if t + 1 < k {
                lemma_strict_inc_gap(marks@, k - 2 - t, k - 1 - t);
                assert(marks@[k - 2 - t] < idx);
                assert(balls_prefix_intact(s0, state@, marks@[k - 2 - t] as int)) by {
                    assert forall|i2: int|
                        0 <= i2 <= marks@[k - 2 - t] as int implies i2 < state@.balls.len()
                        && (#[trigger] state@.balls[i2]) == s0.balls[i2] && state@.counts[i2]
                        == s0.counts[i2] by {
                        assert(i2 < idx);
                        assert(state@.balls[i2] == before.balls.remove(idx as int)[i2]);
                        assert(before.balls.remove(idx as int)[i2] == before.balls[i2]);
                        assert(state@.counts[i2] == before.counts.remove(idx as int)[i2]);
                        assert(before.counts.remove(idx as int)[i2] == before.counts[i2]);
                    }
                }
                assert(marks@[k - 1 - (t + 1)] == marks@[k - 2 - t]);
            }
        }
    }
    proof {
        if k == 0 {
            assert(state@ =~= s0);
        }
    }
}

/// Whether `idx` lies strictly inside the border ring.
fn is_interior(idx: usize) -> (r: bool)
    ensures
        r == interior(idx as int),
{
    idx < GRID_CELLS && idx % 21 > 0 && idx % 21 < 20 && idx / 21 > 0 && idx / 21 < 20
}

impl Board {
    /// One scan of the obstacle pass: every ball wedged into a wall corner
    /// becomes a wall cell and leaves the ball list.  Returns whether
    /// anything changed; when nothing changed the pass is at its fixpoint
    /// and board and state are untouched.
    #[verifier::rlimit(60)]
    fn simplify_balls(&mut self, state: &mut State) -> (changed: bool)
        requires
            old(self)@.wf(),
            old(state)@.wf(),
        ensures
            final(self)@.wf(),
            board_shrunk(old(self)@, final(self)@),
            state_shrunk(old(state)@, final(state)@),
            balls_reduced(ball_pairs(old(state)@), ball_pairs(final(state)@), final(self)@.cells),
            changed ==> final(state)@.balls.len() < old(state)@.balls.len(),
            !changed ==> final(self)@ == old(self)@ && final(state)@ == old(state)@
                && balls_fixpoint(final(self)@, final(state)@),
            balls_fixpoint(old(self)@, old(state)@) ==> !changed,
    {
        let ghost b0 = self@;
        let ghost s0 = state@;
        let mut idx_to_change: Vec<usize> = Vec::new();
        let n = state.get_garbage_balls().len();
        for i in 0..n
            invariant
                self@.wf(),
                state@ == s0,
                state@.wf(),
                n == state@.balls.len(),
                board_shrunk(b0, self@),
                forall|p: int, q: int|
                    0 <= p < q < idx_to_change@.len() ==> idx_to_change@[p] < idx_to_change@[q],
                forall|p: int| 0 <= p < idx_to_change@.len() ==> (#[trigger] idx_to_change@[p])
                    < i,
                idx_to_change@.len() == 0 ==> self@ == b0 && (forall|j: int|
                    0 <= j < i ==> !wedged(self@.cells, #[trigger] state@.balls[j])),
                balls_fixpoint(b0, s0) ==> idx_to_change@.len() == 0,
                forall|j: int|
                    0 <= j < idx_to_change@.len() ==> removal_justified(
                        (
                            s0.balls[#[trigger] idx_to_change@[j] as int],
                            s0.counts[idx_to_change@[j] as int],
                        ),
                        self@.cells,
                    ),
        {
            let ball = state.get_garbage_balls()[i];
            if is_interior(ball) && *self.get_cell(ball) == Cell::Empty {
                let wl = *self.get_cell(ball - 1) == Cell::Wall;
                let wr = *self.get_cell(ball + 1) == Cell::Wall;
                let wu = *self.get_cell(ball - 21) == Cell::Wall;
                let wd = *self.get_cell(ball + 21) == Cell::Wall;
                if (wl && wu) || (wr && wu) || (wl && wd) || (wr && wd) {
                    proof {
                        assert(wedged(self@.cells, ball));
                        if balls_fixpoint(b0, s0) {
                            assert(self@ == b0);
                            assert(!wedged(b0.cells, s0.balls[i as int]));
                            assert(false);
                        }
                    }
                    let ghost cells1 = self@.cells;
                    self.board[ball] = Cell::Wall;
                    let ghost old_idx = idx_to_change@;
                    idx_to_change.push(i);
                    proof {
                        assert(self@.cells[ball as int] == Cell::Wall);
                        assert(wall_cornered(self@.cells, ball));
                        assert(removal_justified((ball, s0.counts[i as int]), self@.cells));
                        assert forall|j: int|
                            0 <= j < idx_to_change@.len() implies removal_justified(
                            (
                                s0.balls[#[trigger] idx_to_change@[j] as int],
                                s0.counts[idx_to_change@[j] as int],
                            ),
                            self@.cells,
                        ) by {
                            if j < old_idx.len() {
                                assert(idx_to_change@[j] == old_idx[j]);
                                let bj = s0.balls[old_idx[j] as int];
                                assert(removal_justified(
                                    (bj, s0.counts[old_idx[j] as int]),
                                    cells1,
                                ));
                                assert(self@.cells =~= cells1.update(ball as int, Cell::Wall));
                                assert(interior(bj as int));
                                assert(wall_cornered(self@.cells, bj)) by {
                                    if cells1[bj - 1] == Cell::Wall {
                                        assert(self@.cells[bj - 1] == Cell::Wall);
                                    }
                                    if cells1[bj + 1] == Cell::Wall {
                                        assert(self@.cells[bj + 1] == Cell::Wall);
                                    }
                                    if cells1[bj - 21] == Cell::Wall {
                                        assert(self@.cells[bj - 21] == Cell::Wall);
                                    }
                                    if cells1[bj + 21] == Cell::Wall {
                                        assert(self@.cells[bj + 21] == Cell::Wall);
                                    }
                                }
                                assert(self@.cells[bj as int] == Cell::Wall);
                            } else {
                                assert(idx_to_change@[j] == i);
                            }
                        }
                    }
                }
            }
        }

        let k = idx_to_change.len();
        remove_marked_balls(state, &idx_to_change, Ghost(self@.cells));

        proof {
            if k == 0 {
                assert(state@ == s0);
                assert(forall|j: int|
                    0 <= j < n ==> !wedged(self@.cells, #[trigger] state@.balls[j]));
            }
        }
                k > 0
    }

    /// One scan of the dead-end pass over the interior: an empty cell other
    /// than start and target with exactly three wall neighbours becomes a
    /// wall.  Returns whether anything changed; when nothing changed the
    /// board is untouched and at the dead-end fixpoint.  Filling dead ends
    /// never changes whether the target can be reached from a non-wall
    /// start cell across non-wall terrain.
    fn simplify_deadend_sweep(&mut self) -> (changed: bool)
        requires
            old(self)@.wf(),
        ensures
            final(self)@.wf(),
            board_shrunk(old(self)@, final(self)@),
            changed ==> count_empty(final(self)@.cells) < count_empty(old(self)@.cells),
            !changed ==> final(self)@ == old(self)@ && deadend_fixpoint(final(self)@),
            deadend_fixpoint(old(self)@) ==> !changed,
            final(self)@.cells[old(self)@.start as int] == old(self)@.cells[old(
                self,
            )@.start as int],
            old(self)@.cells[old(self)@.start as int] != Cell::Wall ==> (connected(
                old(self)@.cells,
                old(self)@.start,
                old(self)@.target,
            ) <==> connected(final(self)@.cells, old(self)@.start, old(self)@.target)),
    {
        let ghost b0 = self@;
        let mut changed = false;
        for y in 1..20usize
            invariant
                self@.wf(),
                b0.wf(),
                board_shrunk(b0, self@),
                changed ==> count_empty(self@.cells) < count_empty(b0.cells),
                !changed ==> self@ == b0 && (forall|idx: int|
                    0 <= idx < 441 && idx / 21 < y ==> !(#[trigger] deadend_fillable(
                        self@,
                        idx,
                    ))),
                deadend_fixpoint(b0) ==> !changed,
                self@.cells[b0.start as int] == b0.cells[b0.start as int],
                b0.cells[b0.start as int] != Cell::Wall ==> (connected(
                    b0.cells,
                    b0.start,
                    b0.target,
                ) <==> connected(self@.cells, b0.start, b0.target)),
        {
            for x in 1..20usize
                invariant
                    1 <= y < 20,
                    self@.wf(),
                    b0.wf(),
                    board_shrunk(b0, self@),
                    changed ==> count_empty(self@.cells) < count_empty(b0.cells),
                    !changed ==> self@ == b0 && (forall|idx: int|
                        0 <= idx < 441 && (idx / 21 < y || (idx / 21 == y && idx % 21 < x))
                            ==> !(#[trigger] deadend_fillable(self@, idx))),
                    deadend_fixpoint(b0) ==> !changed,
                    self@.cells[b0.start as int] == b0.cells[b0.start as int],
                    b0.cells[b0.start as int] != Cell::Wall ==> (connected(
                        b0.cells,
                        b0.start,
                        b0.target,
                    ) <==> connected(self@.cells, b0.start, b0.target)),
            {
                let idx = y * 21 + x;
                proof {
                    assert(idx / 21 == y && idx % 21 == x);
                }
                if idx != self.get_start() && idx != self.get_target() {
                    if *self.get_cell(idx) == Cell::Empty {
                        let mut count: usize = 0;
                        if *self.get_cell(idx - 1) == Cell::Wall {
                            count = count + 1;
                        }
                        if *self.get_cell(idx + 1) == Cell::Wall {
                            count = count + 1;
                        }
                        if *self.get_cell(idx - 21) == Cell::Wall {
                            count = count + 1;
                        }
                        if *self.get_cell(idx + 21) == Cell::Wall {
                            count = count + 1;
                        }
                        if count == 3 {
                            proof {
                                assert(deadend_fillable(self@, idx as int));
                                if deadend_fixpoint(b0) {
                                    assert(self@ == b0);
                                    assert(false);
                                }
                                lemma_count_empty_update(self@.cells, idx as int);
                            }
                            let ghost pre = self@.cells;
                            self.board[idx] = Cell::Wall;
                            changed = true;
                            proof {
                                assert(self@.cells =~= pre.update(idx as int, Cell::Wall));
                                if b0.cells[b0.start as int] != Cell::Wall {
                                    // forward: the filled cell can be walked around
                                    if connected(pre, b0.start, b0.target) {
                                        let w = choose|w: Seq<char>|
                                            wall_walk(pre, b0.start, w) == Some(b0.target);
                                        lemma_walk_avoids_deadend(
                                            pre,
                                            idx,
                                            b0.start,
                                            w,
                                            b0.target,
                                        );
                                        assert(connected(self@.cells, b0.start, b0.target));
                                    }
                                    // backward: a walk on more walls works on fewer
                                    if connected(self@.cells, b0.start, b0.target) {
                                        let w = choose|w: Seq<char>|
                                            wall_walk(self@.cells, b0.start, w) == Some(
                                                b0.target,
                                            );
                                        lemma_wall_walk_fewer(
                                            self@.cells,
                                            pre,
                                            b0.start,
                                            w,
                                            b0.target,
                                        );
                                        assert(connected(pre, b0.start, b0.target));
                                    }
                                }
                            }
                        } else {
                            proof {
                                assert(wall_count(self@.cells, idx as int) != 3);
                            }
                        }
                    }
                }
            }
        }
        proof {
            if !changed {
                assert forall|idx: int| !deadend_fillable(self@, idx) by {
                    if deadend_fillable(self@, idx) {
                        assert(0 <= idx < 441 && idx / 21 < 20);
                    }
                }
            }
        }
        changed
    }

    /// The dead-end pass, iterated to its fixpoint; start-to-target
    /// terrain connectivity is exactly preserved.
    fn simplify_deadend(&mut self) -> (changed: bool)
        requires
            old(self)@.wf(),
        ensures
            final(self)@.wf(),
            board_shrunk(old(self)@, final(self)@),
            deadend_fixpoint(final(self)@),
            changed ==> count_empty(final(self)@.cells) < count_empty(old(self)@.cells),
            !changed ==> final(self)@ == old(self)@,
            deadend_fixpoint(old(self)@) ==> !changed,
            final(self)@.cells[old(self)@.start as int] == old(self)@.cells[old(
                self,
            )@.start as int],
            old(self)@.cells[old(self)@.start as int] != Cell::Wall ==> (connected(
                old(self)@.cells,
                old(self)@.start,
                old(self)@.target,
            ) <==> connected(final(self)@.cells, old(self)@.start, old(self)@.target)),
    {
        let ghost b0 = self@;
        let mut any = false;
        let mut improved = true;
        while improved
            invariant
                self@.wf(),
                b0.wf(),
                board_shrunk(b0, self@),
                any ==> count_empty(self@.cells) < count_empty(b0.cells),
                !any ==> self@ == b0,
                deadend_fixpoint(b0) ==> !any,
                !improved ==> deadend_fixpoint(self@),
                self@.cells[b0.start as int] == b0.cells[b0.start as int],
                b0.cells[b0.start as int] != Cell::Wall ==> (connected(
                    b0.cells,
                    b0.start,
                    b0.target,
                ) <==> connected(self@.cells, b0.start, b0.target)),
            decreases count_empty(self@.cells) + (if improved {
                1int
            } else {
                0int
            }),
        {
            improved = self.simplify_deadend_sweep();
            if improved {
                any = true;
            }
        }
        any
    }

    /// Runs the two simplification passes — obstacle fusing, then dead-end
    /// filling — until neither finds anything left to do.
    ///
    /// Only empty cells are ever changed, and only into walls.  The
    /// surviving balls are a subsequence of the old ones with positions
    /// and push counts untouched; every dropped ball was wedged in a wall
    /// corner and its cell became terrain.  The result is a joint fixpoint
    /// of both passes, so the simplifier is idempotent: a board and state
    /// that are already simplified come back unchanged, and in particular
    /// a second run right after a first one changes nothing.
    pub fn simplify(&mut self, state: &mut State)
        requires
            old(self)@.wf(),
            old(state)@.wf(),
        ensures
            final(self)@.wf(),
            board_shrunk(old(self)@, final(self)@),
            state_shrunk(old(state)@, final(state)@),
            balls_reduced(
                ball_pairs(old(state)@),
                ball_pairs(final(state)@),
                final(self)@.cells,
            ),
            balls_fixpoint(final(self)@, final(state)@),
            deadend_fixpoint(final(self)@),
            balls_fixpoint(old(self)@, old(state)@) && deadend_fixpoint(old(self)@)
                ==> final(self)@ == old(self)@ && final(state)@ == old(state)@,
    {
        let ghost b0 = self@;
        let ghost s0 = state@;
        proof {
            lemma_balls_reduced_refl(ball_pairs(s0), self@.cells);
        }
        let mut done = false;
        while !done
            invariant
                self@.wf(),
                state@.wf(),
                board_shrunk(b0, self@),
                state_shrunk(s0, state@),
                balls_reduced(ball_pairs(s0), ball_pairs(state@), self@.cells),
                done ==> balls_fixpoint(self@, state@) && deadend_fixpoint(self@),
                balls_fixpoint(b0, s0) && deadend_fixpoint(b0) ==> self@ == b0 && state@ == s0,
            decreases count_empty(self@.cells) + state@.balls.len() + (if done {
                0int
            } else {
                1int
            }),
        {
            let ghost cells_before = self@.cells;
            let ghost pairs_before = ball_pairs(state@);
            let c1 = self.simplify_balls(state);
            let ghost cells_mid = self@.cells;
            let c2 = self.simplify_deadend();
            if !c1 && !c2 {
                done = true;
            }
            proof {
                if c1 || c2 {
                    lemma_count_empty_shrunk(cells_before, self@.cells);
                }
                // carry the accumulated ball reduction: walls only grow
                lemma_balls_reduced_mono(
                    ball_pairs(s0),
                    pairs_before,
                    cells_before,
                    cells_mid,
                );
                lemma_balls_reduced_trans(
                    ball_pairs(s0),
                    pairs_before,
                    ball_pairs(state@),
                    cells_mid,
                );
                lemma_balls_reduced_mono(
                    ball_pairs(s0),
                    ball_pairs(state@),
                    cells_mid,
                    self@.cells,
                );
            }
        }
    }
}

/// A board that only gained walls has at most as many empty cells.
proof fn lemma_count_empty_shrunk(a: Seq<Cell>, b: Seq<Cell>)
    requires
        a.len() == b.len(),
        forall|i: int| 0 <= i < a.len() ==> (#[trigger] b[i]) == a[i] || b[i] == Cell::Wall,
    ensures
        count_empty(b) <= count_empty(a),
    decreases a.len(),
{
    if a.len() > 0 {
        assert(b.drop_first() =~= b.subrange(1, b.len() as int));
        assert(forall|i: int|
            0 <= i < a.drop_first().len() ==> (#[trigger] b.drop_first()[i]) == a.drop_first()[i]
                || b.drop_first()[i] == Cell::Wall);
        lemma_count_empty_shrunk(a.drop_first(), b.drop_first());
    }
}

} // verus!
