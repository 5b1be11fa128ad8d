//! The search state: token position, active-gate bitset, obstacle balls
//! with their push counts, and the accumulated move string, together with
//! the obstacle push protocol.
use vstd::prelude::*;

use crate::board::{Board, BoardModel, Cell, GRID_CELLS};
use crate::strutil::string_push;

verus! {

/// A ball may be pushed at most this many times.
pub const MAX_PUSHES: u8 = 2;

/// Mathematical model of a state, move string included.
#[verifier::ext_equal]
pub struct StateModel {
    pub pos: usize,
    pub fields: u16,
    pub balls: Seq<usize>,
    pub counts: Seq<u8>,
    pub actions: Seq<char>,
}

/// The physical configuration of a state: everything except the
/// accumulated move string.
#[verifier::ext_equal]
pub struct PhysModel {
    pub pos: usize,
    pub fields: u16,
    pub balls: Seq<usize>,
    pub counts: Seq<u8>,
}

impl PhysModel {
    /// Each ball carries exactly one push count.
    pub open spec fn wf(self) -> bool {
        self.balls.len() == self.counts.len()
    }
}

impl StateModel {
    pub open spec fn phys(self) -> PhysModel {
        PhysModel { pos: self.pos, fields: self.fields, balls: self.balls, counts: self.counts }
    }

    pub open spec fn wf(self) -> bool {
        self.phys().wf()
    }
}

/// Gate `id` is active in the bitset `fields`.
pub open spec fn gate_active(fields: u16, id: usize) -> bool {
    fields & (1u16 << id) != 0
}

/// Index of the first ball at position `p`, if any.
pub open spec fn ball_index(balls: Seq<usize>, p: usize) -> Option<int>
    decreases balls.len(),
{
    if balls.len() == 0 {
        None
    } else if balls[0] == p {
        Some(0int)
    } else {
        match ball_index(balls.drop_first(), p) {
            None => None,
            Some(i) => Some(i + 1),
        }
    }
}

/// `ball_index` returns the first index holding `p`, or `None` exactly
/// when no ball is at `p`.
pub proof fn lemma_ball_index_props(balls: Seq<usize>, p: usize)
    ensures
        (match ball_index(balls, p) {
            None => !balls.contains(p),
            Some(i) => {
                &&& 0 <= i < balls.len()
                &&& balls[i] == p
                &&& forall|j: int| 0 <= j < i ==> balls[j] != p
            },
        }),
    decreases balls.len(),
{
    if balls.len() == 0 {
        assert(!balls.contains(p)) by {
            if balls.contains(p) {
                let w = choose|w: int| 0 <= w < balls.len() && balls[w] == p;
            }
        }
    } else if balls[0] == p {
    } else {
        lemma_ball_index_props(balls.drop_first(), p);
        match ball_index(balls.drop_first(), p) {
            None => {
                assert(!balls.contains(p)) by {
                    if balls.contains(p) {
                        let w = choose|w: int| 0 <= w < balls.len() && balls[w] == p;
                        assert(w != 0);
                        assert(balls.drop_first()[w - 1] == p);
                        assert(balls.drop_first().contains(p));
                    }
                }
            },
            Some(i) => {
                assert forall|j: int| 0 <= j < i + 1 implies balls[j] != p by {
                    if j > 0 {
                        assert(balls.drop_first()[j - 1] == balls[j]);
                        assert(balls.drop_first()[j - 1] != p);
                    }
                }
            },
        }
    }
}

/// The cell a ball at `ball` is pushed towards by a pusher at `pos`: one
/// step beyond the ball, by reflection.
pub open spec fn push_target(pos: usize, ball: usize) -> int {
    2 * (ball as int) - (pos as int)
}

/// The pushed ball has already used up its push budget.
pub open spec fn push_exhausted(s: PhysModel, ball_pos: usize) -> bool {
    match ball_index(s.balls, ball_pos) {
        Some(i) => s.counts[i] >= MAX_PUSHES,
        None => false,
    }
}

/// The state after the ball at `from` moves to `to` (its push count
/// incremented); unchanged when no ball is at `from`.
pub open spec fn move_ball_model(s: PhysModel, from: usize, to: usize) -> PhysModel {
    match ball_index(s.balls, from) {
        None => s,
        Some(i) => PhysModel {
            balls: s.balls.update(i, to),
            counts: s.counts.update(i, (s.counts[i] + 1) as u8),
            ..s
        },
    }
}

/// Outcome of pushing the ball at `ball_pos` from the pusher position
/// `s.pos`: `None` when the push is refused (push budget spent, the
/// destination is the board's target, another ball, or a wall), otherwise
/// the state with the ball moved; a ball landing on a switch toggles that
/// switch's gate.  Meaningful when the reflected destination lies on the
/// grid.
pub open spec fn push_outcome(b: BoardModel, s: PhysModel, ball_pos: usize) -> Option<PhysModel> {
    let t = push_target(s.pos, ball_pos);
    if push_exhausted(s, ball_pos) {
        None
    } else if t == b.target {
        None
    } else if s.balls.contains(t as usize) {
        None
    } else {
        match b.cells[t] {
            Cell::Wall => None,
            Cell::Switch(id) => {
                let m = move_ball_model(s, ball_pos, t as usize);
                Some(PhysModel { fields: m.fields ^ (1u16 << id), ..m })
            },
            _ => Some(move_ball_model(s, ball_pos, t as usize)),
        }
    }
}

/// The dedup signature of a state: position, gate bitset and the obstacle
/// position sequence; push counts and the move string do not take part.
pub open spec fn signature(s: PhysModel) -> (usize, u16, Seq<usize>) {
    (s.pos, s.fields, s.balls)
}

/// Dedup soundness: two states agreeing on position, gate bitset and
/// obstacle sequence have equal dedup signatures.
pub proof fn lemma_signature_soundness(a: PhysModel, c: PhysModel)
    requires
        a.pos == c.pos,
        a.fields == c.fields,
        a.balls == c.balls,
    ensures
        signature(a) == signature(c),
{
}

/// Push protocol safety: a successful push never places the moved ball on
/// the board's target, never onto another ball, and never raises a push
/// count above `MAX_PUSHES`.
pub proof fn lemma_push_protocol(b: BoardModel, s: PhysModel, ball_pos: usize)
    requires
        s.wf(),
        0 <= push_target(s.pos, ball_pos) < GRID_CELLS,
        forall|j: int| 0 <= j < s.counts.len() ==> s.counts[j] <= MAX_PUSHES,
    ensures
        (match (push_outcome(b, s, ball_pos), ball_index(s.balls, ball_pos)) {
            (Some(ns), Some(i)) => {
                &&& 0 <= i < ns.balls.len()
                &&& ns.balls[i] != b.target
                &&& forall|j: int| 0 <= j < ns.balls.len() && j != i ==> ns.balls[j] != ns.balls[i]
                &&& forall|j: int| 0 <= j < ns.counts.len() ==> ns.counts[j] <= MAX_PUSHES
            },
            _ => true,
        }),
{
    lemma_ball_index_props(s.balls, ball_pos);
    let t = push_target(s.pos, ball_pos);
    match (push_outcome(b, s, ball_pos), ball_index(s.balls, ball_pos)) {
        (Some(ns), Some(i)) => {
            assert(!s.balls.contains(t as usize));
            assert(t != b.target);
            assert(ns.balls[i] == t as usize);
            assert(0 <= t < GRID_CELLS || true);
            assert(forall|j: int| 0 <= j < ns.balls.len() && j != i ==> ns.balls[j] != ns.balls[i])
                by {
                assert(forall|j: int|
                    0 <= j < s.balls.len() && s.balls[j] == t as usize
                        ==> s.balls.contains(t as usize));
            }
        },
        _ => {},
    }
}

/// A search state: current position, gate bitset, obstacle balls with push
/// counts, and the accumulated move string.
#[derive(Debug)]
pub struct State {
    current_pos: usize,
    garbage_balls: Vec<usize>,
    move_balls: Vec<u8>,
    actions: String,
    magnetic_fields: u16,
}

impl View for State {
    type V = StateModel;

    closed spec fn view(&self) -> StateModel {
        StateModel {
            pos: self.current_pos,
            fields: self.magnetic_fields,
            balls: self.garbage_balls@,
            counts: self.move_balls@,
            actions: self.actions@,
        }
    }
}

/// Element-wise equality of two position vectors.
fn vec_usize_eq(a: &Vec<usize>, b: &Vec<usize>) -> (r: bool)
    ensures
        r == (a@ == b@),
{
    if a.len() != b.len() {
        return false;
    }
    for i in 0..a.len()
        invariant
            a@.len() == b@.len(),
            forall|j: int| 0 <= j < i ==> a@[j] == b@[j],
    {
        if a[i] != b[i] {
            return false;
        }
    }
    proof {
        assert(a@ =~= b@);
    }
    true
}

impl Clone for State {
    /// A structural copy: the clone models the same state.
    fn clone(&self) -> (res: Self)
        ensures
            res@ == self@,
    {
        let res = State {
            current_pos: self.current_pos,
            garbage_balls: self.garbage_balls.clone(),
            actions: self.actions.clone(),
            magnetic_fields: self.magnetic_fields,
            move_balls: self.move_balls.clone(),
        };
        proof {
            assert(res.garbage_balls@ =~= self.garbage_balls@);
            assert(res.move_balls@ =~= self.move_balls@);
            assert(res@ =~= self@);
        }
        res
    }
}

impl PartialEq for State {
    /// Structural state equality: position, gate bitset and the obstacle
    /// sequence; push counts and the move string do not take part.
    fn eq(&self, other: &Self) -> (r: bool) {
        self.current_pos == other.current_pos
            && self.magnetic_fields == other.magnetic_fields
            && vec_usize_eq(&self.garbage_balls, &other.garbage_balls)
    }
}

impl vstd::std_specs::cmp::PartialEqSpecImpl for State {
    open spec fn obeys_eq_spec() -> bool {
        true
    }

    open spec fn eq_spec(&self, other: &State) -> bool {
        signature(self@.phys()) == signature(other@.phys())
    }
}

impl Eq for State {
}

impl State {
    /// A fresh state at `position`: no balls, no moves, all gates inactive.
    pub fn new(position: usize) -> (s: State)
        ensures
            s@ == (StateModel {
                pos: position,
                fields: 0u16,
                balls: Seq::empty(),
                counts: Seq::empty(),
                actions: Seq::empty(),
            }),
            s@.wf(),
    {
        let s = State {
            current_pos: position,
            garbage_balls: Vec::new(),
            actions: String::new(),
            magnetic_fields: 0,
            move_balls: Vec::new(),
        };
        proof {
            assert(s@ =~= (StateModel {
                pos: position,
                fields: 0u16,
                balls: Seq::empty(),
                counts: Seq::empty(),
                actions: Seq::empty(),
            }));
        }
        s
    }

    /// Flips the active bit of gate `idx`.
    pub fn toggle_magnetic_field(&mut self, idx: usize)
        requires
            idx < 16,
        ensures
            final(self)@ == (StateModel {
                fields: old(self)@.fields ^ (1u16 << idx),
                ..old(self)@
            }),
    {
        self.magnetic_fields = self.magnetic_fields ^ (1u16 << idx);
    }

    /// Whether gate `idx` is currently active.
    pub fn is_magnetic_field_on(&self, idx: usize) -> (r: bool)
        requires
            idx < 16,
        ensures
            r == gate_active(self@.fields, idx),
    {
        self.magnetic_fields & (1u16 << idx) != 0
    }

    /// The accumulated move string.
    pub fn get_actions(&self) -> (r: &String)
        ensures
            r@ == self@.actions,
    {
        &self.actions
    }

    /// Appends one direction symbol to the move string.
    pub fn add_actions(&mut self, s: &char)
        ensures
            final(self)@ == (StateModel { actions: old(self)@.actions.push(*s), ..old(self)@ }),
    {
        string_push(&mut self.actions, *s);
    }

    /// The current token position.
    pub fn get_current_pos(&self) -> (r: usize)
        ensures
            r == self@.pos,
    {
        self.current_pos
    }

    /// Moves the token to `idx`.
    pub fn set_current_pos(&mut self, idx: usize)
        ensures
            final(self)@ == (StateModel { pos: idx, ..old(self)@ }),
    {
        self.current_pos = idx;
    }

    /// The obstacle ball positions.
    pub fn get_garbage_balls(&self) -> (r: &Vec<usize>)
        ensures
            r@ == self@.balls,
    {
        &self.garbage_balls
    }

    /// Whether some ball occupies position `idx`.
    pub fn is_garbage_ball(&self, idx: usize) -> (r: bool)
        ensures
            r == self@.balls.contains(idx),
    {
        let n = self.garbage_balls.len();
        for i in 0..n
            invariant
                n == self@.balls.len(),
                forall|j: int| 0 <= j < i ==> self@.balls[j] != idx,
        {
            if self.garbage_balls[i] == idx {
                return true;
            }
        }
        false
    }

    /// Adds a ball at `idx` with a fresh push count.
    pub fn add_garbage_ball(&mut self, idx: usize)
        ensures
            final(self)@ == (StateModel {
                balls: old(self)@.balls.push(idx),
                counts: old(self)@.counts.push(0u8),
                ..old(self)@
            }),
    {
        self.garbage_balls.push(idx);
        self.move_balls.push(0);
    }

    /// Removes the ball stored at vector index `idx`, with its push count.
    pub fn remove_garbage_ball_by_idx(&mut self, idx: usize)
        requires
            old(self)@.wf(),
            idx < old(self)@.balls.len(),
        ensures
            final(self)@ == (StateModel {
                balls: old(self)@.balls.remove(idx as int),
                counts: old(self)@.counts.remove(idx as int),
                ..old(self)@
            }),
    {
        self.garbage_balls.remove(idx);
        self.move_balls.remove(idx);
    }

    /// Index of the ball at position `idx`, if any.
    pub fn get_ball_id(&self, idx: usize) -> (r: Option<usize>)
        ensures
            (match r {
                None => ball_index(self@.balls, idx) == None::<int>,
                Some(i) => ball_index(self@.balls, idx) == Some(i as int),
            }),
    {
        let n = self.garbage_balls.len();
        for i in 0..n
            invariant
                n == self@.balls.len(),
                forall|j: int| 0 <= j < i ==> self@.balls[j] != idx,
        {
            if self.garbage_balls[i] == idx {
                proof {
                    lemma_ball_index_props(self@.balls, idx);
                    assert(self@.balls.contains(idx));
                    match ball_index(self@.balls, idx) {
                        None => {
                            assert(false);
                        },
                        Some(k) => {
                            assert(!(k < i) && !(i < k));
                        },
                    }
                }
                return Some(i);
            }
        }
        proof {
            lemma_ball_index_props(self@.balls, idx);
            if self@.balls.contains(idx) {
                let w = choose|w: int| 0 <= w < self@.balls.len() && self@.balls[w] == idx;
                assert(false);
            }
        }
        None
    }

    /// Moves the ball at position `from_idx` to `to_idx` and increments its
    /// push count; does nothing when no ball is at `from_idx`.
    pub fn move_ball(&mut self, from_idx: usize, to_idx: usize)
        requires
            old(self)@.wf(),
            (match ball_index(old(self)@.balls, from_idx) {
                Some(i) => old(self)@.counts[i] < 255,
                None => true,
            }),
        ensures
            final(self)@.phys() == move_ball_model(old(self)@.phys(), from_idx, to_idx),
            final(self)@.actions == old(self)@.actions,
            final(self)@.wf(),
    {
        proof {
            lemma_ball_index_props(self@.balls, from_idx);
        }
        if let Some(i) = self.get_ball_id(from_idx) {
            self.garbage_balls[i] = to_idx;
            self.move_balls[i] = self.move_balls[i] + 1;
        }
        proof {
            assert(final(self)@.phys() =~= move_ball_model(old(self)@.phys(), from_idx, to_idx));
        }
    }

    /// Attempts to push the ball at `garbage_ball_position` away from the
    /// token; the outcome follows the push protocol exactly.
    pub fn try_push(&self, board: &Board, garbage_ball_position: usize) -> (r: Option<State>)
        requires
            board@.wf(),
            self@.wf(),
            garbage_ball_position < GRID_CELLS,
            self@.pos <= 2 * garbage_ball_position,
            2 * (garbage_ball_position as int) - (self@.pos as int) < GRID_CELLS,
        ensures
            (match r {
                None => push_outcome(board@, self@.phys(), garbage_ball_position)
                    == None::<PhysModel>,
                Some(ns) => {
                    &&& push_outcome(board@, self@.phys(), garbage_ball_position)
                        == Some(ns@.phys())
                    &&& ns@.actions == self@.actions
                    &&& ns@.pos == self@.pos
                    &&& ns@.wf()
                },
            }),
    {
        let target_ball = garbage_ball_position * 2 - self.current_pos;
        proof {
            lemma_ball_index_props(self@.balls, garbage_ball_position);
        }

        // cannot move the ball more than MAX_PUSHES times
        if let Some(ball_id) = self.get_ball_id(garbage_ball_position) {
            if self.move_balls[ball_id] >= MAX_PUSHES {
                return None;
            }
        }

        // cannot push the ball onto the target
        if target_ball == board.get_target() {
            return None;
        }

        // cannot push the ball onto another ball
        if self.is_garbage_ball(target_ball) {
            return None;
        }

        match *board.get_cell(target_ball) {
            Cell::Wall => None,
            Cell::MagneticField(_) => {
                let mut new_state = self.clone();
                new_state.move_ball(garbage_ball_position, target_ball);
                Some(new_state)
            },
            Cell::Empty => {
                let mut new_state = self.clone();
                new_state.move_ball(garbage_ball_position, target_ball);
                Some(new_state)
            },
            Cell::Switch(id) => {
                let mut new_state = self.clone();
                new_state.move_ball(garbage_ball_position, target_ball);
                new_state.toggle_magnetic_field(id);
                Some(new_state)
            },
        }
    }
}

} // verus!
