//! Connectivity precomputation: for every ordered pair of portal cells
//! (start, target, registered switches and gates) a breadth-first search
//! over the plain grid finds a move string connecting them, treating
//! obstacles as immovable and every other classified cell as a barrier
//! that may be arrived at but not crossed.  Absence of an edge means "no
//! direct connection under this obstacle snapshot", not an error.
use vstd::prelude::*;

use std::collections::VecDeque;

use crate::bfs::{can_step, dir_char, dir_delta, dir_ok, slot_char, step_index};
use crate::board::{Board, BoardModel, Cell, GRID_CELLS, ID_CAP};
use crate::state::State;
use crate::strutil::string_push;

verus! {

/// A cell the plain-grid walk may pass through: empty and free of balls.
pub open spec fn plain_free(b: BoardModel, balls: Seq<usize>, p: usize) -> bool {
    &&& b.cells[p as int] == Cell::Empty
    &&& !balls.contains(p)
}

/// A cell the plain-grid walk may end on: a free empty cell, or a
/// classified switch or gate cell.
pub open spec fn plain_enterable(b: BoardModel, balls: Seq<usize>, p: usize) -> bool {
    ||| plain_free(b, balls, p)
    ||| b.cells[p as int] is Switch
    ||| b.cells[p as int] is MagneticField
}

/// The end cell of walking `path` from `from` across the plain grid:
/// every intermediate cell must be free, the final cell enterable;
/// `None` when the walk is not admissible.
pub open spec fn plain_walk(b: BoardModel, balls: Seq<usize>, from: usize, path: Seq<char>) -> Option<
    usize,
>
    decreases path.len(),
{
    if path.len() == 0 {
        Some(from)
    } else if dir_ok(from, path[0]) {
        let ni = (from + dir_delta(path[0])) as usize;
        if path.len() == 1 {
            if plain_enterable(b, balls, ni) {
                Some(ni)
            } else {
                None
            }
        } else if plain_free(b, balls, ni) {
            plain_walk(b, balls, ni, path.drop_first())
        } else {
            None
        }
    } else {
        None
    }
}

/// Extending an admissible walk by one move: the old end must be free (or
/// the walk still empty), the move on-grid, the new end enterable.
pub proof fn lemma_plain_walk_snoc(
    b: BoardModel,
    balls: Seq<usize>,
    from: usize,
    path: Seq<char>,
    pos: usize,
    c: char,
)
    requires
        plain_walk(b, balls, from, path) == Some(pos),
        path.len() == 0 ==> pos == from,
        path.len() >= 1 ==> plain_free(b, balls, pos),
        dir_ok(pos, c),
        plain_enterable(b, balls, (pos + dir_delta(c)) as usize),
    ensures
        plain_walk(b, balls, from, path.push(c)) == Some((pos + dir_delta(c)) as usize),
    decreases path.len(),
{
    if path.len() == 0 {
        assert(path.push(c)[0] == c);
    } else {
        assert(path.push(c)[0] == path[0]);
        assert(path.push(c).drop_first() =~= path.drop_first().push(c));
        let n0 = (from + dir_delta(path[0])) as usize;
        if path.len() == 1 {
            assert(n0 == pos);
            assert(path.drop_first().len() == 0);
            lemma_plain_walk_snoc(b, balls, n0, path.drop_first(), pos, c);
        } else {
            lemma_plain_walk_snoc(b, balls, n0, path.drop_first(), pos, c);
        }
    }
}

/// A portal: the start, the target, or a registered (non-sentinel) switch
/// or gate position.
pub open spec fn is_portal(b: BoardModel, p: usize) -> bool {
    ||| p == b.start
    ||| p == b.target
    ||| (exists|i: int| 0 <= i < b.switches.len() && b.switches[i] == p && p != 0)
    ||| (exists|i: int| 0 <= i < b.gates.len() && b.gates[i] == p && p != 0)
}

/// One precomputed connection: walking `path` from portal `from` across
/// the plain grid ends on portal `to`.
pub struct Edge {
    pub from: usize,
    pub to: usize,
    pub path: String,
}

/// An edge records an admissible, non-empty plain-grid walk between two
/// distinct portals.
pub open spec fn edge_sound(e: Edge, b: BoardModel, balls: Seq<usize>) -> bool {
    &&& e.from != e.to
    &&& e.path@.len() >= 1
    &&& is_portal(b, e.from)
    &&& is_portal(b, e.to)
    &&& plain_walk(b, balls, e.from, e.path@) == Some(e.to)
}

/// The sparse direct-distance graph over portal cells.
pub struct PortalGraph {
    pub edges: Vec<Edge>,
}

/// Every recorded edge is an admissible plain-grid walk between two
/// distinct portals of `b`, under the obstacle snapshot `balls`.
pub open spec fn graph_sound(g: PortalGraph, b: BoardModel, balls: Seq<usize>) -> bool {
    forall|k: int| 0 <= k < g.edges@.len() ==> edge_sound(#[trigger] g.edges@[k], b, balls)
}

impl PortalGraph {
    /// The move string of the first recorded edge from `from` to `to`, or
    /// `None` when no such edge exists.
    pub fn get(&self, from: usize, to: usize) -> (r: Option<&String>)
        ensures
            (match r {
                Some(s) => exists|k: int|
                    0 <= k < self.edges@.len() && (#[trigger] self.edges@[k]).from == from
                        && self.edges@[k].to == to && self.edges@[k].path@ == s@,
                None => forall|k: int|
                    0 <= k < self.edges@.len() ==> !((#[trigger] self.edges@[k]).from == from
                        && self.edges@[k].to == to),
            }),
    {
        let n = self.edges.len();
        for k in 0..n
            invariant
                n == self.edges@.len(),
                forall|j: int|
                    0 <= j < k ==> !((#[trigger] self.edges@[j]).from == from
                        && self.edges@[j].to == to),
        {
            if self.edges[k].from == from && self.edges[k].to == to {
                return Some(&self.edges[k].path);
            }
        }
        None
    }
}

/// The portal cells of `board`: exactly the start, the target, and every
/// registered on-grid switch and gate position other than the unused
/// sentinel 0, each once.
pub fn portals(board: &Board) -> (v: Vec<usize>)
    requires
        board@.wf(),
    ensures
        forall|k: int|
            0 <= k < v@.len() ==> is_portal(board@, #[trigger] v@[k]) && v@[k] < GRID_CELLS,
        forall|p: usize| is_portal(board@, p) && p < GRID_CELLS ==> v@.contains(p),
        forall|k1: int, k2: int| 0 <= k1 < k2 < v@.len() ==> v@[k1] != v@[k2],
{
    let mut v: Vec<usize> = Vec::new();
    let ghost b = board@;
    v.push(board.get_start());
    proof {
        assert(v@[0] == b.start);
        assert(v@.contains(b.start));
    }
    if !contains_pos(&v, board.get_target()) {
        v.push(board.get_target());
        proof {
            assert(v@[0] == b.start);
            assert(v@[1] == b.target);
            assert(v@.contains(b.start));
            assert(v@.contains(b.target));
        }
    }
    for i in 0..ID_CAP
        invariant
            board@.wf(),
            b == board@,
            forall|k: int|
                0 <= k < v@.len() ==> is_portal(board@, #[trigger] v@[k]) && v@[k]
                    < GRID_CELLS,
            forall|k1: int, k2: int| 0 <= k1 < k2 < v@.len() ==> v@[k1] != v@[k2],
            v@.contains(b.start),
            v@.contains(b.target),
            forall|j: int|
                0 <= j < i && b.switches[j] != 0 && b.switches[j] < GRID_CELLS
                    ==> v@.contains(#[trigger] b.switches[j]),
            forall|j: int|
                0 <= j < i && b.gates[j] != 0 && b.gates[j] < GRID_CELLS ==> v@.contains(
                    #[trigger] b.gates[j],
                ),
    {
        let p = board.get_switch_pos(i);
        if p != 0 && p < GRID_CELLS && !contains_pos(&v, p) {
            proof {
                lemma_contains_after_push(v@, p);
            }
            v.push(p);
        }
        let q = board.get_gate_pos(i);
        if q != 0 && q < GRID_CELLS && !contains_pos(&v, q) {
            proof {
                lemma_contains_after_push(v@, q);
            }
            v.push(q);
        }
    }
    proof {
        assert forall|p: usize| is_portal(board@, p) && p < GRID_CELLS implies v@.contains(
            p,
        ) by {
            if p != b.start && p != b.target {
                if exists|j: int| 0 <= j < b.switches.len() && b.switches[j] == p && p != 0 {
                    let j = choose|j: int|
                        0 <= j < b.switches.len() && b.switches[j] == p && p != 0;
                    assert(v@.contains(b.switches[j]));
                } else {
                    let j = choose|j: int|
                        0 <= j < b.gates.len() && b.gates[j] == p && p != 0;
                    assert(v@.contains(b.gates[j]));
                }
            }
        }
    }
    v
}

/// Pushing keeps every held value held and adds the new one.
proof fn lemma_contains_after_push(v: Seq<usize>, p: usize)
    ensures
        v.push(p).contains(p),
        forall|x: usize| v.contains(x) ==> v.push(p).contains(x),
{
    assert(v.push(p)[v.len() as int] == p);
    assert forall|x: usize| v.contains(x) implies v.push(p).contains(x) by {
        let w = choose|w: int| 0 <= w < v.len() && v[w] == x;
        assert(v.push(p)[w] == x);
    }
}

/// Whether `v` already holds `p`.
fn contains_pos(v: &Vec<usize>, p: usize) -> (r: bool)
    ensures
        r == v@.contains(p),
{
    let n = v.len();
    for i in 0..n
        invariant
            n == v@.len(),
            forall|j: int| 0 <= j < i ==> v@[j] != p,
    {
        if v[i] == p {
            return true;
        }
    }
    proof {
        if v@.contains(p) {
            let w = choose|w: int| 0 <= w < v@.len() && v@[w] == p;
            assert(false);
        }
    }
    false
}

/// A node of the plain-grid search: an admissible walk from the seed
/// portal ending at `.0`, which is free unless the walk is still empty.
pub open spec fn qnode_ok(
    b: BoardModel,
    balls: Seq<usize>,
    seed: usize,
    node: (usize, String),
) -> bool {
    &&& node.0 < GRID_CELLS
    &&& plain_walk(b, balls, seed, node.1@) == Some(node.0)
    &&& (node.1@.len() == 0 ==> node.0 == seed)
    &&& (node.1@.len() >= 1 ==> plain_free(b, balls, node.0))
}

/// A recorded path: an admissible walk from the seed to the cell it is
/// stored under, non-empty except at the seed itself.
pub open spec fn paths_ok(
    b: BoardModel,
    balls: Seq<usize>,
    seed: usize,
    paths: Seq<Option<String>>,
) -> bool {
    forall|c: int|
        0 <= c < paths.len() ==> (match #[trigger] paths[c] {
            Some(s) => plain_walk(b, balls, seed, s@) == Some(c as usize) && (c != seed
                ==> s@.len() >= 1),
            None => true,
        })
}

/// Number of cells not yet recorded by the plain-grid search.
pub open spec fn none_count(paths: Seq<Option<String>>) -> nat
    decreases paths.len(),
{
    if paths.len() == 0 {
        0
    } else {
        (if paths[0] is None {
            1nat
        } else {
            0nat
        }) + none_count(paths.drop_first())
    }
}

/// Recording one more cell shrinks the unrecorded count by one.
proof fn lemma_none_count_update(paths: Seq<Option<String>>, i: int, s: String)
    requires
        0 <= i < paths.len(),
        paths[i] is None,
    ensures
        none_count(paths.update(i, Some(s))) + 1 == none_count(paths),
    decreases paths.len(),
{
    let upd = paths.update(i, Some(s));
    if i == 0 {
        assert(upd.drop_first() =~= paths.drop_first());
    } else {
        assert(upd[0] == paths[0]);
        assert(upd.drop_first() =~= paths.drop_first().update(i - 1, Some(s)));
        lemma_none_count_update(paths.drop_first(), i - 1, s);
    }
}

/// A fully unrecorded table counts every cell.
proof fn lemma_none_count_all(paths: Seq<Option<String>>)
    requires
        forall|c: int| 0 <= c < paths.len() ==> (#[trigger] paths[c]) is None,
    ensures
        none_count(paths) == paths.len(),
    decreases paths.len(),
{
    if paths.len() > 0 {
        assert(forall|c: int|
            0 <= c < paths.drop_first().len() ==> paths.drop_first()[c] == #[trigger] paths[c
                + 1]);
        lemma_none_count_all(paths.drop_first());
    }
}

/// Every enterable neighbour of `p` is recorded.
pub open spec fn neighbors_recorded(
    b: BoardModel,
    balls: Seq<usize>,
    paths: Seq<Option<String>>,
    p: usize,
) -> bool {
    forall|c: char|
        #![trigger dir_ok(p, c)]
        dir_ok(p, c) && plain_enterable(b, balls, ((p + dir_delta(c)) as usize)) ==> paths[((p
            + dir_delta(c)) as usize) as int] is Some
}

/// Every recorded cell the walk may continue from is either still queued
/// for expansion or has all its enterable neighbours recorded.
pub open spec fn bfs_frontier_ok(
    b: BoardModel,
    balls: Seq<usize>,
    seed: usize,
    paths: Seq<Option<String>>,
    queue: Seq<(usize, String)>,
) -> bool {
    forall|p: usize|
        #![trigger paths[p as int]]
        p < paths.len() && paths[p as int] is Some && (p == seed || plain_free(b, balls, p))
            ==> (exists|k: int| 0 <= k < queue.len() && (#[trigger] queue[k]).0 == p)
            || neighbors_recorded(b, balls, paths, p)
}

/// Recording more cells never unrecords a neighbour.
proof fn lemma_neighbors_recorded_mono(
    b: BoardModel,
    balls: Seq<usize>,
    paths1: Seq<Option<String>>,
    paths2: Seq<Option<String>>,
    p: usize,
)
    requires
        paths1.len() == paths2.len(),
        forall|i: int| 0 <= i < paths1.len() && (#[trigger] paths1[i]) is Some ==> paths2[i]
            is Some,
        neighbors_recorded(b, balls, paths1, p),
        p < paths1.len(),
        paths1.len() == GRID_CELLS,
    ensures
        neighbors_recorded(b, balls, paths2, p),
{
    assert forall|c: char|
        #![trigger dir_ok(p, c)]
        dir_ok(p, c) && plain_enterable(b, balls, ((p + dir_delta(c)) as usize)) implies paths2[((
    p + dir_delta(c)) as usize) as int] is Some by {
        assert(paths1[((p + dir_delta(c)) as usize) as int] is Some);
    }
}

/// Popping the front node keeps the frontier claim for every other cell.
proof fn lemma_frontier_after_pop(
    b: BoardModel,
    balls: Seq<usize>,
    seed: usize,
    paths: Seq<Option<String>>,
    q0: Seq<(usize, String)>,
    pos: usize,
)
    requires
        bfs_frontier_ok(b, balls, seed, paths, q0),
        q0.len() >= 1,
        q0[0].0 == pos,
    ensures
        forall|p: usize|
            #![trigger paths[p as int]]
            p < paths.len() && paths[p as int] is Some && (p == seed || plain_free(
                b,
                balls,
                p,
            )) && p != pos ==> (exists|k: int|
                0 <= k < q0.subrange(1, q0.len() as int).len() && (#[trigger] q0.subrange(
                    1,
                    q0.len() as int,
                )[k]).0 == p) || neighbors_recorded(b, balls, paths, p),
{
    let rest = q0.subrange(1, q0.len() as int);
    assert forall|p: usize|
        #![trigger paths[p as int]]
        p < paths.len() && paths[p as int] is Some && (p == seed || plain_free(b, balls, p))
            && p != pos implies (exists|k: int|
            0 <= k < rest.len() && (#[trigger] rest[k]).0 == p) || neighbors_recorded(
            b,
            balls,
            paths,
            p,
        ) by {
        if !neighbors_recorded(b, balls, paths, p) {
            let k = choose|k: int| 0 <= k < q0.len() && (#[trigger] q0[k]).0 == p;
            assert(k >= 1);
            assert(rest[k - 1].0 == p);
        }
    }
}

/// Recording one fresh cell (queued when it is free) keeps the frontier
/// claim for every cell but the one being expanded.
proof fn lemma_frontier_after_record(
    b: BoardModel,
    balls: Seq<usize>,
    seed: usize,
    paths1: Seq<Option<String>>,
    paths2: Seq<Option<String>>,
    q1: Seq<(usize, String)>,
    q2: Seq<(usize, String)>,
    pos: usize,
    ni: usize,
)
    requires
        paths1.len() == GRID_CELLS,
        paths2.len() == GRID_CELLS,
        ni < GRID_CELLS,
        paths1[ni as int] is None,
        paths2[ni as int] is Some,
        forall|i: int| 0 <= i < paths1.len() && i != ni ==> paths2[i] == paths1[i],
        forall|k: int| 0 <= k < q1.len() ==> q2[k] == #[trigger] q1[k],
        q1.len() <= q2.len(),
        plain_free(b, balls, ni) ==> (exists|k: int|
            0 <= k < q2.len() && (#[trigger] q2[k]).0 == ni),
        forall|p: usize|
            #![trigger paths1[p as int]]
            p < paths1.len() && paths1[p as int] is Some && (p == seed || plain_free(
                b,
                balls,
                p,
            )) && p != pos ==> (exists|k: int|
                0 <= k < q1.len() && (#[trigger] q1[k]).0 == p) || neighbors_recorded(
                b,
                balls,
                paths1,
                p,
            ),
        paths1[seed as int] is Some,
    ensures
        forall|p: usize|
            #![trigger paths2[p as int]]
            p < paths2.len() && paths2[p as int] is Some && (p == seed || plain_free(
                b,
                balls,
                p,
            )) && p != pos ==> (exists|k: int|
                0 <= k < q2.len() && (#[trigger] q2[k]).0 == p) || neighbors_recorded(
                b,
                balls,
                paths2,
                p,
            ),
{
    assert(ni != seed);
    assert forall|p: usize|
        #![trigger paths2[p as int]]
        p < paths2.len() && paths2[p as int] is Some && (p == seed || plain_free(b, balls, p))
            && p != pos implies (exists|k: int|
            0 <= k < q2.len() && (#[trigger] q2[k]).0 == p) || neighbors_recorded(
            b,
            balls,
            paths2,
            p,
        ) by {
        if p == ni {
            assert(plain_free(b, balls, ni));
        } else {
            assert(paths1[p as int] is Some);
            if !neighbors_recorded(b, balls, paths1, p) {
                let k = choose|k: int| 0 <= k < q1.len() && (#[trigger] q1[k]).0 == p;
                assert(q2[k].0 == p);
            } else {
                assert(forall|i: int|
                    0 <= i < paths1.len() && (#[trigger] paths1[i]) is Some ==> paths2[i]
                        is Some);
                lemma_neighbors_recorded_mono(b, balls, paths1, paths2, p);
            }
        }
    }
}

/// With nothing left to expand, the recorded cells are closed under the
/// plain-grid walk: any admissible walk from a recorded, expandable cell
/// ends on a recorded cell.
proof fn lemma_walk_recorded(
    b: BoardModel,
    balls: Seq<usize>,
    seed: usize,
    paths: Seq<Option<String>>,
    from: usize,
    w: Seq<char>,
    to: usize,
)
    requires
        paths.len() == GRID_CELLS,
        forall|p: usize|
            #![trigger paths[p as int]]
            p < paths.len() && paths[p as int] is Some && (p == seed || plain_free(
                b,
                balls,
                p,
            )) ==> neighbors_recorded(b, balls, paths, p),
        from < GRID_CELLS,
        paths[from as int] is Some,
        from == seed || plain_free(b, balls, from),
        plain_walk(b, balls, from, w) == Some(to),
    ensures
        to < GRID_CELLS,
        paths[to as int] is Some,
    decreases w.len(),
{
    if w.len() == 0 {
        assert(to == from);
    } else {
        let c0 = w[0];
        assert(dir_ok(from, c0));
        let ni = ((from + dir_delta(c0)) as usize);
        assert(ni < GRID_CELLS);
        assert(neighbors_recorded(b, balls, paths, from));
        if w.len() == 1 {
            assert(plain_enterable(b, balls, ni));
            assert(paths[ni as int] is Some);
            assert(to == ni);
        } else {
            assert(plain_free(b, balls, ni));
            assert(plain_enterable(b, balls, ni));
            assert(paths[ni as int] is Some);
            lemma_walk_recorded(b, balls, seed, paths, ni, w.drop_first(), to);
        }
    }
}

/// From `seed`, every other portal an admissible plain-grid walk reaches
/// has a recorded edge.
pub open spec fn seed_connected(
    b: BoardModel,
    balls: Seq<usize>,
    seed: usize,
    edges: Seq<Edge>,
) -> bool {
    forall|q: usize, w: Seq<char>|
        #![trigger plain_walk(b, balls, seed, w), is_portal(b, q)]
        is_portal(b, q) && q < GRID_CELLS && q != seed && w.len() >= 1 && plain_walk(
            b,
            balls,
            seed,
            w,
        ) == Some(q) ==> exists|k: int|
            0 <= k < edges.len() && (#[trigger] edges[k]).from == seed && edges[k].to == q
}

/// Appending an edge keeps every established seed connection.
proof fn lemma_seed_connected_push(
    b: BoardModel,
    balls: Seq<usize>,
    seed: usize,
    edges: Seq<Edge>,
    e: Edge,
)
    requires
        seed_connected(b, balls, seed, edges),
    ensures
        seed_connected(b, balls, seed, edges.push(e)),
{
    assert forall|q: usize, w: Seq<char>|
        #![trigger plain_walk(b, balls, seed, w), is_portal(b, q)]
        is_portal(b, q) && q < GRID_CELLS && q != seed && w.len() >= 1 && plain_walk(
            b,
            balls,
            seed,
            w,
        ) == Some(q) implies exists|k: int|
        0 <= k < edges.push(e).len() && (#[trigger] edges.push(e)[k]).from == seed
            && edges.push(e)[k].to == q by {
        let k = choose|k: int|
            0 <= k < edges.len() && (#[trigger] edges[k]).from == seed && edges[k].to == q;
        assert(edges.push(e)[k] == edges[k]);
    }
}

/// Builds the portal graph for `board` under the obstacle snapshot of
/// `state`: for every ordered pair of distinct portals, a breadth-first
/// search across free empty cells records the first-found move string;
/// pairs without a connection get no entry.  The graph is complete: any
/// ordered pair of distinct portals joined by an admissible plain-grid
/// walk has an edge.
pub fn precompute(board: &Board, state: &State) -> (g: PortalGraph)
    requires
        board@.wf(),
    ensures
        graph_sound(g, board@, state@.balls),
        forall|p: usize, q: usize, w: Seq<char>|
            #![trigger plain_walk(board@, state@.balls, p, w), is_portal(board@, q)]
            is_portal(board@, p) && is_portal(board@, q) && p < GRID_CELLS && q < GRID_CELLS
                && p != q && w.len() >= 1 && plain_walk(board@, state@.balls, p, w) == Some(q)
                ==> exists|k: int|
                0 <= k < g.edges@.len() && (#[trigger] g.edges@[k]).from == p
                    && g.edges@[k].to == q,
{
    let ghost b = board@;
    let ghost balls = state@.balls;
    let ports = portals(board);
    let mut g = PortalGraph { edges: Vec::new() };

    let np = ports.len();
    for pi in 0..np
        invariant
            board@.wf(),
            b == board@,
            balls == state@.balls,
            np == ports@.len(),
            forall|k: int|
                0 <= k < ports@.len() ==> is_portal(b, #[trigger] ports@[k]) && ports@[k]
                    < GRID_CELLS,
            forall|p: usize| is_portal(b, p) && p < GRID_CELLS ==> ports@.contains(p),
            graph_sound(g, b, balls),
            forall|j: int|
                0 <= j < pi ==> seed_connected(b, balls, #[trigger] ports@[j], g.edges@),
    {
        let seed = ports[pi];

        // first-found path to every reachable cell, from this seed
        let mut paths: Vec<Option<String>> = Vec::new();
        for k in 0..GRID_CELLS
            invariant
                paths@.len() == k,
                forall|c: int| 0 <= c < k ==> (#[trigger] paths@[c]) is None,
        {
            paths.push(None);
        }
        let ghost pre = paths@;
        paths[seed] = Some(String::new());
        proof {
            lemma_none_count_all(pre);
            match paths@[seed as int] {
                Some(s0) => {
                    lemma_none_count_update(pre, seed as int, s0);
                },
                None => {
                    assert(false);
                },
            }
        }

        let mut queue: VecDeque<(usize, String)> = VecDeque::new();
        queue.push_back((seed, String::new()));
        proof {
            assert(queue@[0].0 == seed);
            assert forall|p: usize|
                #![trigger paths@[p as int]]
                p < paths@.len() && paths@[p as int] is Some && (p == seed || plain_free(
                    b,
                    balls,
                    p,
                )) implies (exists|k: int|
                0 <= k < queue@.len() && (#[trigger] queue@[k]).0 == p) || neighbors_recorded(
                b,
                balls,
                paths@,
                p,
            ) by {
                if p == seed {
                    assert(queue@[0].0 == p);
                } else {
                    assert(paths@[p as int] == pre[p as int]);
                }
            }
        }

        let mut fuel: usize = 4 * GRID_CELLS;
        while fuel > 0 && queue.len() > 0
            invariant
                board@.wf(),
                b == board@,
                balls == state@.balls,
                seed < GRID_CELLS,
                paths@.len() == GRID_CELLS,
                paths@[seed as int] is Some,
                paths_ok(b, balls, seed, paths@),
                fuel as int >= queue@.len() + none_count(paths@),
                bfs_frontier_ok(b, balls, seed, paths@, queue@),
                forall|k: int|
                    0 <= k < queue@.len() ==> qnode_ok(b, balls, seed, #[trigger] queue@[k]),
            decreases fuel,
        {
            fuel = fuel - 1;
            let ghost q0 = queue@;
            match queue.pop_front() {
                None => {
                    // unreachable: the loop condition has the queue non-empty
                    proof {
                        assert(false);
                    }
                },
                Some(node) => {
                    let (pos, path) = node;
                    let ghost budget = queue@.len() + none_count(paths@);
                    proof {
                        lemma_frontier_after_pop(b, balls, seed, paths@, q0, pos);
                        assert(queue@ =~= q0.subrange(1, q0.len() as int));
                    }
                    for d in 0..4usize
                        invariant
                            board@.wf(),
                            b == board@,
                            balls == state@.balls,
                            seed < GRID_CELLS,
                            paths@.len() == GRID_CELLS,
                            paths@[seed as int] is Some,
                            paths_ok(b, balls, seed, paths@),
                            qnode_ok(b, balls, seed, (pos, path)),
                            queue@.len() + none_count(paths@) <= budget,
                            forall|k: int|
                                0 <= k < queue@.len() ==> qnode_ok(
                                    b,
                                    balls,
                                    seed,
                                    #[trigger] queue@[k],
                                ),
                            forall|p: usize|
                                #![trigger paths@[p as int]]
                                p < paths@.len() && paths@[p as int] is Some && (p == seed
                                    || plain_free(b, balls, p)) && p != pos ==> (exists|k: int|
                                    0 <= k < queue@.len() && (#[trigger] queue@[k]).0 == p)
                                    || neighbors_recorded(b, balls, paths@, p),
                            forall|dd: int|
                                #![trigger slot_char(dd)]
                                0 <= dd < d ==> (dir_ok(pos, slot_char(dd)) && plain_enterable(
                                    b,
                                    balls,
                                    ((pos + dir_delta(slot_char(dd))) as usize),
                                ) ==> paths@[((pos + dir_delta(slot_char(dd))) as usize) as int]
                                    is Some),
                    {
                        let c = dir_char(d);
                        if can_step(pos, c) {
                            let ni = step_index(pos, c);
                            let enterable = match *board.get_cell(ni) {
                                Cell::Wall => false,
                                Cell::Empty => !state.is_garbage_ball(ni),
                                Cell::Switch(_) => true,
                                Cell::MagneticField(_) => true,
                            };
                            proof {
                                assert(enterable == plain_enterable(b, balls, ni));
                            }
                            if enterable && paths[ni].is_none() {
                                let ghost paths1 = paths@;
                                let ghost q1 = queue@;
                                let mut newpath = path.clone();
                                string_push(&mut newpath, c);
                                proof {
                                    lemma_plain_walk_snoc(b, balls, seed, path@, pos, c);
                                    lemma_none_count_update(paths@, ni as int, newpath);
                                }
                                let free = match *board.get_cell(ni) {
                                    Cell::Empty => !state.is_garbage_ball(ni),
                                    _ => false,
                                };
                                if free {
                                    queue.push_back((ni, newpath.clone()));
                                }
                                paths[ni] = Some(newpath);
                                proof {
                                    if free {
                                        assert(queue@[queue@.len() - 1].0 == ni);
                                    }
                                    assert(free == plain_free(b, balls, ni));
                                    lemma_frontier_after_record(
                                        b,
                                        balls,
                                        seed,
                                        paths1,
                                        paths@,
                                        q1,
                                        queue@,
                                        pos,
                                        ni,
                                    );
                                }
                            }
                        }
                    }
                    proof {
                        assert(neighbors_recorded(b, balls, paths@, pos)) by {
                            assert forall|c: char|
                                #![trigger dir_ok(pos, c)]
                                dir_ok(pos, c) && plain_enterable(
                                    b,
                                    balls,
                                    ((pos + dir_delta(c)) as usize),
                                ) implies paths@[((pos + dir_delta(c)) as usize) as int]
                                is Some by {
                                if c == 'L' {
                                    assert(slot_char(0) == c);
                                } else if c == 'R' {
                                    assert(slot_char(1) == c);
                                } else if c == 'U' {
                                    assert(slot_char(2) == c);
                                } else {
                                    assert(slot_char(3) == c);
                                }
                            }
                        }
                    }
                },
            }
        }
        proof {
            assert(queue@.len() == 0);
        }

        // record an edge for every other portal this seed reaches
        let qn = ports.len();
        for qi in 0..qn
            invariant
                b == board@,
                balls == state@.balls,
                np == ports@.len(),
                qn == ports@.len(),
                seed < GRID_CELLS,
                seed == ports@[pi as int],
                pi < np,
                is_portal(b, seed),
                paths@.len() == GRID_CELLS,
                paths_ok(b, balls, seed, paths@),
                paths@[seed as int] is Some,
                bfs_frontier_ok(b, balls, seed, paths@, Seq::<(usize, String)>::empty()),
                forall|k: int|
                    0 <= k < ports@.len() ==> is_portal(b, #[trigger] ports@[k]) && ports@[k]
                        < GRID_CELLS,
                forall|p: usize| is_portal(b, p) && p < GRID_CELLS ==> ports@.contains(p),
                graph_sound(g, b, balls),
                forall|j: int|
                    0 <= j < pi ==> seed_connected(b, balls, #[trigger] ports@[j], g.edges@),
                forall|j: int|
                    0 <= j < qi && ports@[j] != seed && (#[trigger] paths@[ports@[j] as int])
                        is Some ==> (exists|k: int|
                        0 <= k < g.edges@.len() && (#[trigger] g.edges@[k]).from == seed
                            && g.edges@[k].to == ports@[j]),
        {
            let q = ports[qi];
            if q != seed {
                match &paths[q] {
                    None => {},
                    Some(sp) => {
                        let e = Edge { from: seed, to: q, path: sp.clone() };
                        proof {
                            assert(edge_sound(e, b, balls));
                            let ghost old_edges = g.edges@;
                            assert forall|j: int|
                                0 <= j < pi implies seed_connected(
                                b,
                                balls,
                                #[trigger] ports@[j],
                                old_edges.push(e),
                            ) by {
                                lemma_seed_connected_push(b, balls, ports@[j], old_edges, e);
                            }
                        }
                        let ghost pre_edges = g.edges@;
                        g.edges.push(e);
                        proof {
                            assert(g.edges@[g.edges@.len() - 1].to == q);
                            assert forall|j: int|
                                0 <= j < qi && ports@[j] != seed && (#[trigger] paths@[ports@[j]
                                    as int]) is Some implies (exists|k: int|
                                0 <= k < g.edges@.len() && (#[trigger] g.edges@[k]).from == seed
                                    && g.edges@[k].to == ports@[j]) by {
                                let k = choose|k: int|
                                    0 <= k < pre_edges.len() && (#[trigger] pre_edges[k]).from
                                        == seed && pre_edges[k].to == ports@[j];
                                assert(g.edges@[k] == pre_edges[k]);
                            }
                        }
                    },
                }
            }
        }
        proof {
            assert(seed_connected(b, balls, seed, g.edges@)) by {
                assert forall|q: usize, w: Seq<char>|
                    #![trigger plain_walk(b, balls, seed, w), is_portal(b, q)]
                    is_portal(b, q) && q < GRID_CELLS && q != seed && w.len() >= 1
                        && plain_walk(b, balls, seed, w) == Some(q) implies exists|k: int|
                    0 <= k < g.edges@.len() && (#[trigger] g.edges@[k]).from == seed
                        && g.edges@[k].to == q by {
                    lemma_walk_recorded(b, balls, seed, paths@, seed, w, q);
                    assert(ports@.contains(q));
                    let j = choose|j: int| 0 <= j < ports@.len() && ports@[j] == q;
                    assert(paths@[ports@[j] as int] is Some);
                }
            }
            assert forall|j: int| 0 <= j < pi + 1 implies seed_connected(
                b,
                balls,
                #[trigger] ports@[j],
                g.edges@,
            ) by {}
        }
    }
    proof {
        assert forall|p: usize, q: usize, w: Seq<char>|
            #![trigger plain_walk(board@, state@.balls, p, w), is_portal(board@, q)]
            is_portal(board@, p) && is_portal(board@, q) && p < GRID_CELLS && q < GRID_CELLS
                && p != q && w.len() >= 1 && plain_walk(board@, state@.balls, p, w) == Some(
                q,
            ) implies exists|k: int|
            0 <= k < g.edges@.len() && (#[trigger] g.edges@[k]).from == p && g.edges@[k].to
                == q by {
            assert(ports@.contains(p));
            let j = choose|j: int| 0 <= j < ports@.len() && ports@[j] == p;
            assert(seed_connected(b, balls, ports@[j], g.edges@));
        }
    }
    g
}

} // verus!
