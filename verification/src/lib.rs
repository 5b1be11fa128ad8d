//! Solver for a fixed 21x21 grid puzzle: a token must travel from a start
//! cell to a target cell across a board of walls, toggle switches, switch
//! controlled gates and pushable obstacle balls.  The crate provides the
//! board and search-state model, two board simplification passes, a
//! portal-to-portal connectivity precomputation, a time-bounded search
//! with two move generators (single-cell steps, or jumps along the
//! precomputed portal connections), and a macro-substitution encoder for
//! the resulting move strings.
//!
//! Every move string a search returns replays, move by move from the
//! initial state and under the full gate and push rules, to exactly the
//! returned configuration standing on the target.
use vstd::prelude::*;

pub mod bfs;
pub mod board;
pub mod clock;
pub mod encoder;
pub mod graph;
pub mod state;
pub mod strutil;

verus! {

} // verus!
