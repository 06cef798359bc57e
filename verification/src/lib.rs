//! Exhaustive solver for triangular peg solitaire.
//!
//! A board is a triangular grid of pegs with one initial hole.  A move jumps
//! a peg over an occupied neighbour into an empty cell two steps away and
//! removes the jumped peg.  The solver enumerates every move sequence that
//! ends with exactly one peg on the board, either depth-first on a single
//! thread or by fanning the branches out over a thread pool.

pub mod board;
pub mod menu;
pub mod moves;
pub mod solver;
