//! Exhaustive retrograde analysis of the game of awari.
//!
//! The crate computes, for every board of the game and every number of seeds
//! still in play, the score that the player to move can guarantee. Boards are
//! addressed by a dense integer code; the analysis walks the game graph
//! backwards, one seed class at a time.
//!
//! - `awari` holds the board: its moves forwards and backwards, its code,
//!   and the walk through the boards of a seed class. `rules`, `duality`,
//!   `coding`, `order` and `pattern` say what these compute and prove it;
//!   `utils` and `binomial` count.
//! - `state` holds what the analysis knows of one board, `table` the table
//!   of all boards, `ra` the analysis itself, and `retrograde` the analysis
//!   as one call. `waits` and `sound` say what the counters and the scores
//!   of the table mean.
//! - `storage` keeps a table in memory; `cache` keeps the books of a table
//!   that lives in a file.

use vstd::prelude::*;

pub mod awari;
pub mod binomial;
pub mod cache;
pub mod coding;
pub mod duality;
pub mod explore;
pub mod order;
pub mod pattern;
pub mod ra;
pub mod retrograde;
pub mod rules;
pub mod sound;
pub mod state;
pub mod storage;
pub mod table;
pub mod utils;
pub mod waits;

verus! {

/// Number of pits on each side of the board.
pub const PITS: usize = 4;

/// Number of pits on the whole board.
pub const FPITS: usize = 2 * PITS;

/// Number of seeds in each pit at the start of a game.
pub const START_SEEDS: usize = 4;

/// Number of seeds in play at the start of a game.
pub const SEEDS: usize = FPITS * START_SEEDS;

} // verus!
