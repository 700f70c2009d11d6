//! Engine for a two-player Chinese-checkers style game on a six-pointed
//! star board: bitboard move generation, incremental evaluation, Zobrist
//! hashing, a transposition table and an iterative-deepening negamax search.

use vstd::prelude::*;

mod bitboard;
mod evaluation;
mod evaluation_cache;
mod game;
mod hasher;
mod move_list;
mod move_picker;
mod search;
mod state;
mod tt;

pub use bitboard::Bitboard;
pub use bitboard::OnesIterator;
pub use bitboard::index_to_pos;
pub use bitboard::invalid_cells;
pub use bitboard::pos_to_index;
pub use bitboard::target_cells;
pub use evaluation::Evaluation;
pub use evaluation::distance_to_center;
pub use evaluation::kind;
pub use evaluation_cache::EvaluationCache;
pub use game::Game;
pub use game::GameState;
pub use game::Move;
pub use game::Tile;
pub use hasher::IncrementalHash;
pub use hasher::IncrementalHasher;
pub use move_list::MoveList;
pub use move_list::MoveListIterator;
pub use move_picker::MovePicker;
pub use move_picker::move_score;
pub use search::AI;
pub use search::StopCondition;
pub use state::InternalGameState;
pub use state::InternalMove;
pub use tt::Depth;
pub use tt::ScoreType;
pub use tt::Transposition;
pub use tt::TranspositionTable;

verus! {

/// Number of indexable columns in an even row of the board.
pub const BOARD_WIDTH: u8 = 13;

/// Number of rows of the board.
pub const BOARD_HEIGHT: u8 = 17;

} // verus!
