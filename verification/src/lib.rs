//! A decision engine for 8x8 Reversi/Othello.
//!
//! The board is held as a pair of 64-bit occupancy sets (one per side,
//! bit `i` = square `i`, row-major) plus a side-to-move flag.  On top of
//! that sit bit-parallel move generation, a hand-tuned static evaluator,
//! a fixed-depth negamax midgame search with randomized leaf jitter, an
//! exact alpha-beta endgame solver with mobility move ordering, and a
//! root-level dispatcher that picks the best move for the side to move.

use vstd::prelude::*;

pub mod bit_board;
pub mod bits;
pub mod dispatch;
pub mod endgame;
pub mod eval;
pub mod score;
pub mod search;
pub mod legality;
pub mod text;

pub use bit_board::{get_score_diff, get_tempo, move_bit_board, valid_moves_set, BitBoard};
pub use dispatch::{ai_eval_with_depth, evaluate_to_depth, find_best_move_bit_board, select_best};
pub use endgame::ai_eval_till_end;
pub use eval::my_board_eval;
pub use score::{disk_to_coord, negate_score, score_le, score_lt, Coord, Score};
pub use search::ai_eval_iddfs;
pub use text::{coord_to_string, line_to_string, show_bit_board};

verus! {

/// Requests a player can make besides moves, recognised by an
/// interactive front end.
pub enum OtherAction {
    Help,
    Quit,
}

} // verus!
