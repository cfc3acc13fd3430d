//! English draughts (checkers) engine: a bitboard rules kernel that
//! enumerates mandatory jump chains, and a fail-soft alpha-beta search
//! with a per-call bound-window cache, iterative deepening and
//! cooperative cancellation.

pub mod bitboard;
pub mod board;
pub mod cancel;
pub mod chains;
pub mod move_sort;
pub mod movegen;
pub mod piece;
pub mod piece_type;
pub mod player;
pub mod score;
pub mod search;
pub mod util;
pub mod win_status;
