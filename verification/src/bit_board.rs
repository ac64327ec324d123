//! The bitboard position, its threat analysis and the legal move generator.

pub mod complete;
pub mod fen;
pub mod generate;
pub mod laws;
pub mod masks;
pub mod planes;
pub mod play;
pub mod position;
pub mod rules;
pub mod safety;
pub mod show;
pub mod threats;
pub mod visitor;

pub use planes::BitBoard;
pub use show::bitmask_text;
pub use position::{BBMove, BitBoardGame, BitBoardGameMove, BoolExists};
pub use visitor::OnMove;
