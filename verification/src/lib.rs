pub mod tables;
pub mod zobrist;
pub mod magic_bitboard;
pub mod attacks;
pub mod bitboard;
pub mod mv;
pub mod board;
pub mod fen;
pub mod movegen;
pub mod params;
pub mod evaluate;
pub mod constants;
pub mod transposition;
pub mod search;
pub mod movepick;
pub mod notation;
pub mod uci;
