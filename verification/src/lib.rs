//! Beluga chess engine core library.
pub mod attacks;
pub mod bitboard;
pub mod chess_move;
pub mod eval;
pub mod fen;
pub mod fen_law;
pub mod lines;
pub mod game;
pub mod legal;
pub mod movegen;
pub mod nnue;
pub mod perft;
pub mod position;
pub mod search;
pub mod see;
pub mod stop;
pub mod session;
pub mod text;
pub mod texel;
pub mod timeman;
pub mod tt;
pub mod types;
pub mod uci;
pub mod zobrist;
