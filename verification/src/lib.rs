//! A bitboard chess engine core: attack tables, position state with
//! incremental Zobrist hashing, move generation, make-move, static
//! evaluation and an iterative-deepening alpha-beta search.
pub mod bits;
pub mod chess_move;
pub mod position;
pub mod attacks;
pub mod zobrist;
pub mod tables;
pub mod board;
pub mod make_move;
pub mod movegen;
pub mod move_list_laws;
pub mod fen;
pub mod picture;
pub mod round_trip;
pub mod eval;
pub mod progress;
pub mod perft;
pub mod search;
pub mod search_model;
pub mod search_laws;
pub mod mate_laws;
pub mod driver;
pub mod laws;
