//! A chess engine core: position representation, legal move generation
//! (castling, en passant, promotion, king safety), move application, and
//! the Forsyth-Edwards Notation (FEN) codec.
//!
//! Every public operation carries a contract over the mathematical model in
//! [`model`] and [`rules`]: decoding and encoding FEN strings, generating
//! exactly the pseudo-legal and legal move sets, and applying a move.

pub mod board;
pub mod fen;
pub mod laws;
pub mod model;
pub mod moves;
pub mod piece;
pub mod rules;
pub mod square;
mod text;

pub use moves::Move;
pub use piece::Piece;
pub use square::{square_from_algebraic, square_to_algebraic, to_board_square, Square};
