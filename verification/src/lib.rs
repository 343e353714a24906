//! The decision-making core of a chess program: bitboard primitives, attack
//! tables, the position with its legal-move generator and evaluator, and an
//! iterative-deepening alpha-beta search.
pub mod bits;
pub mod two_player_game;
pub mod bit_help;
pub mod chess_impl;
pub mod move_generation;
pub mod legal_moves;
pub mod fen;
pub mod evaluation;
pub mod utils;
pub mod search_model;
pub mod alpha_beta;
pub mod notation;
pub mod text_laws;
pub mod xo_impl;
pub mod king_safety;
pub mod generator_laws;
pub mod generator_once;
