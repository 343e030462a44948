//! Poker hand evaluation over bit-mask card sets.
pub mod bits;
pub mod ranks;
pub mod handval;
pub mod text;
pub mod tables;
pub mod deck;
pub mod deck_std;
pub mod deck_joker;
pub mod eval;
pub mod eval_low;
pub mod eval_low8;
pub mod eval_low27;
pub mod eval_omaha;
pub mod eval_joker;
pub mod eval_joker_low;
pub mod eval_joker_low8;
pub mod board;
pub mod enumord;
pub mod combinations;
pub mod combinaison;
pub mod enumdefs;
pub mod errors;
pub mod enumerate;
