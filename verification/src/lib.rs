//! A Texas hold'em training engine: a deck, a betting state machine with
//! simple bot opponents, showdown resolution and Monte Carlo equity counting.

pub mod text;
pub mod cards;
pub mod state;
pub mod rules;
pub mod rank;
pub mod random;
pub mod play;
pub mod engine;
pub mod scenario;
pub mod equity;
pub mod view;
pub mod laws;
pub mod outcomes;
