//! A rules engine for the trick-taking card game 45s: cards, trump ranking,
//! trick resolution, legal-move validation and the state machine of a hand.

pub mod cards;

pub mod text;
pub mod error;
pub mod ranker;
pub mod rules;
pub mod state;
pub mod laws;
