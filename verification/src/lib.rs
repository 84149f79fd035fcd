//! A two-player, simplified trading-card game match engine.
//!
//! The engine simulates a match between two automated decision-makers to a
//! deterministic win/loss outcome: a per-player game state (library, hand,
//! battlefield, life), a turn-phase state machine, and a combat-resolution
//! algorithm, with the card-count and tap-state invariants proved.

pub mod blocks;
pub mod cards;
pub mod combat;
pub mod engine;
pub mod player_state;
pub mod rng;
pub mod seqs;
pub mod strategy;

pub use cards::Card;
pub use cards::Creature;
pub use cards::CreatureCard;
