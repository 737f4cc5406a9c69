//! Poker hand evaluation and chip settlement.
//!
//! Cards are packed integers carrying a rank-presence bit, a suit bit, a rank
//! index and a per-rank prime; 5-card hands are ranked 1 (royal flush) to
//! 7462 (worst high card) through prime-product lookup tables, 6- and 7-card
//! hands by the minimum over their 5-card subsets.  Side pots are peeled off
//! a contribution ledger layer by layer and paid out to ranked player groups
//! with deterministic remainder distribution.

pub mod errors;
pub mod eval_card;
pub mod combinatorics;
pub mod lookup;
pub mod card;
pub mod evaluator;
pub mod pot;
pub mod settlement;
pub mod actions;
pub mod player;
pub mod deck;
pub mod game;
pub mod table;
pub mod dealer;
pub mod state;
pub mod engine;
