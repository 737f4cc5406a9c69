//! A snapshot of the game between actions.  Strategy itself lives outside
//! the core; this type only records where a hand stands.

use vstd::prelude::*;
use crate::game::PokerGame;

verus! {

/// One node in the history of a hand.
pub struct PokerGameState {
    pub previous_state: Option<Box<PokerGameState>>,
    pub game: PokerGame,
    pub player: Option<u32>,
    pub action: Option<String>,
    pub terminal: bool,
}

impl PokerGameState {
    /// The opening state of a fresh hand.
    pub fn new_hand(game: PokerGame) -> (r: PokerGameState)
        ensures
            r.previous_state is None,
            r.player is None,
            r.action is None,
            !r.terminal,
    {
        PokerGameState {
            previous_state: None,
            game,
            player: None,
            action: None,
            terminal: false,
        }
    }

    /// Whether the hand has ended.
    pub fn is_terminal(&self) -> (r: bool)
        ensures
            r == self.terminal,
    {
        self.terminal
    }

    /// Betting states are never chance nodes; dealing is.
    pub fn is_chance_node(&self) -> (r: bool)
        ensures
            r == false,
    {
        false
    }

    /// The player to act, if any.
    pub fn current_player(&self) -> (r: Option<u32>)
        ensures
            r == self.player,
    {
        self.player
    }
}

} // verus!
