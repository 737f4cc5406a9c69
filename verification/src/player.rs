//! A player: a stack of chips, hole cards, seat bookkeeping, and the moves
//! that push chips into the pot.  The pot is passed in explicitly wherever a
//! move touches it, so chip movements stay visible in the contracts.

use vstd::prelude::*;
use crate::actions::{Call, Fold, Raise};
use crate::card::Card;
use crate::pot::{Pot, spec_get, spec_total};

verus! {

/// Smaller of two chip amounts.
pub open spec fn min_u64(a: u64, b: u64) -> u64 {
    if a <= b { a } else { b }
}

/// A player at the table.
#[derive(Clone, Debug)]
pub struct Player {
    /// Display name.
    pub name: String,
    /// Chips still in the player's stack.
    pub n_chips: u64,
    /// Hole cards.
    pub cards: Vec<Card>,
    /// Identifier used as the pot-ledger key.
    pub id: u32,
    /// Seat order for deterministic remainder payouts.
    pub order: Option<u32>,
    pub is_small_blind: bool,
    pub is_big_blind: bool,
    pub is_dealer: bool,
    /// Whether the player is still in the hand.
    pub active: bool,
}

impl Player {
    /// A fresh player with a full stack and no cards.
    pub fn new(name: String, initial_chips: u64, id: u32) -> (r: Player)
        ensures
            r.name == name,
            r.n_chips == initial_chips,
            r.cards@.len() == 0,
            r.id == id,
            r.order is None,
            !r.is_small_blind && !r.is_big_blind && !r.is_dealer,
            r.active,
    {
        Player {
            name,
            n_chips: initial_chips,
            cards: Vec::new(),
            id,
            order: None,
            is_small_blind: false,
            is_big_blind: false,
            is_dealer: false,
            active: true,
        }
    }

    /// Pays winnings into the stack.
    pub fn add_chips(&mut self, chips: u64)
        requires
            old(self).n_chips + chips <= u64::MAX,
        ensures
            *final(self) == (Player { n_chips: (old(self).n_chips + chips) as u64, ..*old(self) }),
    {
        self.n_chips = self.n_chips + chips;
    }

    /// Leaves the hand.
    pub fn fold(&mut self) -> (r: Fold)
        ensures
            *final(self) == (Player { active: false, ..*old(self) }),
    {
        self.active = false;
        Fold
    }

    /// Matches the biggest outstanding bet, capped by the stack; an all-in
    /// player stays put.
    pub fn call(&mut self, biggest_bet: u64, pot: &mut Pot) -> (r: Call)
        requires
            old(pot).wf(),
            biggest_bet >= spec_get(old(pot).pot@, old(self).id),
            spec_total(old(pot).pot@) + (biggest_bet - spec_get(old(pot).pot@, old(self).id))
                <= u64::MAX,
        ensures
            final(pot).wf(),
            old(self).active && old(self).n_chips == 0 ==> *final(self) == *old(self)
                && *final(pot) == *old(pot),
            !(old(self).active && old(self).n_chips == 0) ==> {
                let to_call = min_u64(
                    (biggest_bet - spec_get(old(pot).pot@, old(self).id)) as u64,
                    old(self).n_chips,
                );
                &&& *final(self) == (Player {
                    n_chips: (old(self).n_chips - to_call) as u64,
                    ..*old(self)
                })
                &&& spec_get(final(pot).pot@, old(self).id) == spec_get(
                    old(pot).pot@,
                    old(self).id,
                ) + to_call
                &&& spec_total(final(pot).pot@) == spec_total(old(pot).pot@) + to_call
                &&& final(pot).uid == old(pot).uid
            },
    {
        if self.is_all_in() {
            Call
        } else {
            let n_chips_to_call = biggest_bet - self.n_bet_chips(pot);
            self.add_to_pot(pot, n_chips_to_call);
            Call
        }
    }

    /// Raises by pushing chips into the pot, capped by the stack.
    pub fn raise_to(&mut self, pot: &mut Pot, n_chips: u64) -> (r: Raise)
        requires
            old(pot).wf(),
            spec_total(old(pot).pot@) + min_u64(n_chips, old(self).n_chips) <= u64::MAX,
        ensures
            final(pot).wf(),
            r.amount == min_u64(n_chips, old(self).n_chips),
            *final(self) == (Player {
                n_chips: (old(self).n_chips - min_u64(n_chips, old(self).n_chips)) as u64,
                ..*old(self)
            }),
            spec_get(final(pot).pot@, old(self).id) == spec_get(old(pot).pot@, old(self).id)
                + min_u64(n_chips, old(self).n_chips),
            spec_total(final(pot).pot@) == spec_total(old(pot).pot@) + min_u64(
                n_chips,
                old(self).n_chips,
            ),
    {
        let n_chips = self.add_to_pot(pot, n_chips);
        let mut raise_action = Raise::new();
        raise_action.set_amount(n_chips);
        raise_action
    }

    /// Caps a bet at what the stack can cover.
    pub fn try_to_make_full_bet(&self, n_chips: u64) -> (r: u64)
        ensures
            r == min_u64(n_chips, self.n_chips),
    {
        if self.n_chips < n_chips {
            self.n_chips
        } else {
            n_chips
        }
    }

    /// Moves chips from the stack into the pot, capped by the stack; returns
    /// what was actually bet.
    pub fn add_to_pot(&mut self, pot: &mut Pot, n_chips: u64) -> (r: u64)
        requires
            old(pot).wf(),
            spec_total(old(pot).pot@) + min_u64(n_chips, old(self).n_chips) <= u64::MAX,
        ensures
            final(pot).wf(),
            r == min_u64(n_chips, old(self).n_chips),
            *final(self) == (Player { n_chips: (old(self).n_chips - r) as u64, ..*old(self) }),
            spec_get(final(pot).pot@, old(self).id) == spec_get(old(pot).pot@, old(self).id)
                + r,
            forall|p: u32| p != old(self).id
                ==> spec_get(final(pot).pot@, p) == spec_get(old(pot).pot@, p),
            spec_total(final(pot).pot@) == spec_total(old(pot).pot@) + r,
            final(pot).uid == old(pot).uid,
    {
        let n_chips = self.try_to_make_full_bet(n_chips);
        pot.add_chips(self.id, n_chips);
        self.n_chips = self.n_chips - n_chips;
        n_chips
    }

    /// Takes a dealt hole card.
    pub fn add_private_card(&mut self, card: Card)
        ensures
            *final(self) == (Player { cards: final(self).cards, ..*old(self) }),
            final(self).cards@ == old(self).cards@.push(card),
    {
        self.cards.push(card);
    }

    /// Whether the player is still in the hand.
    pub fn is_active(&self) -> (r: bool)
        ensures
            r == self.active,
    {
        self.active
    }

    /// Marks the player in or out of the hand.
    pub fn set_active(&mut self, is_active: bool)
        ensures
            *final(self) == (Player { active: is_active, ..*old(self) }),
    {
        self.active = is_active;
    }

    /// In the hand with an empty stack.
    pub fn is_all_in(&self) -> (r: bool)
        ensures
            r == (self.active && self.n_chips == 0),
    {
        self.active && self.n_chips == 0
    }

    /// Chips this player has bet so far, read from the pot ledger.
    pub fn n_bet_chips(&self, pot: &Pot) -> (r: u64)
        ensures
            r == spec_get(pot.pot@, self.id),
    {
        pot.get_contribution(self.id)
    }
}

} // verus!
