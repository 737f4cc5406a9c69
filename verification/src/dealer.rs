//! The dealer: holds a deck and hands cards to players and to the table.

use vstd::prelude::*;
use crate::card::Card;
use crate::deck::Deck;
use crate::player::Player;
use crate::table::PokerTable;

verus! {

/// A dealer with a freshly shuffled deck.
pub struct Dealer {
    pub deck: Deck,
}

impl Dealer {
    /// A dealer over a full shuffled deck.
    pub fn new(include_suits: Option<Vec<u8>>, include_ranks: Option<Vec<u8>>) -> (r: Dealer)
        requires
            include_suits is Some ==> forall|i: int| 0 <= i < include_suits->0@.len()
                ==> crate::eval_card::valid_suit_bit((#[trigger] include_suits->0@[i]) as int),
            include_ranks is Some ==> forall|i: int| 0 <= i < include_ranks->0@.len()
                ==> 2 <= #[trigger] include_ranks->0@[i] <= 14,
        ensures
            r.deck.wf(),
            r.deck.cards_in_deck@.len() == 52,
            r.deck.dealt_cards@.len() == 0,
    {
        Dealer { deck: Deck::new(include_suits, include_ranks) }
    }

    /// Deals one random card.
    pub fn deal_card(&mut self) -> (r: Card)
        requires
            old(self).deck.wf(),
            old(self).deck.cards_in_deck@.len() > 0,
        ensures
            final(self).deck.wf(),
            r.wf(),
            final(self).deck.cards_in_deck@.len() == old(self).deck.cards_in_deck@.len() - 1,
    {
        self.deck.pick(true)
    }

    /// Deals two hole cards to each player.
    pub fn deal_private_cards(&mut self, players: &mut Vec<Player>)
        requires
            old(self).deck.wf(),
            old(self).deck.cards_in_deck@.len() >= 2 * old(players)@.len(),
        ensures
            final(self).deck.wf(),
            final(players)@.len() == old(players)@.len(),
            forall|i: int| 0 <= i < old(players)@.len()
                ==> (#[trigger] final(players)@[i]).cards@.len()
                    == old(players)@[i].cards@.len() + 2
                && final(players)@[i].cards@.take(old(players)@[i].cards@.len() as int)
                    == old(players)@[i].cards@
                && final(players)@[i].id == old(players)@[i].id
                && final(players)@[i].n_chips == old(players)@[i].n_chips,
            final(self).deck.cards_in_deck@.len() == old(self).deck.cards_in_deck@.len()
                - 2 * old(players)@.len(),
            final(self).deck.dealt_cards@.len() == old(self).deck.dealt_cards@.len()
                + 2 * old(players)@.len(),
    {
        let n = players.len();
        let mut i: usize = 0;
        while i < n
            invariant
                i <= n,
                n == players@.len(),
                n == old(players)@.len(),
                self.deck.wf(),
                self.deck.cards_in_deck@.len() == old(self).deck.cards_in_deck@.len() - 2 * i,
                old(self).deck.cards_in_deck@.len() >= 2 * n,
                self.deck.dealt_cards@.len() == old(self).deck.dealt_cards@.len() + 2 * i,
                forall|k: int| 0 <= k < i
                    ==> (#[trigger] players@[k]).cards@.len()
                        == old(players)@[k].cards@.len() + 2
                    && players@[k].cards@.take(old(players)@[k].cards@.len() as int)
                        == old(players)@[k].cards@
                    && players@[k].id == old(players)@[k].id
                    && players@[k].n_chips == old(players)@[k].n_chips,
                forall|k: int| i <= k < n ==> #[trigger] players@[k] == old(players)@[k],
            decreases n - i,
        {
            let ghost pre = players@;
            let card1 = self.deck.pick(true);
            let card2 = self.deck.pick(true);
            let mut p = players.remove(i);
            p.add_private_card(card1);
            p.add_private_card(card2);
            players.insert(i, p);
            proof {
                assert(players@ =~= pre.update(i as int, players@[i as int]));
                assert(players@[i as int].cards@.take(
                    old(players)@[i as int].cards@.len() as int,
                ) =~= old(players)@[i as int].cards@);
            }
            i = i + 1;
        }
    }

    /// Deals cards onto the table's board; zero cards is the caller's error.
    pub fn deal_community_cards(&mut self, table: &mut PokerTable, n_cards: usize)
        requires
            old(self).deck.wf(),
            n_cards > 0,
            old(self).deck.cards_in_deck@.len() >= n_cards,
        ensures
            final(self).deck.wf(),
            final(table).community_cards@.len() == old(table).community_cards@.len() + n_cards,
            final(self).deck.cards_in_deck@.len() == old(self).deck.cards_in_deck@.len()
                - n_cards,
            final(table).players == old(table).players,
            final(table).pot == old(table).pot,
    {
        let mut i: usize = 0;
        while i < n_cards
            invariant
                i <= n_cards,
                self.deck.wf(),
                table.community_cards@.len() == old(table).community_cards@.len() + i,
                self.deck.cards_in_deck@.len() == old(self).deck.cards_in_deck@.len() - i,
                old(self).deck.cards_in_deck@.len() >= n_cards,
                table.players == old(table).players,
                table.pot == old(table).pot,
            decreases n_cards - i,
        {
            let card = self.deck.pick(true);
            table.add_community_card(card);
            i = i + 1;
        }
    }

    /// The three flop cards.
    pub fn deal_flop(&mut self, table: &mut PokerTable)
        requires
            old(self).deck.wf(),
            old(self).deck.cards_in_deck@.len() >= 3,
        ensures
            final(self).deck.wf(),
            final(table).community_cards@.len() == old(table).community_cards@.len() + 3,
    {
        self.deal_community_cards(table, 3);
    }

    /// The turn card.
    pub fn deal_turn(&mut self, table: &mut PokerTable)
        requires
            old(self).deck.wf(),
            old(self).deck.cards_in_deck@.len() >= 1,
        ensures
            final(self).deck.wf(),
            final(table).community_cards@.len() == old(table).community_cards@.len() + 1,
    {
        self.deal_community_cards(table, 1);
    }

    /// The river card.
    pub fn deal_river(&mut self, table: &mut PokerTable)
        requires
            old(self).deck.wf(),
            old(self).deck.cards_in_deck@.len() >= 1,
        ensures
            final(self).deck.wf(),
            final(table).community_cards@.len() == old(table).community_cards@.len() + 1,
    {
        self.deal_community_cards(table, 1);
    }
}

} // verus!
