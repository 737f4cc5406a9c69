//! The table: players seated around a pot, a dealer, and the board.

use vstd::prelude::*;
use crate::card::Card;
use crate::dealer::Dealer;
use crate::game::{sum_chips, lemma_sum_chips_take, lemma_sum_chips_take_le,
    lemma_sum_chips_nonneg};
use crate::player::Player;
use crate::pot::Pot;

verus! {

/// The table and its seated players.
pub struct PokerTable {
    pub players: Vec<Player>,
    /// Chips on the table at the start, stacks and pot together.
    pub total_n_chips_on_table: u64,
    pub pot: Pot,
    pub dealer: Dealer,
    pub community_cards: Vec<Card>,
    pub n_games: u32,
}

impl PokerTable {
    /// A new table.  Fewer than two players is the caller's error.
    pub fn new(
        players: Vec<Player>,
        pot: Pot,
        include_suits: Option<Vec<u8>>,
        include_ranks: Option<Vec<u8>>,
    ) -> (r: PokerTable)
        requires
            players@.len() >= 2,
            sum_chips(players@) <= u64::MAX,
            pot.wf(),
            include_suits is Some ==> forall|i: int| 0 <= i < include_suits->0@.len()
                ==> crate::eval_card::valid_suit_bit((#[trigger] include_suits->0@[i]) as int),
            include_ranks is Some ==> forall|i: int| 0 <= i < include_ranks->0@.len()
                ==> 2 <= #[trigger] include_ranks->0@[i] <= 14,
        ensures
            r.players == players,
            r.total_n_chips_on_table == sum_chips(players@),
            r.pot == pot,
            r.community_cards@.len() == 0,
            r.n_games == 0,
            r.dealer.deck.wf(),
            r.dealer.deck.cards_in_deck@.len() == 52,
    {
        let mut total: u64 = 0;
        let mut i: usize = 0;
        while i < players.len()
            invariant
                i <= players@.len(),
                total == sum_chips(players@.take(i as int)),
                sum_chips(players@) <= u64::MAX,
            decreases players@.len() - i,
        {
            proof {
                lemma_sum_chips_take(players@, i as int);
                lemma_sum_chips_take_le(players@, i + 1);
                lemma_sum_chips_nonneg(players@.take(i as int));
            }
            total = total + players[i].n_chips;
            i = i + 1;
        }
        proof {
            assert(players@.take(players@.len() as int) =~= players@);
        }
        let dealer = Dealer::new(include_suits, include_ranks);
        PokerTable {
            players,
            total_n_chips_on_table: total,
            pot,
            dealer,
            community_cards: Vec::new(),
            n_games: 0,
        }
    }

    /// Number of seats.
    pub fn n_players(&self) -> (r: usize)
        ensures
            r == self.players@.len(),
    {
        self.players.len()
    }

    /// Replaces the seating.
    pub fn set_players(&mut self, players: Vec<Player>)
        ensures
            *final(self) == (PokerTable { players, ..*old(self) }),
    {
        self.players = players;
    }

    /// Puts a card on the board.
    pub fn add_community_card(&mut self, card: Card)
        ensures
            final(self).community_cards@ == old(self).community_cards@.push(card),
            *final(self) == (PokerTable {
                community_cards: final(self).community_cards,
                ..*old(self)
            }),
    {
        self.community_cards.push(card);
    }

    /// One-line description of the table and its players.
    #[allow(non_snake_case)]
    pub fn __repr__(&self) -> (r: String) {
        let mut out = String::from_str("<PokerTable players=[");
        let mut i: usize = 0;
        while i < self.players.len()
            invariant
                i <= self.players@.len(),
            decreases self.players@.len() - i,
        {
            out.append(self.players[i].name.as_str());
            if i + 1 < self.players.len() {
                out.append(", ");
            }
            i = i + 1;
        }
        out.append("]>");
        out
    }
}

} // verus!
