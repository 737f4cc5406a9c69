//! One game of poker: the players, the pot, the board and the deck.

use vstd::prelude::*;
use crate::card::Card;
use crate::deck::Deck;
use crate::player::Player;
use crate::pot::Pot;

verus! {

/// Sum of the players' stacks.
pub open spec fn sum_chips(s: Seq<Player>) -> int
    decreases s.len(),
{
    if s.len() == 0 {
        0
    } else {
        sum_chips(s.drop_last()) + s.last().n_chips
    }
}

pub proof fn lemma_sum_chips_take(s: Seq<Player>, n: int)
    requires
        0 <= n < s.len(),
    ensures
        sum_chips(s.take(n + 1)) == sum_chips(s.take(n)) + s[n].n_chips,
{
    assert(s.take(n + 1).drop_last() =~= s.take(n));
    assert(s.take(n + 1).last() == s[n]);
}

/// Player ids are pairwise distinct.
pub open spec fn player_ids_unique(s: Seq<Player>) -> bool {
    forall|i: int, j: int| 0 <= i < j < s.len() ==> (#[trigger] s[i]).id != (#[trigger] s[j]).id
}

/// The state of one game.
pub struct PokerGame {
    pub players: Vec<Player>,
    /// Chips on the table at the start, stacks and pot together.
    pub total_n_chips_on_table: u64,
    pub pot: Pot,
    pub community_cards: Vec<Card>,
    pub n_games: u32,
    pub deck: Deck,
}

impl PokerGame {
    /// Pot and deck in working order.
    pub open spec fn wf(self) -> bool {
        self.pot.wf() && self.deck.wf()
    }

    /// A new game.  Fewer than two players is the caller's error.
    pub fn new(
        players: Vec<Player>,
        pot: Pot,
        include_suits: Option<Vec<u8>>,
        include_ranks: Option<Vec<u8>>,
    ) -> (r: PokerGame)
        requires
            players@.len() >= 2,
            sum_chips(players@) <= u64::MAX,
            pot.wf(),
            include_suits is Some ==> forall|i: int| 0 <= i < include_suits->0@.len()
                ==> crate::eval_card::valid_suit_bit((#[trigger] include_suits->0@[i]) as int),
            include_ranks is Some ==> forall|i: int| 0 <= i < include_ranks->0@.len()
                ==> 2 <= #[trigger] include_ranks->0@[i] <= 14,
        ensures
            r.wf(),
            r.players == players,
            r.total_n_chips_on_table == sum_chips(players@),
            r.pot == pot,
            r.community_cards@.len() == 0,
            r.n_games == 0,
            r.deck.cards_in_deck@.len() == 52,
    {
        let mut total: u64 = 0;
        let mut i: usize = 0;
        while i < players.len()
            invariant
                i <= players@.len(),
                total == sum_chips(players@.take(i as int)),
                sum_chips(players@) <= u64::MAX,
            decreases players@.len() - i,
        {
            proof {
                lemma_sum_chips_take(players@, i as int);
                lemma_sum_chips_take_le(players@, i + 1);
                lemma_sum_chips_nonneg(players@.take(i as int));
            }
            total = total + players[i].n_chips;
            i = i + 1;
        }
        proof {
            assert(players@.take(players@.len() as int) =~= players@);
        }
        PokerGame {
            players,
            total_n_chips_on_table: total,
            pot,
            community_cards: Vec::new(),
            n_games: 0,
            deck: Deck::new(include_suits, include_ranks),
        }
    }

    /// Number of seats.
    pub fn n_players(&self) -> (r: usize)
        ensures
            r == self.players@.len(),
    {
        self.players.len()
    }

    /// Replaces the seating, e.g. after the blinds move.
    pub fn set_players(&mut self, players: Vec<Player>)
        ensures
            *final(self) == (PokerGame { players, ..*old(self) }),
    {
        self.players = players;
    }

    /// Puts a card on the board.
    pub fn add_community_card(&mut self, card: Card)
        ensures
            final(self).community_cards@ == old(self).community_cards@.push(card),
            *final(self) == (PokerGame {
                community_cards: final(self).community_cards,
                ..*old(self)
            }),
    {
        self.community_cards.push(card);
    }

    /// Deals one random card from the deck.
    pub fn deal_card(&mut self) -> (r: Card)
        requires
            old(self).wf(),
            old(self).deck.cards_in_deck@.len() > 0,
        ensures
            final(self).wf(),
            r.wf(),
            final(self).deck.cards_in_deck@.len() == old(self).deck.cards_in_deck@.len() - 1,
            *final(self) == (PokerGame { deck: final(self).deck, ..*old(self) }),
    {
        self.deck.pick(true)
    }

    /// Deals two hole cards to every player.
    pub fn deal_private_cards(&mut self)
        requires
            old(self).wf(),
            old(self).deck.cards_in_deck@.len() >= 2 * old(self).players@.len(),
        ensures
            final(self).wf(),
            final(self).players@.len() == old(self).players@.len(),
            forall|i: int| 0 <= i < old(self).players@.len()
                ==> (#[trigger] final(self).players@[i]).cards@.len()
                    == old(self).players@[i].cards@.len() + 2
                && final(self).players@[i].cards@.take(
                    old(self).players@[i].cards@.len() as int,
                ) == old(self).players@[i].cards@
                && final(self).players@[i].id == old(self).players@[i].id
                && final(self).players@[i].n_chips == old(self).players@[i].n_chips
                && final(self).players@[i].active == old(self).players@[i].active,
            final(self).deck.cards_in_deck@.len() == old(self).deck.cards_in_deck@.len()
                - 2 * old(self).players@.len(),
            final(self).deck.dealt_cards@.len() == old(self).deck.dealt_cards@.len()
                + 2 * old(self).players@.len(),
            final(self).pot == old(self).pot,
            final(self).community_cards == old(self).community_cards,
            final(self).total_n_chips_on_table == old(self).total_n_chips_on_table,
    {
        let n = self.players.len();
        let mut i: usize = 0;
        while i < n
            invariant
                i <= n,
                n == self.players@.len(),
                n == old(self).players@.len(),
                self.wf(),
                self.deck.cards_in_deck@.len() == old(self).deck.cards_in_deck@.len()
                    - 2 * i,
                old(self).deck.cards_in_deck@.len() >= 2 * n,
                self.deck.dealt_cards@.len() == old(self).deck.dealt_cards@.len() + 2 * i,
                forall|k: int| 0 <= k < i
                    ==> (#[trigger] self.players@[k]).cards@.len()
                        == old(self).players@[k].cards@.len() + 2
                    && self.players@[k].cards@.take(
                        old(self).players@[k].cards@.len() as int,
                    ) == old(self).players@[k].cards@
                    && self.players@[k].id == old(self).players@[k].id
                    && self.players@[k].n_chips == old(self).players@[k].n_chips
                    && self.players@[k].active == old(self).players@[k].active,
                forall|k: int| i <= k < n
                    ==> #[trigger] self.players@[k] == old(self).players@[k],
                self.pot == old(self).pot,
                self.community_cards == old(self).community_cards,
                self.total_n_chips_on_table == old(self).total_n_chips_on_table,
            decreases n - i,
        {
            let ghost pre = self.players@;
            let card1 = self.deck.pick(true);
            let card2 = self.deck.pick(true);
            let mut p = self.players.remove(i);
            p.add_private_card(card1);
            p.add_private_card(card2);
            self.players.insert(i, p);
            proof {
                assert(self.players@ =~= pre.update(i as int, self.players@[i as int]));
                assert(self.players@[i as int].cards@.take(
                    old(self).players@[i as int].cards@.len() as int,
                ) =~= old(self).players@[i as int].cards@);
            }
            i = i + 1;
        }
    }

    /// Deals cards onto the board; zero cards is the caller's error.
    pub fn deal_community_cards(&mut self, n_cards: usize)
        requires
            old(self).wf(),
            n_cards > 0,
            old(self).deck.cards_in_deck@.len() >= n_cards,
        ensures
            final(self).wf(),
            final(self).community_cards@.len() == old(self).community_cards@.len() + n_cards,
            forall|k: int| 0 <= k < old(self).community_cards@.len()
                ==> #[trigger] final(self).community_cards@[k]
                    == old(self).community_cards@[k],
            forall|k: int| old(self).community_cards@.len() <= k
                < final(self).community_cards@.len()
                ==> (#[trigger] final(self).community_cards@[k]).wf(),
            final(self).deck.cards_in_deck@.len() == old(self).deck.cards_in_deck@.len()
                - n_cards,
            final(self).players == old(self).players,
            final(self).pot == old(self).pot,
            final(self).total_n_chips_on_table == old(self).total_n_chips_on_table,
    {
        let mut i: usize = 0;
        while i < n_cards
            invariant
                i <= n_cards,
                self.wf(),
                self.community_cards@.len() == old(self).community_cards@.len() + i,
                forall|k: int| 0 <= k < old(self).community_cards@.len()
                    ==> #[trigger] self.community_cards@[k] == old(self).community_cards@[k],
                forall|k: int| old(self).community_cards@.len() <= k
                    < self.community_cards@.len()
                    ==> (#[trigger] self.community_cards@[k]).wf(),
                self.deck.cards_in_deck@.len() == old(self).deck.cards_in_deck@.len() - i,
                old(self).deck.cards_in_deck@.len() >= n_cards,
                self.players == old(self).players,
                self.pot == old(self).pot,
                self.total_n_chips_on_table == old(self).total_n_chips_on_table,
            decreases n_cards - i,
        {
            let card = self.deck.pick(true);
            self.community_cards.push(card);
            i = i + 1;
        }
    }

    /// The three flop cards.
    pub fn deal_flop(&mut self)
        requires
            old(self).wf(),
            old(self).deck.cards_in_deck@.len() >= 3,
        ensures
            final(self).wf(),
            final(self).community_cards@.len() == old(self).community_cards@.len() + 3,
            final(self).deck.cards_in_deck@.len() == old(self).deck.cards_in_deck@.len() - 3,
            final(self).players == old(self).players,
            final(self).pot == old(self).pot,
            final(self).total_n_chips_on_table == old(self).total_n_chips_on_table,
    {
        self.deal_community_cards(3);
    }

    /// The turn card.
    pub fn deal_turn(&mut self)
        requires
            old(self).wf(),
            old(self).deck.cards_in_deck@.len() >= 1,
        ensures
            final(self).wf(),
            final(self).community_cards@.len() == old(self).community_cards@.len() + 1,
            final(self).deck.cards_in_deck@.len() == old(self).deck.cards_in_deck@.len() - 1,
            final(self).players == old(self).players,
            final(self).pot == old(self).pot,
            final(self).total_n_chips_on_table == old(self).total_n_chips_on_table,
    {
        self.deal_community_cards(1);
    }

    /// The river card.
    pub fn deal_river(&mut self)
        requires
            old(self).wf(),
            old(self).deck.cards_in_deck@.len() >= 1,
        ensures
            final(self).wf(),
            final(self).community_cards@.len() == old(self).community_cards@.len() + 1,
            final(self).deck.cards_in_deck@.len() == old(self).deck.cards_in_deck@.len() - 1,
            final(self).players == old(self).players,
            final(self).pot == old(self).pot,
            final(self).total_n_chips_on_table == old(self).total_n_chips_on_table,
    {
        self.deal_community_cards(1);
    }
}

/// Replacing one player shifts the stack sum by the difference.
pub proof fn lemma_sum_chips_update(s: Seq<Player>, i: int, p: Player)
    requires
        0 <= i < s.len(),
    ensures
        sum_chips(s.update(i, p)) == sum_chips(s) - s[i].n_chips + p.n_chips,
    decreases s.len(),
{
    if i == s.len() - 1 {
        assert(s.update(i, p).drop_last() =~= s.drop_last());
    } else {
        assert(s.update(i, p).drop_last() =~= s.drop_last().update(i, p));
        lemma_sum_chips_update(s.drop_last(), i, p);
    }
}

/// The stack sum is the first player's stack plus the rest.
pub proof fn lemma_sum_chips_drop_first(s: Seq<Player>)
    requires
        s.len() > 0,
    ensures
        sum_chips(s) == s[0].n_chips + sum_chips(s.drop_first()),
    decreases s.len(),
{
    if s.len() == 1 {
        assert(s.drop_first().len() == 0);
        assert(s.drop_last().len() == 0);
        assert(sum_chips(s) == sum_chips(s.drop_last()) + s.last().n_chips);
        assert(s.last() == s[0]);
    } else {
        lemma_sum_chips_drop_first(s.drop_last());
        assert(s.drop_last()[0] == s[0]);
        assert(s.drop_first().drop_last() =~= s.drop_last().drop_first());
        assert(s.drop_first().last() == s.last());
        assert(sum_chips(s) == sum_chips(s.drop_last()) + s.last().n_chips);
        assert(sum_chips(s.drop_last()) == s[0].n_chips
            + sum_chips(s.drop_last().drop_first()));
        assert(sum_chips(s.drop_first()) == sum_chips(s.drop_first().drop_last())
            + s.drop_first().last().n_chips);
        assert(sum_chips(s.drop_first().drop_last())
            == sum_chips(s.drop_last().drop_first()));
    }
}

pub proof fn lemma_sum_chips_nonneg(s: Seq<Player>)
    ensures
        sum_chips(s) >= 0,
    decreases s.len(),
{
    if s.len() > 0 {
        lemma_sum_chips_nonneg(s.drop_last());
    }
}

pub proof fn lemma_sum_chips_take_le(s: Seq<Player>, n: int)
    requires
        0 <= n <= s.len(),
    ensures
        sum_chips(s.take(n)) <= sum_chips(s),
    decreases s.len() - n,
{
    if n == s.len() {
        assert(s.take(n) =~= s);
    } else {
        lemma_sum_chips_take(s, n);
        lemma_sum_chips_take_le(s, n + 1);
    }
}

} // verus!
