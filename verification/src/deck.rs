//! The deck: 52 cards shuffled at construction, dealt from the top or at
//! random.  The shuffle itself is delegated to `rand`; everything stated
//! about it holds whatever permutation comes back.

use vstd::prelude::*;
use rand::Rng;
use rand::seq::SliceRandom;
use crate::card::Card;

verus! {

/// Suit bits in the order the deck is built: spades, diamonds, clubs,
/// hearts.
pub open spec fn suit_bit_at(s: int) -> u8 {
    if s == 0 { 1 } else if s == 1 { 4 } else if s == 2 { 8 } else { 2 }
}

/// The `j`-th card of an unshuffled full deck: suits in build order, ranks
/// 2..=14 ascending within each suit.
pub open spec fn full_deck_card(j: int) -> Card {
    Card {
        eval_card: crate::eval_card::spec_encode(j % 13, suit_bit_at(j / 13) as int),
        rank: (j % 13 + 2) as u8,
        suit_bit: suit_bit_at(j / 13),
    }
}

/// Relies on rand's `SliceRandom::shuffle` with `thread_rng`: an in-place
/// permutation of the slice.  Which permutation comes back is random; only
/// the multiset of cards is promised.
#[verifier::external_body]
fn shuffle_cards(cards: &mut Vec<Card>)
    ensures
        final(cards)@.len() == old(cards)@.len(),
        final(cards)@.to_multiset() == old(cards)@.to_multiset(),
{
    cards.shuffle(&mut rand::thread_rng());
}

/// Relies on rand's `Rng::gen_range` over `0..n`: a value below `n`.  The
/// value itself is random; only the bound is promised.
#[verifier::external_body]
fn random_below(n: usize) -> (r: usize)
    requires
        n > 0,
    ensures
        r < n,
{
    rand::thread_rng().gen_range(0..n)
}

/// A deck: the cards still to be dealt and the cards already dealt.
pub struct Deck {
    /// Suit bits used by `reset`.
    pub include_suits: Vec<u8>,
    /// Face values used by `reset`.
    pub include_ranks: Vec<u8>,
    pub cards_in_deck: Vec<Card>,
    pub dealt_cards: Vec<Card>,
}

impl Deck {
    /// Suit and rank menus name real suits and ranks.
    pub open spec fn wf(self) -> bool {
        &&& forall|i: int| 0 <= i < self.include_suits@.len()
            ==> crate::eval_card::valid_suit_bit((#[trigger] self.include_suits@[i]) as int)
        &&& forall|i: int| 0 <= i < self.include_ranks@.len()
            ==> 2 <= #[trigger] self.include_ranks@[i] <= 14
        &&& forall|i: int| 0 <= i < self.cards_in_deck@.len()
            ==> (#[trigger] self.cards_in_deck@[i]).wf()
    }

    /// A full 52-card deck, shuffled; the optional suit and rank menus only
    /// govern later `reset` calls.
    pub fn new(include_suits_kw: Option<Vec<u8>>, include_ranks_kw: Option<Vec<u8>>) -> (r:
        Deck)
        requires
            include_suits_kw is Some ==> forall|i: int|
                0 <= i < include_suits_kw->0@.len()
                    ==> crate::eval_card::valid_suit_bit(
                    (#[trigger] include_suits_kw->0@[i]) as int,
                ),
            include_ranks_kw is Some ==> forall|i: int|
                0 <= i < include_ranks_kw->0@.len() ==> 2 <= #[trigger] include_ranks_kw->0@[i]
                    <= 14,
        ensures
            r.wf(),
            r.cards_in_deck@.len() == 52,
            r.dealt_cards@.len() == 0,
            r.cards_in_deck@.to_multiset() == Seq::new(52, |j: int| full_deck_card(j))
                .to_multiset(),
    {
        let mut cards_in_deck: Vec<Card> = Vec::new();
        let mut s: u8 = 0;
        while s < 4
            invariant
                s <= 4,
                cards_in_deck@.len() == s as int * 13,
                forall|j: int| 0 <= j < cards_in_deck@.len()
                    ==> #[trigger] cards_in_deck@[j] == full_deck_card(j),
            decreases 4 - s,
        {
            let suit_bit: u8 = match s {
                0 => 1,
                1 => 4,
                2 => 8,
                _ => 2,
            };
            let mut ri: u8 = 0;
            while ri < 13
                invariant
                    ri <= 13,
                    s < 4,
                    suit_bit == suit_bit_at(s as int),
                    cards_in_deck@.len() == s as int * 13 + ri as int,
                    forall|j: int| 0 <= j < cards_in_deck@.len()
                        ==> #[trigger] cards_in_deck@[j] == full_deck_card(j),
                decreases 13 - ri,
            {
                let card = Card::from_parts(ri, suit_bit);
                proof {
                    let j = s as int * 13 + ri as int;
                    vstd::arithmetic::div_mod::lemma_fundamental_div_mod_converse(
                        j, 13, s as int, ri as int);
                    assert(full_deck_card(j) == Card {
                        eval_card: crate::eval_card::spec_encode(ri as int, suit_bit as int),
                        rank: (ri + 2) as u8,
                        suit_bit: suit_bit,
                    });
                }
                cards_in_deck.push(card);
                ri = ri + 1;
            }
            s = s + 1;
        }
        proof {
            assert(cards_in_deck@ =~= Seq::new(52, |j: int| full_deck_card(j)));
        }
        let ghost before = cards_in_deck@;
        shuffle_cards(&mut cards_in_deck);
        proof {
            before.to_multiset_ensures();
            cards_in_deck@.to_multiset_ensures();
            assert forall|i: int| 0 <= i < cards_in_deck@.len()
                implies (#[trigger] cards_in_deck@[i]).wf() by {
                assert(cards_in_deck@.contains(cards_in_deck@[i]));
                assert(cards_in_deck@.to_multiset().count(cards_in_deck@[i]) > 0);
                assert(before.contains(cards_in_deck@[i]));
                let w = choose|w: int| 0 <= w < before.len() && before[w]
                    == cards_in_deck@[i];
                assert(before[w] == full_deck_card(w));
                assert(full_deck_card(w).wf()) by {
                    lemma_full_deck_card_wf(w);
                }
            }
        }
        let default_suits: Vec<u8> = match include_suits_kw {
            Some(v) => v,
            None => {
                let mut v: Vec<u8> = Vec::new();
                v.push(1); v.push(4); v.push(8); v.push(2);
                v
            },
        };
        let default_ranks: Vec<u8> = match include_ranks_kw {
            Some(v) => v,
            None => {
                let mut v: Vec<u8> = Vec::new();
                let mut rv: u8 = 2;
                while rv <= 14
                    invariant
                        2 <= rv <= 15,
                        forall|i: int| 0 <= i < v@.len() ==> 2 <= #[trigger] v@[i] <= 14,
                    decreases 15 - rv,
                {
                    v.push(rv);
                    rv = rv + 1;
                }
                v
            },
        };
        Deck {
            include_suits: default_suits,
            include_ranks: default_ranks,
            cards_in_deck,
            dealt_cards: Vec::new(),
        }
    }

    /// Cards in the deck plus cards dealt: constant across dealing.
    pub fn len(&self) -> (r: usize)
        requires
            self.cards_in_deck@.len() + self.dealt_cards@.len() <= usize::MAX,
        ensures
            r == self.cards_in_deck@.len() + self.dealt_cards@.len(),
    {
        self.cards_in_deck.len() + self.dealt_cards.len()
    }

    /// Rebuilds and reshuffles the deck from the suit and rank menus.
    pub fn reset(&mut self)
        requires
            old(self).wf(),
            old(self).include_suits@.len() * old(self).include_ranks@.len() <= usize::MAX,
        ensures
            final(self).wf(),
            final(self).include_suits == old(self).include_suits,
            final(self).include_ranks == old(self).include_ranks,
            final(self).cards_in_deck@.len() == old(self).include_suits@.len()
                * old(self).include_ranks@.len(),
            final(self).dealt_cards@.len() == 0,
    {
        let mut cards_in_deck: Vec<Card> = Vec::new();
        let mut si: usize = 0;
        while si < self.include_suits.len()
            invariant
                si <= self.include_suits@.len(),
                self.wf(),
                cards_in_deck@.len() == si as int * self.include_ranks@.len(),
                self.include_suits@.len() * self.include_ranks@.len() <= usize::MAX,
                forall|j: int| 0 <= j < cards_in_deck@.len()
                    ==> (#[trigger] cards_in_deck@[j]).wf(),
            decreases self.include_suits@.len() - si,
        {
            let suit_bit = self.include_suits[si];
            let mut ri: usize = 0;
            while ri < self.include_ranks.len()
                invariant
                    ri <= self.include_ranks@.len(),
                    si < self.include_suits@.len(),
                    self.wf(),
                    suit_bit == self.include_suits@[si as int],
                    cards_in_deck@.len() == si as int * self.include_ranks@.len() + ri as int,
                    self.include_suits@.len() * self.include_ranks@.len() <= usize::MAX,
                    forall|j: int| 0 <= j < cards_in_deck@.len()
                        ==> (#[trigger] cards_in_deck@[j]).wf(),
                decreases self.include_ranks@.len() - ri,
            {
                let rank = self.include_ranks[ri];
                proof {
                    let a = si as int;
                    let b = ri as int;
                    let nr = self.include_ranks@.len() as int;
                    let ns = self.include_suits@.len() as int;
                    assert(a * nr + b < (a + 1) * nr && (a + 1) * nr <= ns * nr)
                        by (nonlinear_arith)
                        requires
                            0 <= b < nr,
                            a + 1 <= ns,
                    ;
                }
                cards_in_deck.push(Card::from_parts(rank - 2, suit_bit));
                ri = ri + 1;
            }
            proof {
                let a = si as int;
                let nr = self.include_ranks@.len() as int;
                assert((a + 1) * nr == a * nr + nr) by (nonlinear_arith);
            }
            si = si + 1;
        }
        let ghost before = cards_in_deck@;
        shuffle_cards(&mut cards_in_deck);
        proof {
            before.to_multiset_ensures();
            cards_in_deck@.to_multiset_ensures();
            assert forall|i: int| 0 <= i < cards_in_deck@.len()
                implies (#[trigger] cards_in_deck@[i]).wf() by {
                assert(cards_in_deck@.contains(cards_in_deck@[i]));
                assert(cards_in_deck@.to_multiset().count(cards_in_deck@[i]) > 0);
                assert(before.contains(cards_in_deck@[i]));
                let w = choose|w: int| 0 <= w < before.len() && before[w]
                    == cards_in_deck@[i];
            }
        }
        self.cards_in_deck = cards_in_deck;
        self.dealt_cards = Vec::new();
    }

    /// Deals one card: the last card of the deck, or a uniformly random one.
    /// An empty deck is the caller's error.
    pub fn pick(&mut self, random: bool) -> (r: Card)
        requires
            old(self).wf(),
            old(self).cards_in_deck@.len() > 0,
        ensures
            final(self).wf(),
            r.wf(),
            exists|i: int| 0 <= i < old(self).cards_in_deck@.len() && r == old(
                self,
            ).cards_in_deck@[i] && final(self).cards_in_deck@ == old(
                self,
            ).cards_in_deck@.remove(i),
            !random ==> r == old(self).cards_in_deck@.last() && final(self).cards_in_deck@
                == old(self).cards_in_deck@.drop_last(),
            final(self).dealt_cards@ == old(self).dealt_cards@.push(r),
            final(self).include_suits == old(self).include_suits,
            final(self).include_ranks == old(self).include_ranks,
    {
        let index: usize = if random {
            random_below(self.cards_in_deck.len())
        } else {
            self.cards_in_deck.len() - 1
        };
        let card = self.cards_in_deck.remove(index);
        self.dealt_cards.push(card.clone());
        proof {
            assert forall|j: int| 0 <= j < self.cards_in_deck@.len()
                implies (#[trigger] self.cards_in_deck@[j]).wf() by {
                if j < index {
                    assert(self.cards_in_deck@[j] == old(self).cards_in_deck@[j]);
                } else {
                    assert(self.cards_in_deck@[j] == old(self).cards_in_deck@[j + 1]);
                }
            }
            if !random {
                assert(old(self).cards_in_deck@.remove(old(self).cards_in_deck@.len() - 1)
                    =~= old(self).cards_in_deck@.drop_last());
            }
        }
        card
    }

    /// Removes a specific card from the deck, if present: the first copy
    /// moves to the dealt pile; an absent card changes nothing.
    pub fn remove(&mut self, card: &Card)
        requires
            old(self).wf(),
        ensures
            final(self).wf(),
            final(self).include_suits == old(self).include_suits,
            final(self).include_ranks == old(self).include_ranks,
            !old(self).cards_in_deck@.contains(*card) ==> *final(self) == *old(self),
            old(self).cards_in_deck@.contains(*card) ==> exists|i: int|
                0 <= i < old(self).cards_in_deck@.len() && old(self).cards_in_deck@[i] == *card
                    && (forall|k: int| 0 <= k < i ==> old(self).cards_in_deck@[k] != *card)
                    && final(self).cards_in_deck@ == old(self).cards_in_deck@.remove(i)
                    && final(self).dealt_cards@ == old(self).dealt_cards@.push(*card),
    {
        let mut i: usize = 0;
        while i < self.cards_in_deck.len()
            invariant
                i <= self.cards_in_deck@.len(),
                self == old(self),
                old(self).wf(),
                forall|k: int| 0 <= k < i ==> self.cards_in_deck@[k] != *card,
            decreases self.cards_in_deck@.len() - i,
        {
            if self.cards_in_deck[i] == *card {
                let c = self.cards_in_deck.remove(i);
                self.dealt_cards.push(c);
                proof {
                    assert(old(self).cards_in_deck@[i as int] == *card);
                    assert(old(self).cards_in_deck@.contains(*card));
                    assert forall|j: int| 0 <= j < self.cards_in_deck@.len()
                        implies (#[trigger] self.cards_in_deck@[j]).wf() by {
                        if j < i {
                            assert(self.cards_in_deck@[j] == old(self).cards_in_deck@[j]);
                        } else {
                            assert(self.cards_in_deck@[j] == old(self).cards_in_deck@[j + 1]);
                        }
                    }
                }
                return;
            }
            i = i + 1;
        }
        proof {
            assert(!old(self).cards_in_deck@.contains(*card));
        }
    }
}

/// Every card of the unshuffled full deck is well-formed.
pub proof fn lemma_full_deck_card_wf(j: int)
    requires
        0 <= j < 52,
    ensures
        full_deck_card(j).wf(),
{
    assert(0 <= j % 13 < 13 && 0 <= j / 13 < 4) by (nonlinear_arith)
        requires 0 <= j < 52,
    ;
}

} // verus!
