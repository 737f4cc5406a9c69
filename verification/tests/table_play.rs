//! Decks, dealing, players and actions.

use poker_core::actions::{AbstractedRaise, Raise};
use poker_core::card::Card;
use poker_core::dealer::Dealer;
use poker_core::deck::Deck;
use poker_core::game::PokerGame;
use poker_core::player::Player;
use poker_core::pot::Pot;
use poker_core::state::PokerGameState;
use poker_core::table::PokerTable;

#[test]
fn a_fresh_deck_holds_all_52_cards_once() {
    let deck = Deck::new(None, None);
    assert_eq!(deck.cards_in_deck.len(), 52);
    assert_eq!(deck.dealt_cards.len(), 0);
    let mut seen = std::collections::HashSet::new();
    for c in &deck.cards_in_deck {
        assert!(seen.insert((c.rank, c.suit_bit)), "duplicate card");
    }
}

#[test]
fn picking_moves_cards_to_the_dealt_pile() {
    let mut deck = Deck::new(None, None);
    let c = deck.pick(true);
    assert_eq!(deck.cards_in_deck.len(), 51);
    assert_eq!(deck.dealt_cards, vec![c]);
    assert_eq!(deck.len(), 52);
    let top = *deck.cards_in_deck.last().expect("non-empty");
    let picked = deck.pick(false);
    assert_eq!(picked, top);
    assert_eq!(deck.len(), 52);
}

#[test]
fn removing_a_card_takes_it_out_once() {
    let mut deck = Deck::new(None, None);
    let target = deck.cards_in_deck[13];
    deck.remove(&target);
    assert_eq!(deck.cards_in_deck.len(), 51);
    assert!(!deck.cards_in_deck.contains(&target));
    assert_eq!(*deck.dealt_cards.last().expect("dealt"), target);
    // removing it again changes nothing
    deck.remove(&target);
    assert_eq!(deck.cards_in_deck.len(), 51);
}

#[test]
fn reset_rebuilds_from_the_menus() {
    let mut deck = Deck::new(Some(vec![1, 2]), Some(vec![2, 3, 4]));
    deck.pick(true);
    deck.reset();
    assert_eq!(deck.cards_in_deck.len(), 6);
    assert_eq!(deck.dealt_cards.len(), 0);
}

#[test]
fn the_dealer_hands_out_hole_and_community_cards() {
    let mut dealer = Dealer::new(None, None);
    let mut players = vec![
        Player::new("alice".to_string(), 100, 1),
        Player::new("bob".to_string(), 100, 2),
    ];
    dealer.deal_private_cards(&mut players);
    assert_eq!(players[0].cards.len(), 2);
    assert_eq!(players[1].cards.len(), 2);

    let mut table = PokerTable::new(players, Pot::new(), None, None);
    dealer.deal_flop(&mut table);
    dealer.deal_turn(&mut table);
    dealer.deal_river(&mut table);
    assert_eq!(table.community_cards.len(), 5);
    assert_eq!(dealer.deck.cards_in_deck.len(), 52 - 4 - 5);
}

#[test]
fn the_game_deals_too() {
    let players = vec![
        Player::new("alice".to_string(), 100, 1),
        Player::new("bob".to_string(), 100, 2),
    ];
    let mut game = PokerGame::new(players, Pot::new(), None, None);
    assert_eq!(game.n_players(), 2);
    game.deal_private_cards();
    game.deal_flop();
    game.deal_turn();
    game.deal_river();
    assert_eq!(game.community_cards.len(), 5);
    assert_eq!(game.players[0].cards.len(), 2);
    assert_eq!(game.deck.cards_in_deck.len(), 52 - 4 - 5);
}

#[test]
fn player_moves_cap_at_the_stack() {
    let mut pot = Pot::new();
    let mut p = Player::new("alice".to_string(), 30, 1);
    assert!(p.is_active());
    assert!(!p.is_all_in());

    let bet = p.add_to_pot(&mut pot, 100);
    assert_eq!(bet, 30);
    assert_eq!(p.n_chips, 0);
    assert!(p.is_all_in());
    assert_eq!(p.n_bet_chips(&pot), 30);

    p.add_chips(12);
    assert_eq!(p.n_chips, 12);
    p.fold();
    assert!(!p.is_active());
    p.set_active(true);
    assert!(p.is_active());
}

#[test]
fn calling_matches_the_biggest_bet() {
    let mut pot = Pot::new();
    let mut alice = Player::new("alice".to_string(), 100, 1);
    let mut bob = Player::new("bob".to_string(), 100, 2);
    alice.raise_to(&mut pot, 40);
    bob.call(40, &mut pot);
    assert_eq!(pot.get_contribution(1), 40);
    assert_eq!(pot.get_contribution(2), 40);
    assert_eq!(bob.n_chips, 60);
}

#[test]
fn raises_report_what_was_actually_bet() {
    let mut pot = Pot::new();
    let mut p = Player::new("alice".to_string(), 25, 1);
    let raise = p.raise_to(&mut pot, 60);
    assert_eq!(raise.amount, 25);

    let mut plain = Raise::new();
    assert_eq!(plain.amount, 0);
    plain.set_amount(7);
    assert_eq!(plain.amount, 7);
}

#[test]
fn abstracted_raises_accept_only_the_menu() {
    let mut action = AbstractedRaise::new(vec![10, 100, 500]);
    assert_eq!(action.allowed_amounts(), &vec![10, 100, 500]);
    assert!(action.call(100).is_ok());
    assert_eq!(action.amount, 100);
    assert!(action.call(35).is_err());
    assert_eq!(action.amount, 100);
}

#[test]
fn game_states_start_open() {
    let players = vec![
        Player::new("alice".to_string(), 100, 1),
        Player::new("bob".to_string(), 100, 2),
    ];
    let game = PokerGame::new(players, Pot::new(), None, None);
    let state = PokerGameState::new_hand(game);
    assert!(!state.is_terminal());
    assert!(!state.is_chance_node());
    assert_eq!(state.current_player(), None);
}
