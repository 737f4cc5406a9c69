//! Side pots, payouts, and the engine around them.

use poker_core::engine::{PokerEngine, rank_groups, winners_from_ranks};
use poker_core::errors::PokerError;
use poker_core::game::PokerGame;
use poker_core::player::Player;
use poker_core::pot::{Pot, SidePot};
use poker_core::settlement::{compute_payouts, process_side_pot};

fn paid(payouts: &[(u32, u64)], pid: u32) -> u64 {
    payouts.iter().find(|(p, _)| *p == pid).map(|(_, a)| *a).unwrap_or(0)
}

#[test]
fn side_pots_conserve_the_ledger() {
    let mut pot = Pot::new();
    pot.add_chips(1, 100); // player A
    pot.add_chips(2, 100); // player B
    pot.add_chips(3, 50);  // player C
    assert_eq!(pot.total(), 250);

    let pots = pot.side_pots();
    assert_eq!(pots.len(), 2);
    assert_eq!(pots[0].total(), 150);
    assert_eq!(pots[1].total(), 100);
    assert_eq!(pots.iter().map(|p| p.total()).sum::<u64>(), pot.total());

    // layer 1 charges everyone 50; layer 2 only the two deep stacks
    assert_eq!(pots[0].get_contribution(1), 50);
    assert_eq!(pots[0].get_contribution(2), 50);
    assert_eq!(pots[0].get_contribution(3), 50);
    assert_eq!(pots[1].get_contribution(1), 50);
    assert_eq!(pots[1].get_contribution(2), 50);
    assert_eq!(pots[1].get_contribution(3), 0);
}

#[test]
fn settlement_example_with_a_short_stack_winner() {
    let mut pot = Pot::new();
    pot.add_chips(1, 100); // A
    pot.add_chips(2, 100); // B
    pot.add_chips(3, 50);  // C, all-in, best hand
    let pots = pot.side_pots();

    let ranked_groups: Vec<Vec<u32>> = vec![vec![3], vec![1, 2]];
    let payouts = compute_payouts(&ranked_groups, &pots).expect("every pot has a winner");

    assert_eq!(paid(&payouts, 3), 150);
    assert_eq!(paid(&payouts, 1), 50);
    assert_eq!(paid(&payouts, 2), 50);
    let total: u64 = payouts.iter().map(|(_, a)| a).sum();
    assert_eq!(total, 250);
}

#[test]
fn remainder_goes_to_the_earliest_winners() {
    let pot = SidePot { pot: vec![(1, 34), (2, 34), (3, 33)] };
    let group = vec![1, 2, 3];
    let payouts = process_side_pot(&group, &pot);
    assert_eq!(payouts, vec![(1, 34), (2, 34), (3, 33)]);
    let total: u64 = payouts.iter().map(|(_, a)| a).sum();
    assert_eq!(total, 101);
}

#[test]
fn group_without_contributors_gets_nothing() {
    let pot = SidePot { pot: vec![(1, 10), (2, 10)] };
    let folded_group = vec![7, 8];
    assert_eq!(process_side_pot(&folded_group, &pot).len(), 0);
}

#[test]
fn unclaimed_pot_is_fatal() {
    let pot = SidePot { pot: vec![(9, 40)] };
    let ranked_groups: Vec<Vec<u32>> = vec![vec![1], vec![2]];
    assert_eq!(
        compute_payouts(&ranked_groups, &vec![pot]),
        Err(PokerError::NoWinnerForPot)
    );
}

#[test]
fn zero_contributions_never_join_a_layer() {
    let mut pot = Pot::new();
    pot.add_chips(1, 0);
    pot.add_chips(2, 5);
    let pots = pot.side_pots();
    // only the minimum nonzero level is peeled: one layer, owned by player 2
    assert_eq!(pots.len(), 1);
    assert_eq!(pots[0].total(), 5);
    assert_eq!(pots[0].get_contribution(1), 0);
    assert_eq!(pots[0].get_contribution(2), 5);
}

#[test]
fn uneven_bets_mean_more_betting() {
    let players = vec![
        Player::new("alice".to_string(), 100, 1),
        Player::new("bob".to_string(), 100, 2),
    ];
    let game = PokerGame::new(players, Pot::new(), None, None);
    let mut engine = PokerEngine::new(game, 5, 10).expect("tables build");
    engine.assign_blinds();
    // alice posted 5, bob posted 10, both still have chips to act with
    assert!(engine.more_betting_needed());
}

#[test]
fn pot_bookkeeping() {
    let mut pot = Pot::new();
    assert_eq!(pot.uid().len(), 32);
    assert_eq!(pot.total(), 0);
    pot.add_chips(5, 30);
    pot.add_chips(5, 12);
    assert_eq!(pot.get_contribution(5), 42);
    assert_eq!(pot.get_contribution(6), 0);
    assert_eq!(pot.total(), 42);
    let uid_before = pot.uid().to_string();
    pot.reset();
    assert_eq!(pot.total(), 0);
    assert_eq!(pot.uid(), uid_before);
}

#[test]
fn fresh_pots_get_distinct_uids() {
    let a = Pot::new();
    let b = Pot::new();
    assert_ne!(a.uid(), b.uid());
}

#[test]
fn winners_are_the_argmin_in_seat_order() {
    let ranks = vec![5u32, 3, 7, 3];
    let (winners, best) = winners_from_ranks(&ranks);
    assert_eq!(best, 3);
    assert_eq!(winners, vec![1, 3]);
}

#[test]
fn groups_come_out_by_ascending_rank() {
    let pairs = vec![(5u32, 10u32), (3, 11), (5, 12)];
    let (ranks, groups) = rank_groups(&pairs);
    assert_eq!(ranks, vec![3, 5]);
    assert_eq!(groups, vec![vec![11], vec![10, 12]]);
}

#[test]
fn one_round_returns_all_chips_to_the_table() {
    let players = vec![
        Player::new("alice".to_string(), 100, 1),
        Player::new("bob".to_string(), 100, 2),
        Player::new("carol".to_string(), 100, 3),
    ];
    let game = PokerGame::new(players, Pot::new(), None, None);
    assert_eq!(game.total_n_chips_on_table, 300);
    let mut engine = PokerEngine::new(game, 10, 20).expect("tables build");
    engine.play_one_round().expect("round settles");
    assert_eq!(engine.game.pot.total(), 0);
    let sum: u64 = engine.game.players.iter().map(|p| p.n_chips).sum();
    assert_eq!(sum, 300);
}

#[test]
fn betting_state_queries() {
    let players = vec![
        Player::new("alice".to_string(), 100, 1),
        Player::new("bob".to_string(), 0, 2),
    ];
    let game = PokerGame::new(players, Pot::new(), None, None);
    let mut engine = PokerEngine::new(game, 5, 10).expect("tables build");
    assert_eq!(engine.n_active_players(), 2);
    assert_eq!(engine.n_all_in_players(), 1);
    assert_eq!(engine.n_players_with_moves(), 1);
    assert!(!engine.more_betting_needed());

    // alice posts a blind: her bet differs from nobody's (bob cannot bet)
    engine.assign_blinds();
    assert!(!engine.more_betting_needed());
    assert_eq!(engine.all_bets(), vec![5, 0]);
}

#[test]
fn post_betting_analysis_checks_the_books() {
    let players = vec![
        Player::new("alice".to_string(), 50, 1),
        Player::new("bob".to_string(), 50, 2),
    ];
    let game = PokerGame::new(players, Pot::new(), None, None);
    let mut engine = PokerEngine::new(game, 5, 10).expect("tables build");
    // nothing bet yet: pot (0) differs from stacks (100)
    assert!(!engine.post_betting_analysis());
    // after everyone is all-in, pot total equals remaining stacks only if both are 50+50 vs 0
    let mut p0 = engine.game.players.remove(0);
    p0.add_to_pot(&mut engine.game.pot, 50);
    engine.game.players.insert(0, p0);
    let mut p1 = engine.game.players.remove(1);
    p1.add_to_pot(&mut engine.game.pot, 50);
    engine.game.players.insert(1, p1);
    // pot == 100, stacks == 0: totals conserved but pot != stacks
    assert!(!engine.post_betting_analysis());
}
