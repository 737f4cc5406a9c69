//! Hand evaluation: codec, tables, ranks and classes.

use poker_core::card::Card;
use poker_core::errors::PokerError;
use poker_core::eval_card::EvaluationCard;
use poker_core::evaluator::Evaluator;
use poker_core::lookup::{LookupTable, RANK_CLASS_TO_STRING};

fn card(rank: &str, suit: &str) -> Card {
    Card::new(rank, suit).expect("valid card")
}

fn eval(evaluator: &Evaluator, names: &[(&str, &str)]) -> u32 {
    let hole: Vec<Card> = names[..2].iter().map(|(r, s)| card(r, s)).collect();
    let board: Vec<Card> = names[2..].iter().map(|(r, s)| card(r, s)).collect();
    evaluator.evaluate(&hole, &board).expect("evaluation succeeds")
}

#[test]
fn table_counts_are_exact() {
    let table = LookupTable::new().expect("table builds");
    assert_eq!(table.flush_lookup.len(), 1287);
    assert_eq!(table.unsuited_lookup.len(), 6175);
}

#[test]
fn every_rank_is_achieved() {
    let table = LookupTable::new().expect("table builds");
    let mut seen = vec![false; 7463];
    for &(_, rank) in table.flush_lookup.iter().chain(table.unsuited_lookup.iter()) {
        assert!(1 <= rank && rank <= 7462, "rank {rank} out of range");
        seen[rank as usize] = true;
    }
    for rank in 1..=7462usize {
        assert!(seen[rank], "rank {rank} never assigned");
    }
}

#[test]
fn royal_flush_is_rank_one() {
    let evaluator = Evaluator::new().expect("tables build");
    let rank = eval(
        &evaluator,
        &[("a", "spades"), ("k", "spades"), ("q", "spades"), ("j", "spades"), ("10", "spades")],
    );
    assert_eq!(rank, 1);
    assert_eq!(evaluator.get_rank_class(rank), Ok(1));
    assert_eq!(evaluator.class_to_string(1), Ok("Straight Flush"));
}

#[test]
fn wheel_straight_flush_is_rank_ten() {
    let evaluator = Evaluator::new().expect("tables build");
    let rank = eval(
        &evaluator,
        &[("5", "hearts"), ("4", "hearts"), ("3", "hearts"), ("2", "hearts"), ("a", "hearts")],
    );
    assert_eq!(rank, 10);
}

#[test]
fn worst_hand_is_rank_7462() {
    let evaluator = Evaluator::new().expect("tables build");
    let rank = eval(
        &evaluator,
        &[("7", "spades"), ("5", "hearts"), ("4", "diamonds"), ("3", "clubs"), ("2", "spades")],
    );
    assert_eq!(rank, 7462);
    assert_eq!(evaluator.get_rank_class(rank), Ok(9));
    assert_eq!(evaluator.class_to_string(9), Ok("High Card"));
}

#[test]
fn quad_aces_king_kicker_is_rank_11() {
    let evaluator = Evaluator::new().expect("tables build");
    let rank = eval(
        &evaluator,
        &[("a", "spades"), ("a", "hearts"), ("a", "diamonds"), ("a", "clubs"), ("k", "spades")],
    );
    assert_eq!(rank, 11);
    assert_eq!(evaluator.get_rank_class(rank), Ok(2));
}

#[test]
fn worst_full_house_is_rank_322() {
    let evaluator = Evaluator::new().expect("tables build");
    let rank = eval(
        &evaluator,
        &[("2", "spades"), ("2", "hearts"), ("2", "diamonds"), ("3", "clubs"), ("3", "spades")],
    );
    assert_eq!(rank, 322);
    assert_eq!(evaluator.get_rank_class(rank), Ok(3));
}

#[test]
fn evaluation_ignores_card_order() {
    let evaluator = Evaluator::new().expect("tables build");
    let a = eval(
        &evaluator,
        &[("9", "clubs"), ("9", "diamonds"), ("k", "hearts"), ("4", "spades"), ("7", "clubs")],
    );
    let b = eval(
        &evaluator,
        &[("7", "clubs"), ("4", "spades"), ("9", "diamonds"), ("k", "hearts"), ("9", "clubs")],
    );
    assert_eq!(a, b);
}

#[test]
fn seven_cards_take_the_best_five() {
    let evaluator = Evaluator::new().expect("tables build");
    // seven cards containing a royal flush
    let rank7 = eval(
        &evaluator,
        &[
            ("2", "clubs"), ("7", "diamonds"), ("a", "spades"), ("k", "spades"),
            ("q", "spades"), ("j", "spades"), ("10", "spades"),
        ],
    );
    assert_eq!(rank7, 1);
}

#[test]
fn seven_card_rank_is_at_most_every_subset() {
    let evaluator = Evaluator::new().expect("tables build");
    let seven = [
        ("9", "clubs"), ("9", "diamonds"), ("k", "hearts"), ("4", "spades"),
        ("7", "clubs"), ("2", "diamonds"), ("j", "hearts"),
    ];
    let rank7 = eval(&evaluator, &seven);
    // drop each pair of positions in turn and evaluate the 5-card subset
    for i in 0..7 {
        for j in (i + 1)..7 {
            let subset: Vec<(&str, &str)> = seven
                .iter()
                .enumerate()
                .filter(|(k, _)| *k != i && *k != j)
                .map(|(_, c)| *c)
                .collect();
            let rank5 = eval(&evaluator, &subset);
            assert!(rank7 <= rank5, "subset without {i},{j} beat the 7-card rank");
        }
    }
}

#[test]
fn six_cards_work_too() {
    let evaluator = Evaluator::new().expect("tables build");
    let rank6 = eval(
        &evaluator,
        &[
            ("8", "clubs"), ("8", "diamonds"), ("8", "hearts"), ("4", "spades"),
            ("4", "clubs"), ("2", "diamonds"),
        ],
    );
    // the best five cards make eights full of fours
    let rank5 = eval(
        &evaluator,
        &[
            ("8", "clubs"), ("8", "diamonds"), ("8", "hearts"), ("4", "spades"), ("4", "clubs"),
        ],
    );
    assert_eq!(rank6, rank5);
}

#[test]
fn wrong_hand_size_is_rejected() {
    let evaluator = Evaluator::new().expect("tables build");
    let hole = vec![card("a", "spades"), card("k", "spades")];
    let board = vec![card("q", "spades"), card("j", "spades")];
    assert_eq!(evaluator.evaluate(&hole, &board), Err(PokerError::InvalidHandSize));
    let empty: Vec<Card> = Vec::new();
    assert_eq!(evaluator.evaluate(&empty, &empty), Err(PokerError::InvalidHandSize));
}

#[test]
fn empty_table_reports_corruption() {
    let evaluator = Evaluator {
        table: LookupTable { flush_lookup: Vec::new(), unsuited_lookup: Vec::new() },
    };
    let hole = vec![card("a", "spades"), card("k", "spades")];
    let board = vec![card("q", "spades"), card("j", "spades"), card("10", "spades")];
    assert_eq!(evaluator.evaluate(&hole, &board), Err(PokerError::CorruptTable));
}

#[test]
fn rank_class_boundaries() {
    let evaluator = Evaluator::new().expect("tables build");
    let cases = [
        (1, 1), (10, 1), (11, 2), (166, 2), (167, 3), (322, 3), (323, 4), (1599, 4),
        (1600, 5), (1609, 5), (1610, 6), (2467, 6), (2468, 7), (3325, 7), (3326, 8),
        (6185, 8), (6186, 9), (7462, 9),
    ];
    for (rank, class) in cases {
        assert_eq!(evaluator.get_rank_class(rank), Ok(class), "rank {rank}");
    }
    assert_eq!(evaluator.get_rank_class(0), Err(PokerError::InvalidRank));
    assert_eq!(evaluator.get_rank_class(7463), Err(PokerError::InvalidRank));
}

#[test]
fn class_names() {
    let names = [
        "Straight Flush", "Four of a Kind", "Full House", "Flush", "Straight",
        "Three of a Kind", "Two Pair", "Pair", "High Card",
    ];
    for (i, name) in names.iter().enumerate() {
        assert_eq!(RANK_CLASS_TO_STRING(i as u32 + 1), Ok(*name));
    }
    assert_eq!(RANK_CLASS_TO_STRING(0), Err(PokerError::InvalidRank));
    assert_eq!(RANK_CLASS_TO_STRING(10), Err(PokerError::InvalidRank));
}

#[test]
fn packed_encoding_matches_the_layout() {
    // king of spades: bitrank 1<<11, suit 1, rank index 11, prime 37
    let ks = EvaluationCard::new("Ks").expect("valid");
    assert_eq!(ks, (1u32 << 11) << 16 | 1 << 12 | 11 << 8 | 37);
    assert_eq!(ks, 134224677);
    assert_eq!(EvaluationCard::get_rank_int(ks), 11);
    assert_eq!(EvaluationCard::get_suit_int(ks), 1);
    assert_eq!(EvaluationCard::get_bitrank_int(ks), 1 << 11);
    assert_eq!(EvaluationCard::get_prime(ks), 37);
}

#[test]
fn codec_rejects_nonsense() {
    assert_eq!(EvaluationCard::new("Xs"), Err(PokerError::InvalidRank));
    assert_eq!(EvaluationCard::new("Kx"), Err(PokerError::InvalidSuit));
    assert_eq!(EvaluationCard::new(""), Err(PokerError::InvalidRank));
}

#[test]
fn int_to_str_round_trips() {
    for name in ["As", "Kh", "Td", "2c", "9s"] {
        let packed = EvaluationCard::new(name).expect("valid");
        assert_eq!(EvaluationCard::int_to_str(packed).expect("wf"), name);
    }
}

#[test]
fn prime_products() {
    // ranks 2..6 set: primes 2*3*5*7*11
    assert_eq!(EvaluationCard::prime_product_from_rankbits(0b11111), 2310);
    // the same five cards by hand
    let cards: Vec<u32> = ["2s", "3h", "4d", "5c", "6s"]
        .iter()
        .map(|n| EvaluationCard::new(n).expect("valid"))
        .collect();
    assert_eq!(EvaluationCard::prime_product_from_hand(&cards), 2310);
}

#[test]
fn suit_names_match_in_any_letter_case() {
    assert_eq!(Card::new("a", "SPADES"), Card::new("a", "spades"));
    assert_eq!(Card::new("k", "Hearts"), Card::new("k", "hearts"));
    assert_eq!(Card::new("2", "dIaMoNdS"), Card::new("2", "diamonds"));
    assert_eq!(Card::suit_to_icon("CLUBS"), Ok("\u{2663}"));
    assert_eq!(Card::new("2", "spade"), Err(PokerError::InvalidSuit));
}

#[test]
fn card_parsing() {
    let c = card("10", "hearts");
    assert_eq!(c.rank, 10);
    assert_eq!(c.suit_bit, 2);
    assert_eq!(c.suit(), Ok("hearts"));
    assert_eq!(card("t", "hearts"), c);
    assert_eq!(card("T", "hearts"), c);
    assert_eq!(Card::new("x", "spades"), Err(PokerError::InvalidRank));
    assert_eq!(Card::new("2", "spoons"), Err(PokerError::InvalidSuit));
    assert_eq!(Card::new("11", "spades"), Err(PokerError::InvalidRank));
    assert_eq!(c.rank_name(), Ok("10"));
    assert_eq!(card("j", "clubs").rank_name(), Ok("jack"));
    assert_eq!(Card::suit_to_icon("hearts"), Ok("\u{2665}"));
    assert!(Card::suit_to_icon("cups").is_err());
    assert_eq!(Card::get_all_suits().len(), 4);
}
