//! A playing card: face rank 2..=14 (ace high), one of four suits, and the
//! packed evaluation encoding kept alongside.

use vstd::prelude::*;
use crate::errors::PokerError;
use crate::eval_card::{EvaluationCard, spec_encode, valid_suit_bit, wf_card};

verus! {

/// Face value a rank string names: `"2"`..`"9"`, `"10"`/`"t"`/`"T"`, and the
/// letter names, case-insensitive.
pub open spec fn spec_rank_value(s: Seq<char>) -> Option<u8> {
    if s == "2"@ { Some(2u8) } else if s == "3"@ { Some(3u8) }
    else if s == "4"@ { Some(4u8) } else if s == "5"@ { Some(5u8) }
    else if s == "6"@ { Some(6u8) } else if s == "7"@ { Some(7u8) }
    else if s == "8"@ { Some(8u8) } else if s == "9"@ { Some(9u8) }
    else if s == "10"@ || s == "t"@ || s == "T"@ { Some(10u8) }
    else if s == "j"@ || s == "J"@ { Some(11u8) }
    else if s == "q"@ || s == "Q"@ { Some(12u8) }
    else if s == "k"@ || s == "K"@ { Some(13u8) }
    else if s == "a"@ || s == "A"@ { Some(14u8) }
    else { None }
}

/// A character matches a lowercase ASCII letter in either case.
pub open spec fn eq_ci(c: char, l: char) -> bool {
    c == l || c as int == l as int - 32
}

/// A string matches a lowercase name, character by character, ignoring
/// ASCII case.
pub open spec fn matches_ci(s: Seq<char>, name: Seq<char>) -> bool {
    s.len() == name.len() && forall|i: int| 0 <= i < s.len() ==> eq_ci(s[i], #[trigger] name[i])
}

/// Suit bit a suit name stands for, in any letter case.
pub open spec fn spec_suit_bit_of(s: Seq<char>) -> Option<u8> {
    if matches_ci(s, "spades"@) { Some(1u8) } else if matches_ci(s, "hearts"@) { Some(2u8) }
    else if matches_ci(s, "diamonds"@) { Some(4u8) } else if matches_ci(s, "clubs"@) {
        Some(8u8)
    } else { None }
}

/// String equality by view.
fn str_eq(a: &str, b: &str) -> (r: bool)
    ensures
        r == (a@ == b@),
{
    let s1: String = a.to_owned();
    let s2: String = b.to_owned();
    s1 == s2
}

/// Case-insensitive match of a string against a lowercase name.
fn str_eq_ci(s: &str, name: &str) -> (r: bool)
    ensures
        r == matches_ci(s@, name@),
{
    let n = s.unicode_len();
    if n != name.unicode_len() {
        return false;
    }
    let mut i: usize = 0;
    while i < n
        invariant
            i <= n,
            n == s@.len(),
            n == name@.len(),
            forall|k: int| 0 <= k < i ==> eq_ci(s@[k], #[trigger] name@[k]),
        decreases n - i,
    {
        let c = s.get_char(i);
        let l = name.get_char(i);
        let same = c == l || (l as u32 >= 32 && c as u32 == l as u32 - 32);
        if !same {
            return false;
        }
        i = i + 1;
    }
    true
}

/// A card: face rank, suit bit, and the packed evaluation integer.
#[derive(Clone, Copy, Debug, PartialEq, Eq, Hash, Structural)]
pub struct Card {
    /// Packed evaluation encoding of this card.
    pub eval_card: u32,
    /// Face value 2..=14, ace high.
    pub rank: u8,
    /// Suit bit: spades=1, hearts=2, diamonds=4, clubs=8.
    pub suit_bit: u8,
}

impl Card {
    /// The three fields agree and name a real card.
    pub open spec fn wf(self) -> bool {
        &&& 2 <= self.rank <= 14
        &&& valid_suit_bit(self.suit_bit as int)
        &&& self.eval_card == spec_encode(self.rank - 2, self.suit_bit as int)
    }

    /// Builds a card directly from a rank index (0..=12) and suit bit.
    pub fn from_parts(rank_index: u8, suit_bit: u8) -> (c: Card)
        requires
            rank_index < 13,
            valid_suit_bit(suit_bit as int),
        ensures
            c.wf(),
            c.rank == rank_index + 2,
            c.suit_bit == suit_bit,
    {
        let eval_card = EvaluationCard::encode(rank_index, suit_bit);
        Card { eval_card, rank: rank_index + 2, suit_bit }
    }

    /// Parses a rank name and a suit name; suit names match in any letter
    /// case.  Rejects an unknown rank with `InvalidRank` and an unknown suit
    /// with `InvalidSuit`.
    pub fn new(rank: &str, suit: &str) -> (r: Result<Card, PokerError>)
        ensures
            r is Ok <==> spec_rank_value(rank@) is Some && spec_suit_bit_of(suit@) is Some,
            r is Ok ==> {
                &&& r->Ok_0.wf()
                &&& r->Ok_0.rank == spec_rank_value(rank@)->0
                &&& r->Ok_0.suit_bit == spec_suit_bit_of(suit@)->0
            },
            r is Err ==> (r->Err_0 == PokerError::InvalidRank <==> spec_rank_value(rank@) is None),
            r is Err ==> (r->Err_0 == PokerError::InvalidSuit <==> (
                spec_rank_value(rank@) is Some && spec_suit_bit_of(suit@) is None)),
    {
        let rank_value: u8 = if str_eq(rank, "2") { 2 }
            else if str_eq(rank, "3") { 3 }
            else if str_eq(rank, "4") { 4 }
            else if str_eq(rank, "5") { 5 }
            else if str_eq(rank, "6") { 6 }
            else if str_eq(rank, "7") { 7 }
            else if str_eq(rank, "8") { 8 }
            else if str_eq(rank, "9") { 9 }
            else if str_eq(rank, "10") || str_eq(rank, "t") || str_eq(rank, "T") { 10 }
            else if str_eq(rank, "j") || str_eq(rank, "J") { 11 }
            else if str_eq(rank, "q") || str_eq(rank, "Q") { 12 }
            else if str_eq(rank, "k") || str_eq(rank, "K") { 13 }
            else if str_eq(rank, "a") || str_eq(rank, "A") { 14 }
            else { return Err(PokerError::InvalidRank); };

        let suit_bit: u8 = if str_eq_ci(suit, "spades") { 1 }
            else if str_eq_ci(suit, "hearts") { 2 }
            else if str_eq_ci(suit, "diamonds") { 4 }
            else if str_eq_ci(suit, "clubs") { 8 }
            else { return Err(PokerError::InvalidSuit); };

        Ok(Card::from_parts(rank_value - 2, suit_bit))
    }

    /// The packed evaluation integer.
    pub fn eval_card(&self) -> (r: u32)
        ensures
            r == self.eval_card,
    {
        self.eval_card
    }

    /// The face value, 2..=14.
    pub fn rank_int(&self) -> (r: u8)
        ensures
            r == self.rank,
    {
        self.rank
    }

    /// Long display name of a face value.
    pub fn rank_to_str(rank: u8) -> (r: Result<&'static str, PokerError>)
        ensures
            r is Ok <==> 2 <= rank <= 14,
    {
        match rank {
            2 => Ok("2"), 3 => Ok("3"), 4 => Ok("4"), 5 => Ok("5"), 6 => Ok("6"),
            7 => Ok("7"), 8 => Ok("8"), 9 => Ok("9"), 10 => Ok("10"),
            11 => Ok("jack"), 12 => Ok("queen"), 13 => Ok("king"), 14 => Ok("ace"),
            _ => Err(PokerError::InvalidRank),
        }
    }

    /// Short display character of a face value.
    pub fn rank_to_char(rank: u8) -> (r: Result<&'static str, PokerError>)
        ensures
            r is Ok <==> 2 <= rank <= 14,
    {
        match rank {
            2 => Ok("2"), 3 => Ok("3"), 4 => Ok("4"), 5 => Ok("5"), 6 => Ok("6"),
            7 => Ok("7"), 8 => Ok("8"), 9 => Ok("9"), 10 => Ok("T"),
            11 => Ok("J"), 12 => Ok("Q"), 13 => Ok("K"), 14 => Ok("A"),
            _ => Err(PokerError::InvalidRank),
        }
    }

    /// Long display name of this card's rank.
    pub fn rank_name(&self) -> (r: Result<&'static str, PokerError>)
        ensures
            r is Ok <==> 2 <= self.rank <= 14,
    {
        Self::rank_to_str(self.rank)
    }

    /// Display name of this card's suit.
    pub fn suit(&self) -> (r: Result<&'static str, PokerError>)
        ensures
            r is Ok <==> valid_suit_bit(self.suit_bit as int),
            self.suit_bit == 1 ==> r->Ok_0@ == "spades"@,
            self.suit_bit == 2 ==> r->Ok_0@ == "hearts"@,
            self.suit_bit == 4 ==> r->Ok_0@ == "diamonds"@,
            self.suit_bit == 8 ==> r->Ok_0@ == "clubs"@,
    {
        match self.suit_bit {
            1 => Ok("spades"),
            2 => Ok("hearts"),
            4 => Ok("diamonds"),
            8 => Ok("clubs"),
            _ => Err(PokerError::InvalidSuit),
        }
    }

    /// Icon of a suit name, in any letter case; unknown names are the
    /// caller's error.
    pub fn suit_to_icon(suit: &str) -> (r: Result<&'static str, PokerError>)
        ensures
            r is Ok <==> spec_suit_bit_of(suit@) is Some,
    {
        if str_eq_ci(suit, "hearts") { Ok("\u{2665}") }
        else if str_eq_ci(suit, "diamonds") { Ok("\u{2666}") }
        else if str_eq_ci(suit, "clubs") { Ok("\u{2663}") }
        else if str_eq_ci(suit, "spades") { Ok("\u{2660}") }
        else { Err(PokerError::InvalidSuit) }
    }

    /// The four suit names.
    pub fn get_all_suits() -> (r: Vec<&'static str>)
        ensures
            r@.len() == 4,
            r@[0]@ == "spades"@,
            r@[1]@ == "diamonds"@,
            r@[2]@ == "clubs"@,
            r@[3]@ == "hearts"@,
    {
        let mut suits: Vec<&'static str> = Vec::new();
        suits.push("spades");
        suits.push("diamonds");
        suits.push("clubs");
        suits.push("hearts");
        suits
    }
}

} // verus!
