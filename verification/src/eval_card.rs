//! Card codec.  A card is a packed 32-bit integer:
//!
//! ```text
//!                  bitrank     suit rank   prime
//!            +--------+--------+--------+--------+
//!            |xxxbbbbb|bbbbbbbb|cdhsrrrr|xxpppppp|
//!            +--------+--------+--------+--------+
//! ```
//!
//! * `p` — prime number of the rank (deuce=2, trey=3, ..., ace=41)
//! * `r` — rank index of the card (deuce=0, ..., ace=12)
//! * `cdhs` — one bit per suit (spades=1, hearts=2, diamonds=4, clubs=8)
//! * `b` — one bit per rank, mirrors `r`
//!
//! The encoding gives each hand a unique prime product and makes flushes and
//! straights cheap to detect.

use vstd::prelude::*;
use vstd::string::StringSliceAdditionalSpecFns;
use crate::errors::PokerError;

verus! {

/// Prime assigned to each of the 13 rank indices (deuce through ace).
pub open spec fn prime_of(i: int) -> u64 {
    if i == 0 { 2 } else if i == 1 { 3 } else if i == 2 { 5 } else if i == 3 { 7 }
    else if i == 4 { 11 } else if i == 5 { 13 } else if i == 6 { 17 } else if i == 7 { 19 }
    else if i == 8 { 23 } else if i == 9 { 29 } else if i == 10 { 31 } else if i == 11 { 37 }
    else if i == 12 { 41 } else { 0 }
}

/// There are 13 rank indices, 0 (deuce) through 12 (ace).
pub open spec fn valid_rank_index(i: int) -> bool {
    0 <= i < 13
}

/// A suit is one bit of the `cdhs` nibble.
pub open spec fn valid_suit_bit(s: int) -> bool {
    s == 1 || s == 2 || s == 4 || s == 8
}

/// The packed encoding of a card with rank index `r` and suit bit `s`.
pub open spec fn spec_encode(r: int, s: int) -> u32
    recommends
        valid_rank_index(r),
        valid_suit_bit(s),
{
    (((1u32 << (r as u32)) << 16) | ((s as u32) << 12) | ((r as u32) << 8)
        | (prime_of(r) as u32))
}

/// Rank index carried in bits 8..12 of a packed card.
pub open spec fn spec_rank_int(c: u32) -> u32 {
    (c >> 8) & 0xF
}

/// Suit nibble carried in bits 12..16 of a packed card.
pub open spec fn spec_suit_int(c: u32) -> u32 {
    (c >> 12) & 0xF
}

/// Rank-presence mask carried in bits 16..29 of a packed card.
pub open spec fn spec_bitrank_int(c: u32) -> u32 {
    (c >> 16) & 0x1FFF
}

/// Prime carried in the low byte of a packed card.
pub open spec fn spec_prime_int(c: u32) -> u32 {
    c & 0x3F
}

/// A well-formed packed card: the four fields are consistent and name a real
/// rank and suit.  Exactly one rank bit and one suit bit are set.
pub open spec fn wf_card(c: u32) -> bool {
    valid_rank_index(spec_rank_int(c) as int)
    && valid_suit_bit(spec_suit_int(c) as int)
    && c == spec_encode(spec_rank_int(c) as int, spec_suit_int(c) as int)
}

/// Field extraction inverts the packing, as long as the prime fits its 6 bits
/// and the rank and suit are real.
pub proof fn lemma_encode_fields(r: u32, s: u32, p: u32)
    requires
        r < 13,
        s == 1 || s == 2 || s == 4 || s == 8,
        p < 64,
    ensures
        (((((1u32 << r) << 16) | (s << 12) | (r << 8) | p) >> 8) & 0xF) == r,
        (((((1u32 << r) << 16) | (s << 12) | (r << 8) | p) >> 12) & 0xF) == s,
        (((((1u32 << r) << 16) | (s << 12) | (r << 8) | p) >> 16) & 0x1FFF) == (1u32 << r),
        ((((1u32 << r) << 16) | (s << 12) | (r << 8) | p) & 0x3F) == p,
        ((((1u32 << r) << 16) | (s << 12) | (r << 8) | p) & 0xFF) == p,
{
    assert((((((1u32 << r) << 16) | (s << 12) | (r << 8) | p) >> 8) & 0xF) == r
        && (((((1u32 << r) << 16) | (s << 12) | (r << 8) | p) >> 12) & 0xF) == s
        && (((((1u32 << r) << 16) | (s << 12) | (r << 8) | p) >> 16) & 0x1FFF) == (1u32 << r)
        && ((((1u32 << r) << 16) | (s << 12) | (r << 8) | p) & 0x3F) == p
        && ((((1u32 << r) << 16) | (s << 12) | (r << 8) | p) & 0xFF) == p) by (bit_vector)
        requires
            r < 13,
            s == 1 || s == 2 || s == 4 || s == 8,
            p < 64,
    ;
}

/// Product of the low-byte prime fields of a hand, the unsuited lookup key.
pub open spec fn spec_prime_product(s: Seq<u32>) -> int
    decreases s.len(),
{
    if s.len() == 0 {
        1
    } else {
        spec_prime_product(s.drop_last()) * ((s.last() & 0xFF) as int)
    }
}

/// Powers of 255, the largest value a card's low byte can take.
pub open spec fn pow255(i: int) -> int {
    if i <= 0 { 1 } else if i == 1 { 255 } else if i == 2 { 65025 }
    else if i == 3 { 16581375 } else if i == 4 { 4228250625 }
    else if i == 5 { 1078203909375 } else if i == 6 { 274941996890625 }
    else { 70110209207109375 }
}

/// The prime product of a hand of at most 7 cards fits comfortably in `u64`.
pub proof fn lemma_prime_product_bound(s: Seq<u32>)
    requires
        s.len() <= 7,
    ensures
        0 <= spec_prime_product(s) <= pow255(s.len() as int),
        pow255(s.len() as int) <= 70110209207109375,
    decreases s.len(),
{
    if s.len() > 0 {
        lemma_prime_product_bound(s.drop_last());
        let p = spec_prime_product(s.drop_last());
        let b = pow255(s.len() - 1);
        let c = s.last();
        let f = (c & 0xFF) as int;
        assert(c & 0xFF < 256) by (bit_vector);
        assert(0 <= p * f && p * f <= b * 255) by (nonlinear_arith)
            requires
                0 <= p <= b,
                0 <= f < 256,
        ;
    }
}

/// Product of the primes of the rank bits set in the low 13 bits of a mask,
/// the flush/straight lookup key.
pub open spec fn spec_prime_product_of_mask(m: u32) -> int {
    ppm_rec(m, 13)
}

pub open spec fn ppm_rec(m: u32, i: int) -> int
    decreases i,
{
    if i <= 0 {
        1
    } else {
        ppm_rec(m, i - 1) * (if m & (1u32 << ((i - 1) as u32)) != 0 { prime_of(i - 1) as int } else { 1 })
    }
}

/// Rank index named by a rank character byte (`'2'..'9'`, `'T'`, `'J'`,
/// `'Q'`, `'K'`, `'A'`), if any.
pub open spec fn spec_rank_char(c: u8) -> Option<u8> {
    if c == 50 { Some(0u8) } else if c == 51 { Some(1u8) } else if c == 52 { Some(2u8) }
    else if c == 53 { Some(3u8) } else if c == 54 { Some(4u8) } else if c == 55 { Some(5u8) }
    else if c == 56 { Some(6u8) } else if c == 57 { Some(7u8) } else if c == 84 { Some(8u8) }
    else if c == 74 { Some(9u8) } else if c == 81 { Some(10u8) } else if c == 75 { Some(11u8) }
    else if c == 65 { Some(12u8) } else { None }
}

/// Suit bit named by a suit character byte (`'s'`, `'h'`, `'d'`, `'c'`), if
/// any.
pub open spec fn spec_suit_char(c: u8) -> Option<u8> {
    if c == 115 { Some(1u8) } else if c == 104 { Some(2u8) } else if c == 100 { Some(4u8) }
    else if c == 99 { Some(8u8) } else { None }
}

/// Whether a byte string names a card: a rank character then a suit
/// character.
pub open spec fn spec_card_string_ok(b: Seq<u8>) -> bool {
    b.len() == 2 && spec_rank_char(b[0]) is Some && spec_suit_char(b[1]) is Some
}

/// Static card handling: all operations work on the packed integers.
pub struct EvaluationCard;

impl EvaluationCard {
    /// Packs a rank index and suit bit into a card integer.
    pub fn encode(rank_index: u8, suit_bit: u8) -> (c: u32)
        requires
            valid_rank_index(rank_index as int),
            valid_suit_bit(suit_bit as int),
        ensures
            c == spec_encode(rank_index as int, suit_bit as int),
            wf_card(c),
            spec_rank_int(c) == rank_index,
            spec_suit_int(c) == suit_bit,
    {
        let prime: u32 = Self::prime_of_rank(rank_index);
        let c: u32 = (((1u32 << (rank_index as u32)) << 16)
            | ((suit_bit as u32) << 12)
            | ((rank_index as u32) << 8)
            | prime);
        proof {
            lemma_encode_fields(rank_index as u32, suit_bit as u32, prime);
        }
        c
    }

    /// The prime associated with a rank index.
    pub fn prime_of_rank(rank_index: u8) -> (p: u32)
        requires
            valid_rank_index(rank_index as int),
        ensures
            p == prime_of(rank_index as int),
            2 <= p <= 41,
    {
        match rank_index {
            0 => 2, 1 => 3, 2 => 5, 3 => 7, 4 => 11, 5 => 13, 6 => 17, 7 => 19,
            8 => 23, 9 => 29, 10 => 31, 11 => 37, _ => 41,
        }
    }

    /// Rank index of a packed card (deuce=0 .. ace=12).
    pub fn get_rank_int(card_int: u32) -> (r: u32)
        ensures
            r == spec_rank_int(card_int),
            r < 16,
    {
        let r: u32 = (card_int >> 8) & 0xF;
        assert(((card_int >> 8) & 0xF) < 16) by (bit_vector);
        r
    }

    /// Suit nibble of a packed card (one bit set for a well-formed card).
    pub fn get_suit_int(card_int: u32) -> (s: u32)
        ensures
            s == spec_suit_int(card_int),
            s < 16,
    {
        let s: u32 = (card_int >> 12) & 0xF;
        assert(((card_int >> 12) & 0xF) < 16) by (bit_vector);
        s
    }

    /// Rank-presence mask of a packed card.
    pub fn get_bitrank_int(card_int: u32) -> (b: u32)
        ensures
            b == spec_bitrank_int(card_int),
            b < 0x2000,
    {
        let b: u32 = (card_int >> 16) & 0x1FFF;
        assert(((card_int >> 16) & 0x1FFF) < 0x2000) by (bit_vector);
        b
    }

    /// Prime field of a packed card.
    pub fn get_prime(card_int: u32) -> (p: u32)
        ensures
            p == spec_prime_int(card_int),
    {
        card_int & 0x3F
    }

    /// Parses a two-character card string such as `"As"` or `"Td"`: a rank
    /// character from `23456789TJQKA` followed by a suit character from
    /// `shdc`.  Rejects anything else: a bad length or rank character is
    /// `InvalidRank`, a bad suit character `InvalidSuit`.
    pub fn new(string: &str) -> (r: Result<u32, PokerError>)
        ensures
            r is Ok <==> spec_card_string_ok(string.spec_bytes()),
            r is Ok ==> r->Ok_0 == spec_encode(
                spec_rank_char(string.spec_bytes()[0])->0 as int,
                spec_suit_char(string.spec_bytes()[1])->0 as int,
            ) && wf_card(r->Ok_0),
            r is Err ==> (r->Err_0 == PokerError::InvalidRank <==> (
                string.spec_bytes().len() != 2
                    || spec_rank_char(string.spec_bytes()[0]) is None)),
            r is Err ==> (r->Err_0 == PokerError::InvalidSuit <==> (
                string.spec_bytes().len() == 2
                    && spec_rank_char(string.spec_bytes()[0]) is Some
                    && spec_suit_char(string.spec_bytes()[1]) is None)),
    {
        let b: &[u8] = string.as_bytes();
        if b.len() != 2 {
            return Err(PokerError::InvalidRank);
        }
        let rank_index: u8 = match Self::rank_char_to_index(b[0]) {
            Some(i) => i,
            None => { return Err(PokerError::InvalidRank); },
        };
        let suit_bit: u8 = match Self::suit_char_to_bit(b[1]) {
            Some(s) => s,
            None => { return Err(PokerError::InvalidSuit); },
        };
        Ok(Self::encode(rank_index, suit_bit))
    }

    /// Rank character (byte) to rank index: `'2'..'9'`, `'T'`, `'J'`, `'Q'`,
    /// `'K'`, `'A'`.
    pub fn rank_char_to_index(c: u8) -> (r: Option<u8>)
        ensures
            r == spec_rank_char(c),
            r is Some ==> valid_rank_index(r->0 as int),
    {
        match c {
            50 => Some(0),   // '2'
            51 => Some(1),   // '3'
            52 => Some(2),   // '4'
            53 => Some(3),   // '5'
            54 => Some(4),   // '6'
            55 => Some(5),   // '7'
            56 => Some(6),   // '8'
            57 => Some(7),   // '9'
            84 => Some(8),   // 'T'
            74 => Some(9),   // 'J'
            81 => Some(10),  // 'Q'
            75 => Some(11),  // 'K'
            65 => Some(12),  // 'A'
            _ => None,
        }
    }

    /// Suit character (byte) to suit bit: `'s'`, `'h'`, `'d'`, `'c'`.
    pub fn suit_char_to_bit(c: u8) -> (r: Option<u8>)
        ensures
            r == spec_suit_char(c),
            r is Some ==> valid_suit_bit(r->0 as int),
    {
        match c {
            115 => Some(1),  // 's'
            104 => Some(2),  // 'h'
            100 => Some(4),  // 'd'
            99 => Some(8),   // 'c'
            _ => None,
        }
    }

    /// Display character of a rank index.
    pub fn rank_index_to_char(rank_index: u8) -> (r: &'static str)
        requires
            valid_rank_index(rank_index as int),
    {
        match rank_index {
            0 => "2", 1 => "3", 2 => "4", 3 => "5", 4 => "6", 5 => "7", 6 => "8",
            7 => "9", 8 => "T", 9 => "J", 10 => "Q", 11 => "K", _ => "A",
        }
    }

    /// Display character of a suit nibble.
    pub fn suit_int_to_char(suit_int: u32) -> (r: Option<&'static str>)
        ensures
            r is Some <==> valid_suit_bit(suit_int as int),
    {
        match suit_int {
            1 => Some("s"), 2 => Some("h"), 4 => Some("d"), 8 => Some("c"),
            _ => None,
        }
    }

    /// Two-character display form of a well-formed packed card, e.g. `"Ks"`.
    pub fn int_to_str(card_int: u32) -> (r: Result<String, PokerError>)
        ensures
            wf_card(card_int) ==> r is Ok,
    {
        let rank_int = Self::get_rank_int(card_int);
        if rank_int >= 13 {
            return Err(PokerError::InvalidRank);
        }
        let suit_int = Self::get_suit_int(card_int);
        let suit_char = match Self::suit_int_to_char(suit_int) {
            Some(s) => s,
            None => { return Err(PokerError::InvalidSuit); },
        };
        let mut out = String::from_str(Self::rank_index_to_char(rank_int as u8));
        out.append(suit_char);
        Ok(out)
    }

    /// Product of the prime fields of a hand of at most 7 cards; the unsuited
    /// lookup key for a 5-card hand.
    pub fn prime_product_from_hand(card_ints: &Vec<u32>) -> (r: u64)
        requires
            card_ints@.len() <= 7,
        ensures
            r == spec_prime_product(card_ints@),
    {
        let mut product: u64 = 1;
        let mut i: usize = 0;
        while i < card_ints.len()
            invariant
                i <= card_ints@.len() <= 7,
                product == spec_prime_product(card_ints@.take(i as int)),
            decreases card_ints@.len() - i,
        {
            let factor: u64 = (card_ints[i] & 0xFF) as u64;
            proof {
                assert(card_ints@.take(i + 1).drop_last() =~= card_ints@.take(i as int));
                assert(card_ints@.take(i + 1).last() == card_ints@[i as int]);
                lemma_prime_product_bound(card_ints@.take(i + 1));
            }
            product = product * factor;
            i = i + 1;
        }
        proof {
            assert(card_ints@.take(card_ints@.len() as int) =~= card_ints@);
        }
        product
    }

    /// Product of the primes of the rank bits set in a 13-bit mask; the
    /// flush/straight lookup key for 5 cards of all-different ranks.
    pub fn prime_product_from_rankbits(rankbits: u32) -> (r: u64)
        ensures
            r == spec_prime_product_of_mask(rankbits),
    {
        let mut product: u64 = 1;
        let mut i: usize = 0;
        while i < 13
            invariant
                i <= 13,
                product == ppm_rec(rankbits, i as int),
            decreases 13 - i,
        {
            if rankbits & (1u32 << (i as u32)) != 0 {
                let p: u64 = EvaluationCard::prime_of_rank(i as u8) as u64;
                proof {
                    lemma_ppm_bound(rankbits, (i + 1) as int);
                }
                product = product * p;
            }
            i = i + 1;
        }
        product
    }
}

/// The mask prime product never exceeds the product of all 13 primes.
pub proof fn lemma_ppm_bound(m: u32, i: int)
    requires
        0 <= i <= 13,
    ensures
        1 <= ppm_rec(m, i) <= ppm_prefix_bound(i),
    decreases i,
{
    if i > 0 {
        lemma_ppm_bound(m, i - 1);
        let q = ppm_rec(m, i - 1);
        let f: int = if m & (1u32 << ((i - 1) as u32)) != 0 { prime_of(i - 1) as int } else { 1 };
        assert(1 * 1 <= q * f && q * f <= ppm_prefix_bound(i - 1) * f) by (nonlinear_arith)
            requires
                1 <= q <= ppm_prefix_bound(i - 1),
                1 <= f,
        ;
        assert(ppm_prefix_bound(i - 1) * f <= ppm_prefix_bound(i));
    }
}

/// Product of the first `i` rank primes.
pub open spec fn ppm_prefix_bound(i: int) -> u64 {
    if i <= 0 { 1 }
    else if i == 1 { 2 } else if i == 2 { 6 } else if i == 3 { 30 }
    else if i == 4 { 210 } else if i == 5 { 2310 } else if i == 6 { 30030 }
    else if i == 7 { 510510 } else if i == 8 { 9699690 } else if i == 9 { 223092870 }
    else if i == 10 { 6469693230 } else if i == 11 { 200560490130 }
    else if i == 12 { 7420738134810 } else { 304250263527210 }
}

} // verus!
