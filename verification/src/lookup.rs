//! Lookup table construction.
//!
//! Number of distinct 5-card hand values:
//!
//! * straight flush 10, four of a kind 156, full house 156, flush 1277,
//!   straight 10, three of a kind 858, two pair 858, one pair 2860,
//!   high card 1277 — 7462 in total.
//!
//! The table maps a 5-card hand's unique prime product to its rank in
//! 1..=7462: the royal flush is rank 1, unsuited 7-5-4-3-2 is rank 7462.
//! Flush hands live in their own table because their keys (products over the
//! rank mask) coincide with the straight/high-card keys of the unsuited
//! table.

use vstd::prelude::*;
use crate::eval_card::{
    EvaluationCard, prime_of, spec_prime_product_of_mask, lemma_ppm_bound,
};
use crate::combinatorics::{
    spec_pairs, spec_triples, binom2, binom3, lemma_pairs_len, lemma_triples_len,
    lemma_pairs_bounded, lemma_triples_bounded, lemma_pairs_descending,
    combos_pairs, combos_triples,
};
use crate::errors::PokerError;

verus! {

/// Worst (largest) rank of each hand class.
pub const MAX_STRAIGHT_FLUSH: u32 = 10;
pub const MAX_FOUR_OF_A_KIND: u32 = 166;
pub const MAX_FULL_HOUSE: u32 = 322;
pub const MAX_FLUSH: u32 = 1599;
pub const MAX_STRAIGHT: u32 = 1609;
pub const MAX_THREE_OF_A_KIND: u32 = 2467;
pub const MAX_TWO_PAIR: u32 = 3325;
pub const MAX_PAIR: u32 = 6185;
pub const MAX_HIGH_CARD: u32 = 7462;

/// The nine hand classes, identified by the worst rank a hand of that class
/// can have.
#[derive(Clone, Copy, Debug, PartialEq, Eq, Structural)]
pub enum MaxHand {
    StraightFlush,
    FourOfAKind,
    FullHouse,
    Flush,
    Straight,
    ThreeOfAKind,
    TwoPair,
    OnePair,
    HighCard,
}

/// The ten straight-flush rank masks, strongest first: royal flush down to
/// the 5-high wheel, whose mask 4111 is out of numeric order on purpose.
pub open spec fn sf_masks() -> Seq<u32> {
    seq![7936u32, 3968, 1984, 992, 496, 248, 124, 62, 31, 4111]
}

/// The next lexicographically larger bit pattern with the same population
/// count.  The two's-complement negation `-x` of the classic bit trick is
/// spelled `!x + 1` so everything stays unsigned.
pub open spec fn spec_lex_next(x: u32) -> u32 {
    let t = ((x | ((x - 1) as u32)) + 1) as u32;
    let lt = t & ((!t + 1) as u32);
    let lx = x & ((!x + 1) as u32);
    t | (((((lt / lx) as u32) >> 1u32) - 1) as u32)
}

/// Population count of the low 14 bits, enough for every pattern the
/// generator can produce from a 13-bit start.
pub open spec fn pc14(v: u32) -> int {
    ((v >> 0u32) & 1) + ((v >> 1u32) & 1) + ((v >> 2u32) & 1) + ((v >> 3u32) & 1)
        + ((v >> 4u32) & 1) + ((v >> 5u32) & 1) + ((v >> 6u32) & 1) + ((v >> 7u32) & 1)
        + ((v >> 8u32) & 1) + ((v >> 9u32) & 1) + ((v >> 10u32) & 1) + ((v >> 11u32) & 1)
        + ((v >> 12u32) & 1) + ((v >> 13u32) & 1)
}

/// The bit trick is exact: on a 13-bit pattern it yields the least larger
/// integer with the same population count, skipping none.
pub proof fn lemma_lex_next_characterization(x: u32)
    requires
        1 <= x < 0x2000,
    ensures
        spec_lex_next(x) > x,
        pc14(spec_lex_next(x)) == pc14(x),
        forall|y: u32| x < y < spec_lex_next(x) ==> pc14(y) != pc14(x),
{
    assert(spec_lex_next(x) > x && pc14(spec_lex_next(x)) == pc14(x) && (forall|y: u32|
        x < y < spec_lex_next(x) ==> pc14(y) != pc14(x))) by (bit_vector)
        requires
            1 <= x && x < 0x2000,
    ;
}

/// The `c`-th successor of the initial pattern `0b11111` under
/// `spec_lex_next`.
pub open spec fn lex_iter(c: int) -> u32
    decreases c,
{
    if c <= 0 { 31 } else { spec_lex_next(lex_iter(c - 1)) }
}

/// The first `c` generated candidate masks (the successors of `0b11111`).
pub open spec fn lex_cands(c: int) -> Seq<u32>
    decreases c,
{
    if c <= 0 { Seq::empty() } else { lex_cands(c - 1).push(lex_iter(c)) }
}

/// The candidates that are not straight-flush masks.
pub open spec fn non_sf(s: Seq<u32>) -> Seq<u32> {
    s.filter(|f: u32| !sf_masks().contains(f))
}

/// The 1277 plain-flush rank masks, strongest first: the generated
/// candidates minus the straight flushes, reversed.
pub open spec fn flush_masks() -> Seq<u32> {
    non_sf(lex_cands(1286)).reverse()
}

/// The generator stays inside 13 bits for 1286 steps and yields exactly
/// 1277 non-straight-flush masks.  This is a fact about fixed constants;
/// construction checks it at run time and treats a mismatch as fatal.
pub open spec fn masks_generable() -> bool {
    &&& forall|i: int| 1 <= i <= 1286 ==> 1 <= #[trigger] lex_iter(i) < 0x2000
    &&& non_sf(lex_cands(1286)).len() == 1277
}

/// Prime product of a rank mask, as the `u64` table key.
pub open spec fn ppm64(m: u32) -> u64 {
    spec_prime_product_of_mask(m) as u64
}

impl MaxHand {
    /// Class number of each hand class, 1 (straight flush) through 9 (high
    /// card).
    #[allow(non_snake_case)]
    pub fn MAX_TO_RANK_CLASS(rank: MaxHand) -> (r: u32)
        ensures
            r == rank.class_number(),
    {
        match rank {
            MaxHand::StraightFlush => 1,
            MaxHand::FourOfAKind => 2,
            MaxHand::FullHouse => 3,
            MaxHand::Flush => 4,
            MaxHand::Straight => 5,
            MaxHand::ThreeOfAKind => 6,
            MaxHand::TwoPair => 7,
            MaxHand::OnePair => 8,
            MaxHand::HighCard => 9,
        }
    }

    /// Spec twin of `MAX_TO_RANK_CLASS`.
    pub open spec fn class_number(self) -> u32 {
        match self {
            MaxHand::StraightFlush => 1,
            MaxHand::FourOfAKind => 2,
            MaxHand::FullHouse => 3,
            MaxHand::Flush => 4,
            MaxHand::Straight => 5,
            MaxHand::ThreeOfAKind => 6,
            MaxHand::TwoPair => 7,
            MaxHand::OnePair => 8,
            MaxHand::HighCard => 9,
        }
    }
}

/// Display name of a class number; class numbers outside 1..=9 are the
/// caller's error.
#[allow(non_snake_case)]
pub fn RANK_CLASS_TO_STRING(class_int: u32) -> (r: Result<&'static str, PokerError>)
    ensures
        r is Ok <==> 1 <= class_int <= 9,
        r is Err ==> r->Err_0 == PokerError::InvalidRank,
        class_int == 1 ==> r->Ok_0@ == "Straight Flush"@,
        class_int == 2 ==> r->Ok_0@ == "Four of a Kind"@,
        class_int == 3 ==> r->Ok_0@ == "Full House"@,
        class_int == 4 ==> r->Ok_0@ == "Flush"@,
        class_int == 5 ==> r->Ok_0@ == "Straight"@,
        class_int == 6 ==> r->Ok_0@ == "Three of a Kind"@,
        class_int == 7 ==> r->Ok_0@ == "Two Pair"@,
        class_int == 8 ==> r->Ok_0@ == "Pair"@,
        class_int == 9 ==> r->Ok_0@ == "High Card"@,
{
    match class_int {
        1 => Ok("Straight Flush"),
        2 => Ok("Four of a Kind"),
        3 => Ok("Full House"),
        4 => Ok("Flush"),
        5 => Ok("Straight"),
        6 => Ok("Three of a Kind"),
        7 => Ok("Two Pair"),
        8 => Ok("Pair"),
        9 => Ok("High Card"),
        _ => Err(PokerError::InvalidRank),
    }
}

/// Next lexicographically larger same-popcount pattern, executable form.
pub fn lex_next(bits: u32) -> (r: u32)
    requires
        1 <= bits < 0x2000,
    ensures
        r == spec_lex_next(bits),
{
    proof {
        assert((bits | ((bits - 1) as u32)) < 0x2000) by (bit_vector)
            requires
                1 <= bits && bits < 0x2000,
        ;
    }
    let t: u32 = (bits | (bits - 1)) + 1;
    proof {
        assert(t >= 1 ==> !t < 0xFFFF_FFFFu32) by (bit_vector);
        assert(bits >= 1 ==> !bits < 0xFFFF_FFFFu32) by (bit_vector);
        assert(bits & ((!bits + 1) as u32) >= 1) by (bit_vector)
            requires
                bits >= 1,
        ;
    }
    let lt: u32 = t & (!t + 1);
    let lx: u32 = bits & (!bits + 1);
    let q: u32 = lt / lx;
    let h: u32 = q >> 1;
    proof {
        assert(h >= 1) by (bit_vector)
            requires
                t == (bits | ((bits - 1) as u32)) + 1,
                lt == t & ((!t + 1) as u32),
                lx == bits & ((!bits + 1) as u32),
                q == lt / lx,
                h == q >> 1u32,
                1 <= bits && bits < 0x2000,
        ;
    }
    t | (h - 1)
}

/// Rank values 12 down to 0, the order every block is generated in.
pub open spec fn backs() -> Seq<u8> {
    Seq::new(13, |k: int| (12 - k) as u8)
}

/// The `k`-th element of the descending rank list with value `v` removed.
pub open spec fn kick1(v: int, k: int) -> int {
    if 12 - k > v { 12 - k } else { 11 - k }
}

/// Descending rank list with value `v` removed (12 kickers).
pub open spec fn kicks1(v: int) -> Seq<u8> {
    Seq::new(12, |k: int| kick1(v, k) as u8)
}

/// The `k`-th element of the descending rank list with values `a > b`
/// removed.
pub open spec fn kick2(a: int, b: int, k: int) -> int {
    if 12 - k > a { 12 - k } else if 11 - k > b { 11 - k } else { 10 - k }
}

/// Descending rank list with values `a > b` removed (11 kickers).
pub open spec fn kicks2(a: int, b: int) -> Seq<u8> {
    Seq::new(11, |k: int| kick2(a, b, k) as u8)
}

/// Key of the `j`-th four-of-a-kind hand: quad ranks high to low, and for
/// each the 12 kicker ranks high to low.
pub open spec fn quad_key(j: int) -> int {
    let v = 12 - j / 12;
    let kv = kick1(v, j % 12);
    prime_of(v) * prime_of(v) * prime_of(v) * prime_of(v) * prime_of(kv)
}

/// Key of the `j`-th full house: triple ranks high to low, pair ranks high
/// to low.
pub open spec fn fh_key(j: int) -> int {
    let v = 12 - j / 12;
    let pr = kick1(v, j % 12);
    prime_of(v) * prime_of(v) * prime_of(v) * prime_of(pr) * prime_of(pr)
}

/// Key of the `j`-th three-of-a-kind: triple ranks high to low, then kicker
/// pairs in descending combinatorial order.
pub open spec fn trip_key(j: int) -> int {
    let v = 12 - j / 66;
    let pr = spec_pairs(kicks1(v))[j % 66];
    prime_of(v) * prime_of(v) * prime_of(v) * prime_of(pr.0 as int) * prime_of(pr.1 as int)
}

/// Key of the `j`-th two-pair hand: pairs of paired ranks in descending
/// combinatorial order, then the kicker high to low.
pub open spec fn twopair_key(j: int) -> int {
    let pq = spec_pairs(backs())[j / 11];
    let kv = kick2(pq.0 as int, pq.1 as int, j % 11);
    prime_of(pq.0 as int) * prime_of(pq.0 as int) * prime_of(pq.1 as int)
        * prime_of(pq.1 as int) * prime_of(kv)
}

/// Key of the `j`-th one-pair hand: pair ranks high to low, then kicker
/// triples in descending combinatorial order.
pub open spec fn pair_key(j: int) -> int {
    let v = 12 - j / 220;
    let tr = spec_triples(kicks1(v))[j % 220];
    prime_of(v) * prime_of(v) * prime_of(tr.0 as int) * prime_of(tr.1 as int)
        * prime_of(tr.2 as int)
}

/// The flush table holds the 10 straight flushes at ranks 1..=10 and the
/// 1277 plain flushes at ranks 323..=1599, keyed by rank-mask prime product.
pub open spec fn flush_table_complete(t: Seq<(u64, u32)>) -> bool {
    &&& t.len() == 1287
    &&& forall|j: int| 0 <= j < 10 ==> #[trigger] t[j] == (ppm64(sf_masks()[j]), (1 + j) as u32)
    &&& forall|j: int| 10 <= j < 1287 ==> #[trigger] t[j] == (
        ppm64(flush_masks()[j - 10]),
        (313 + j) as u32,
    )
}

/// The unsuited table holds, in insertion order: straights (ranks
/// 1600..=1609), high cards (6186..=7462), quads (11..=166), full houses
/// (167..=322), trips (1610..=2467), two pairs (2468..=3325) and pairs
/// (3326..=6185).
pub open spec fn unsuited_table_complete(t: Seq<(u64, u32)>) -> bool {
    &&& t.len() == 6175
    &&& forall|j: int| 0 <= j < 10 ==> #[trigger] t[j] == (
        ppm64(sf_masks()[j]),
        (1600 + j) as u32,
    )
    &&& forall|j: int| 10 <= j < 1287 ==> #[trigger] t[j] == (
        ppm64(flush_masks()[j - 10]),
        (6176 + j) as u32,
    )
    &&& forall|j: int| 1287 <= j < 1443 ==> #[trigger] t[j] == (
        quad_key(j - 1287) as u64,
        (j - 1276) as u32,
    )
    &&& forall|j: int| 1443 <= j < 1599 ==> #[trigger] t[j] == (
        fh_key(j - 1443) as u64,
        (j - 1276) as u32,
    )
    &&& forall|j: int| 1599 <= j < 2457 ==> #[trigger] t[j] == (
        trip_key(j - 1599) as u64,
        (j + 11) as u32,
    )
    &&& forall|j: int| 2457 <= j < 3315 ==> #[trigger] t[j] == (
        twopair_key(j - 2457) as u64,
        (j + 11) as u32,
    )
    &&& forall|j: int| 3315 <= j < 6175 ==> #[trigger] t[j] == (
        pair_key(j - 3315) as u64,
        (j + 11) as u32,
    )
}

/// Key of the flush-table entry at a position.
pub open spec fn flush_key_at(j: int) -> u64 {
    if j < 10 {
        ppm64(sf_masks()[j])
    } else {
        ppm64(flush_masks()[j - 10])
    }
}

/// Key of the unsuited-table entry at a position, in insertion order.
pub open spec fn unsuited_key_at(j: int) -> u64 {
    if j < 10 {
        ppm64(sf_masks()[j])
    } else if j < 1287 {
        ppm64(flush_masks()[j - 10])
    } else if j < 1443 {
        quad_key(j - 1287) as u64
    } else if j < 1599 {
        fh_key(j - 1443) as u64
    } else if j < 2457 {
        trip_key(j - 1599) as u64
    } else if j < 3315 {
        twopair_key(j - 2457) as u64
    } else {
        pair_key(j - 3315) as u64
    }
}

/// No two entries of a table share a key, so a first-match lookup reaches
/// every entry.
pub open spec fn table_keys_distinct(t: Seq<(u64, u32)>) -> bool {
    forall|i: int, j: int| 0 <= i < j < t.len() ==> (#[trigger] t[i]).0 != (#[trigger] t[j]).0
}

/// The 1287 + 6175 table keys are pairwise distinct within each table.
/// Like the mask counts this is a fact about fixed constants; construction
/// checks it at run time and treats a violation as fatal.
pub open spec fn tables_collision_free() -> bool {
    &&& forall|i: int, j: int| 0 <= i < j < 1287
        ==> #[trigger] flush_key_at(i) != #[trigger] flush_key_at(j)
    &&& forall|i: int, j: int| 0 <= i < j < 6175
        ==> #[trigger] unsuited_key_at(i) != #[trigger] unsuited_key_at(j)
}

/// Whether a table's keys are pairwise distinct.
fn keys_distinct(table: &Vec<(u64, u32)>) -> (r: bool)
    ensures
        r == table_keys_distinct(table@),
{
    let mut i: usize = 0;
    while i < table.len()
        invariant
            i <= table@.len(),
            forall|a: int, b: int| 0 <= a < b < table@.len() && a < i
                ==> (#[trigger] table@[a]).0 != (#[trigger] table@[b]).0,
        decreases table@.len() - i,
    {
        let mut j: usize = i + 1;
        while j < table.len()
            invariant
                i < j <= table@.len() || (i + 1 == j && j >= table@.len()),
                i < table@.len(),
                forall|a: int, b: int| 0 <= a < b < table@.len() && a < i
                    ==> (#[trigger] table@[a]).0 != (#[trigger] table@[b]).0,
                forall|b: int| i < b < j ==> (#[trigger] table@[b]).0 != table@[i as int].0,
            decreases table@.len() - j,
        {
            if table[j].0 == table[i].0 {
                return false;
            }
            j = j + 1;
        }
        i = i + 1;
    }
    true
}

/// The two prime-product lookup tables, kept as plain key/rank entry lists.
/// Built once, read-only afterwards.
pub struct LookupTable {
    pub flush_lookup: Vec<(u64, u32)>,
    pub unsuited_lookup: Vec<(u64, u32)>,
}

impl LookupTable {
    /// A fully and correctly built pair of tables.
    pub open spec fn wf(self) -> bool {
        flush_table_complete(self.flush_lookup@) && unsuited_table_complete(
            self.unsuited_lookup@,
        )
    }
}

/// Whether a vector contains a value.
fn vec_contains_u32(v: &Vec<u32>, x: u32) -> (r: bool)
    ensures
        r == v@.contains(x),
{
    let mut i: usize = 0;
    while i < v.len()
        invariant
            i <= v@.len(),
            forall|k: int| 0 <= k < i ==> v@[k] != x,
        decreases v@.len() - i,
    {
        if v[i] == x {
            return true;
        }
        i = i + 1;
    }
    false
}

/// Appending an element to the candidate list extends its non-straight-flush
/// filtering by at most that element.
proof fn lemma_non_sf_push(s: Seq<u32>, e: u32)
    ensures
        !sf_masks().contains(e) ==> non_sf(s.push(e)) == non_sf(s).push(e),
        sf_masks().contains(e) ==> non_sf(s.push(e)) == non_sf(s),
{
    reveal(Seq::filter);
    assert(s.push(e).drop_last() =~= s);
    assert(s.push(e).last() == e);
    if !sf_masks().contains(e) {
        assert(non_sf(s.push(e)) =~= non_sf(s).push(e));
    } else {
        assert(non_sf(s.push(e)) =~= non_sf(s));
    }
}

/// Generates the straight-flush masks and the 1277 plain-flush masks.
/// Returns `None` exactly when the fixed-constant generation facts fail,
/// which a correct build never hits.
fn gen_flush_masks() -> (r: Option<(Vec<u32>, Vec<u32>)>)
    ensures
        r is Some <==> masks_generable(),
        r is Some ==> (r->0).0@ == sf_masks() && (r->0).1@ == flush_masks()
            && (r->0).1@.len() == 1277,
{
    let mut sfs: Vec<u32> = Vec::new();
    sfs.push(7936); sfs.push(3968); sfs.push(1984); sfs.push(992); sfs.push(496);
    sfs.push(248); sfs.push(124); sfs.push(62); sfs.push(31); sfs.push(4111);
    proof {
        assert(sfs@ =~= sf_masks());
    }

    // walk the generator for 1286 steps, filtering straight flushes out
    let mut flushes_fwd: Vec<u32> = Vec::new();
    let mut cur: u32 = 31;
    let mut i: usize = 0;
    while i < 1286
        invariant
            i <= 1286,
            sfs@ == sf_masks(),
            cur == lex_iter(i as int),
            1 <= cur < 0x2000,
            flushes_fwd@ == non_sf(lex_cands(i as int)),
            forall|k: int| 1 <= k <= i ==> 1 <= #[trigger] lex_iter(k) < 0x2000,
        decreases 1286 - i,
    {
        let next = lex_next(cur);
        if !(1 <= next && next < 0x2000) {
            proof {
                assert(lex_iter(i + 1) == next);
                assert(!masks_generable());
            }
            return None;
        }
        proof {
            lemma_non_sf_push(lex_cands(i as int), next);
            assert(lex_cands(i + 1) == lex_cands(i as int).push(lex_iter(i + 1)));
        }
        if !vec_contains_u32(&sfs, next) {
            flushes_fwd.push(next);
        }
        cur = next;
        i = i + 1;
    }

    if flushes_fwd.len() != 1277 {
        proof {
            assert(!masks_generable());
        }
        return None;
    }

    // strongest hand first: reverse the generated order
    let mut flushes: Vec<u32> = Vec::new();
    let mut j: usize = flushes_fwd.len();
    while j > 0
        invariant
            j <= flushes_fwd@.len(),
            flushes@.len() == flushes_fwd@.len() - j,
            forall|k: int| 0 <= k < flushes@.len()
                ==> #[trigger] flushes@[k] == flushes_fwd@[flushes_fwd@.len() - 1 - k],
        decreases j,
    {
        j = j - 1;
        flushes.push(flushes_fwd[j]);
    }
    proof {
        assert(flushes@ =~= non_sf(lex_cands(1286)).reverse());
        assert(masks_generable());
    }
    Some((sfs, flushes))
}

/// Inserts one rank per mask, starting at `rank_init` and counting up.
fn fill_in_lookup_table(rank_init: u32, rankbits_list: &Vec<u32>, table: &mut Vec<(u64, u32)>)
    requires
        rank_init + rankbits_list@.len() <= 0xFFFF_FFFFu32,
        old(table)@.len() + rankbits_list@.len() <= 0xFFFF_FFFFusize,
    ensures
        final(table)@.len() == old(table)@.len() + rankbits_list@.len(),
        forall|j: int| 0 <= j < old(table)@.len()
            ==> #[trigger] final(table)@[j] == old(table)@[j],
        forall|j: int| 0 <= j < rankbits_list@.len()
            ==> #[trigger] final(table)@[old(table)@.len() + j] == (
                ppm64(rankbits_list@[j]),
                (rank_init + j) as u32,
            ),
{
    let ghost base = old(table)@.len() as int;
    let mut rank: u32 = rank_init;
    let mut i: usize = 0;
    while i < rankbits_list.len()
        invariant
            i <= rankbits_list@.len(),
            rank == rank_init + i,
            rank_init + rankbits_list@.len() <= 0xFFFF_FFFFu32,
            table@.len() == base + i,
            base == old(table)@.len(),
            forall|j: int| 0 <= j < base ==> #[trigger] table@[j] == old(table)@[j],
            forall|j: int| 0 <= j < i
                ==> #[trigger] table@[base + j] == (
                    ppm64(rankbits_list@[j]),
                    (rank_init + j) as u32,
                ),
        decreases rankbits_list@.len() - i,
    {
        let rb = rankbits_list[i];
        let prime_product = EvaluationCard::prime_product_from_rankbits(rb);
        proof {
            lemma_ppm_bound(rb, 13);
        }
        table.push((prime_product, rank));
        rank = rank + 1;
        i = i + 1;
    }
}

/// Product of the primes of five rank values; every multiples key is one.
fn key_mul5(a: u8, b: u8, c: u8, d: u8, e: u8) -> (k: u64)
    requires
        a <= 12, b <= 12, c <= 12, d <= 12, e <= 12,
    ensures
        k == prime_of(a as int) * prime_of(b as int) * prime_of(c as int)
            * prime_of(d as int) * prime_of(e as int),
        k <= 115856201,
{
    let pa: u64 = EvaluationCard::prime_of_rank(a) as u64;
    let pb: u64 = EvaluationCard::prime_of_rank(b) as u64;
    let pc: u64 = EvaluationCard::prime_of_rank(c) as u64;
    let pd: u64 = EvaluationCard::prime_of_rank(d) as u64;
    let pe: u64 = EvaluationCard::prime_of_rank(e) as u64;
    assert(pa * pb <= 1681) by (nonlinear_arith)
        requires pa <= 41 && pb <= 41,
    ;
    let m1: u64 = pa * pb;
    assert(m1 * pc <= 68921) by (nonlinear_arith)
        requires m1 <= 1681 && pc <= 41,
    ;
    let m2: u64 = m1 * pc;
    assert(m2 * pd <= 2825761) by (nonlinear_arith)
        requires m2 <= 68921 && pd <= 41,
    ;
    let m3: u64 = m2 * pd;
    assert(m3 * pe <= 115856201) by (nonlinear_arith)
        requires m3 <= 2825761 && pe <= 41,
    ;
    let m4: u64 = m3 * pe;
    m4
}

/// Descending rank values with `v` removed, matching `kicks1(v)`.
fn ranks_excluding1(v: u8) -> (r: Vec<u8>)
    requires
        v <= 12,
    ensures
        r@ == kicks1(v as int),
{
    let mut out: Vec<u8> = Vec::new();
    let mut d: u8 = 0;
    while d < 13
        invariant
            d <= 13,
            v <= 12,
            out@.len() == if d <= 12 - v { d as int } else { (d - 1) as int },
            forall|k: int| 0 <= k < out@.len() ==> #[trigger] out@[k] == kick1(v as int, k),
        decreases 13 - d,
    {
        if 12 - d != v {
            out.push(12 - d);
        }
        d = d + 1;
    }
    proof {
        assert(out@ =~= kicks1(v as int));
    }
    out
}

/// Descending rank values with `a` and `b` removed (`a > b`), matching
/// `kicks2(a, b)`.
fn ranks_excluding2(a: u8, b: u8) -> (r: Vec<u8>)
    requires
        b < a <= 12,
    ensures
        r@ == kicks2(a as int, b as int),
{
    let mut out: Vec<u8> = Vec::new();
    let mut d: u8 = 0;
    while d < 13
        invariant
            d <= 13,
            b < a <= 12,
            out@.len() == if d <= 12 - a { d as int }
                else if d <= 12 - b { (d - 1) as int }
                else { (d - 2) as int },
            forall|k: int| 0 <= k < out@.len()
                ==> #[trigger] out@[k] == kick2(a as int, b as int, k),
        decreases 13 - d,
    {
        let val: u8 = 12 - d;
        if val != a && val != b {
            out.push(val);
        }
        d = d + 1;
    }
    proof {
        assert(out@ =~= kicks2(a as int, b as int));
    }
    out
}

/// Descending rank values 12..=0, matching `backs()`.
fn backs_vec() -> (r: Vec<u8>)
    ensures
        r@ == backs(),
{
    let mut out: Vec<u8> = Vec::new();
    let mut d: u8 = 0;
    while d < 13
        invariant
            d <= 13,
            out@.len() == d as int,
            forall|k: int| 0 <= k < out@.len() ==> #[trigger] out@[k] == 12 - k,
        decreases 13 - d,
    {
        out.push(12 - d);
        d = d + 1;
    }
    proof {
        assert(out@ =~= backs());
    }
    out
}

/// Appends the 156 four-of-a-kind entries at ranks 11..=166.
fn fill_quads(table: &mut Vec<(u64, u32)>)
    ensures
        final(table)@.len() == old(table)@.len() + 156,
        forall|j: int| 0 <= j < old(table)@.len()
            ==> #[trigger] final(table)@[j] == old(table)@[j],
        forall|j: int| 0 <= j < 156
            ==> #[trigger] final(table)@[old(table)@.len() + j] == (
                quad_key(j) as u64,
                (11 + j) as u32,
            ),
{
    let ghost base = old(table)@.len() as int;
    let mut rank: u32 = MAX_STRAIGHT_FLUSH + 1;
    let mut ii: u8 = 0;
    while ii < 13
        invariant
            ii <= 13,
            rank == 11 + ii as int * 12,
            table@.len() == base + ii as int * 12,
            base == old(table)@.len(),
            forall|j: int| 0 <= j < base ==> #[trigger] table@[j] == old(table)@[j],
            forall|j: int| 0 <= j < ii as int * 12
                ==> #[trigger] table@[base + j] == (quad_key(j) as u64, (11 + j) as u32),
        decreases 13 - ii,
    {
        let v: u8 = 12 - ii;
        let kickers = ranks_excluding1(v);
        let mut k: usize = 0;
        while k < 12
            invariant
                k <= 12,
                ii < 13,
                v == 12 - ii,
                kickers@ == kicks1(v as int),
                rank == 11 + ii as int * 12 + k,
                table@.len() == base + ii as int * 12 + k,
                base == old(table)@.len(),
                forall|j: int| 0 <= j < base ==> #[trigger] table@[j] == old(table)@[j],
                forall|j: int| 0 <= j < ii as int * 12 + k
                    ==> #[trigger] table@[base + j] == (quad_key(j) as u64, (11 + j) as u32),
            decreases 12 - k,
        {
            let kv = kickers[k];
            let key = key_mul5(v, v, v, v, kv);
            proof {
                let j = ii as int * 12 + k;
                vstd::arithmetic::div_mod::lemma_fundamental_div_mod_converse(
                    j, 12, ii as int, k as int);
                assert(quad_key(j) == key);
            }
            table.push((key, rank));
            rank = rank + 1;
            k = k + 1;
        }
        ii = ii + 1;
    }
}

/// Appends the 156 full-house entries at ranks 167..=322.
fn fill_full_houses(table: &mut Vec<(u64, u32)>)
    ensures
        final(table)@.len() == old(table)@.len() + 156,
        forall|j: int| 0 <= j < old(table)@.len()
            ==> #[trigger] final(table)@[j] == old(table)@[j],
        forall|j: int| 0 <= j < 156
            ==> #[trigger] final(table)@[old(table)@.len() + j] == (
                fh_key(j) as u64,
                (167 + j) as u32,
            ),
{
    let ghost base = old(table)@.len() as int;
    let mut rank: u32 = MAX_FOUR_OF_A_KIND + 1;
    let mut ii: u8 = 0;
    while ii < 13
        invariant
            ii <= 13,
            rank == 167 + ii as int * 12,
            table@.len() == base + ii as int * 12,
            base == old(table)@.len(),
            forall|j: int| 0 <= j < base ==> #[trigger] table@[j] == old(table)@[j],
            forall|j: int| 0 <= j < ii as int * 12
                ==> #[trigger] table@[base + j] == (fh_key(j) as u64, (167 + j) as u32),
        decreases 13 - ii,
    {
        let v: u8 = 12 - ii;
        let pairranks = ranks_excluding1(v);
        let mut k: usize = 0;
        while k < 12
            invariant
                k <= 12,
                ii < 13,
                v == 12 - ii,
                pairranks@ == kicks1(v as int),
                rank == 167 + ii as int * 12 + k,
                table@.len() == base + ii as int * 12 + k,
                base == old(table)@.len(),
                forall|j: int| 0 <= j < base ==> #[trigger] table@[j] == old(table)@[j],
                forall|j: int| 0 <= j < ii as int * 12 + k
                    ==> #[trigger] table@[base + j] == (fh_key(j) as u64, (167 + j) as u32),
            decreases 12 - k,
        {
            let pr = pairranks[k];
            let key = key_mul5(v, v, v, pr, pr);
            proof {
                let j = ii as int * 12 + k;
                vstd::arithmetic::div_mod::lemma_fundamental_div_mod_converse(
                    j, 12, ii as int, k as int);
                assert(fh_key(j) == key);
            }
            table.push((key, rank));
            rank = rank + 1;
            k = k + 1;
        }
        ii = ii + 1;
    }
}

/// Appends the 858 three-of-a-kind entries at ranks 1610..=2467.
fn fill_trips(table: &mut Vec<(u64, u32)>)
    ensures
        final(table)@.len() == old(table)@.len() + 858,
        forall|j: int| 0 <= j < old(table)@.len()
            ==> #[trigger] final(table)@[j] == old(table)@[j],
        forall|j: int| 0 <= j < 858
            ==> #[trigger] final(table)@[old(table)@.len() + j] == (
                trip_key(j) as u64,
                (1610 + j) as u32,
            ),
{
    let ghost base = old(table)@.len() as int;
    let mut rank: u32 = MAX_STRAIGHT + 1;
    let mut ii: u8 = 0;
    while ii < 13
        invariant
            ii <= 13,
            rank == 1610 + ii as int * 66,
            table@.len() == base + ii as int * 66,
            base == old(table)@.len(),
            forall|j: int| 0 <= j < base ==> #[trigger] table@[j] == old(table)@[j],
            forall|j: int| 0 <= j < ii as int * 66
                ==> #[trigger] table@[base + j] == (trip_key(j) as u64, (1610 + j) as u32),
        decreases 13 - ii,
    {
        let v: u8 = 12 - ii;
        let kickers = ranks_excluding1(v);
        let kicker_pairs = combos_pairs(&kickers);
        proof {
            lemma_pairs_len(kicks1(v as int));
            assert(binom2(12) == 66) by {
                reveal_with_fuel(binom2, 13);
            }
            lemma_pairs_bounded(kicks1(v as int), 12);
        }
        let mut k: usize = 0;
        while k < 66
            invariant
                k <= 66,
                ii < 13,
                v == 12 - ii,
                kicker_pairs@ == spec_pairs(kicks1(v as int)),
                kicker_pairs@.len() == 66,
                forall|p: int| 0 <= p < 66 ==> (#[trigger] kicker_pairs@[p]).0 <= 12
                    && kicker_pairs@[p].1 <= 12,
                rank == 1610 + ii as int * 66 + k,
                table@.len() == base + ii as int * 66 + k,
                base == old(table)@.len(),
                forall|j: int| 0 <= j < base ==> #[trigger] table@[j] == old(table)@[j],
                forall|j: int| 0 <= j < ii as int * 66 + k
                    ==> #[trigger] table@[base + j] == (trip_key(j) as u64, (1610 + j) as u32),
            decreases 66 - k,
        {
            let (c1, c2) = kicker_pairs[k];
            let key = key_mul5(v, v, v, c1, c2);
            proof {
                let j = ii as int * 66 + k;
                vstd::arithmetic::div_mod::lemma_fundamental_div_mod_converse(
                    j, 66, ii as int, k as int);
                assert(trip_key(j) == key);
            }
            table.push((key, rank));
            rank = rank + 1;
            k = k + 1;
        }
        ii = ii + 1;
    }
}

/// Appends the 858 two-pair entries at ranks 2468..=3325.
fn fill_two_pairs(table: &mut Vec<(u64, u32)>)
    ensures
        final(table)@.len() == old(table)@.len() + 858,
        forall|j: int| 0 <= j < old(table)@.len()
            ==> #[trigger] final(table)@[j] == old(table)@[j],
        forall|j: int| 0 <= j < 858
            ==> #[trigger] final(table)@[old(table)@.len() + j] == (
                twopair_key(j) as u64,
                (2468 + j) as u32,
            ),
{
    let ghost base = old(table)@.len() as int;
    let backwards = backs_vec();
    let rank_pairs = combos_pairs(&backwards);
    proof {
        lemma_pairs_len(backs());
        assert(binom2(13) == 78) by {
            reveal_with_fuel(binom2, 14);
        }
        lemma_pairs_bounded(backs(), 12);
        assert(forall|x: int, y: int| 0 <= x < y < backs().len()
            ==> #[trigger] backs()[x] > #[trigger] backs()[y]);
        lemma_pairs_descending(backs());
    }
    let mut rank: u32 = MAX_THREE_OF_A_KIND + 1;
    let mut ii: usize = 0;
    while ii < 78
        invariant
            ii <= 78,
            rank_pairs@ == spec_pairs(backs()),
            rank_pairs@.len() == 78,
            forall|p: int| 0 <= p < 78 ==> (#[trigger] rank_pairs@[p]).0 <= 12
                && rank_pairs@[p].1 < rank_pairs@[p].0,
            rank == 2468 + ii as int * 11,
            table@.len() == base + ii as int * 11,
            base == old(table)@.len(),
            forall|j: int| 0 <= j < base ==> #[trigger] table@[j] == old(table)@[j],
            forall|j: int| 0 <= j < ii as int * 11
                ==> #[trigger] table@[base + j] == (twopair_key(j) as u64, (2468 + j) as u32),
        decreases 78 - ii,
    {
        let (p1, p2) = rank_pairs[ii];
        let kickers = ranks_excluding2(p1, p2);
        let mut k: usize = 0;
        while k < 11
            invariant
                k <= 11,
                ii < 78,
                rank_pairs@ == spec_pairs(backs()),
                rank_pairs@.len() == 78,
                forall|p: int| 0 <= p < 78 ==> (#[trigger] rank_pairs@[p]).0 <= 12
                    && rank_pairs@[p].1 < rank_pairs@[p].0,
                p1 == rank_pairs@[ii as int].0,
                p2 == rank_pairs@[ii as int].1,
                kickers@ == kicks2(p1 as int, p2 as int),
                rank == 2468 + ii as int * 11 + k,
                table@.len() == base + ii as int * 11 + k,
                base == old(table)@.len(),
                forall|j: int| 0 <= j < base ==> #[trigger] table@[j] == old(table)@[j],
                forall|j: int| 0 <= j < ii as int * 11 + k
                    ==> #[trigger] table@[base + j] == (twopair_key(j) as u64, (2468 + j) as u32),
            decreases 11 - k,
        {
            let kv = kickers[k];
            let key = key_mul5(p1, p1, p2, p2, kv);
            proof {
                let j = ii as int * 11 + k;
                vstd::arithmetic::div_mod::lemma_fundamental_div_mod_converse(
                    j, 11, ii as int, k as int);
                assert(twopair_key(j) == key);
            }
            table.push((key, rank));
            rank = rank + 1;
            k = k + 1;
        }
        ii = ii + 1;
    }
}

/// Appends the 2860 one-pair entries at ranks 3326..=6185.
fn fill_pairs(table: &mut Vec<(u64, u32)>)
    ensures
        final(table)@.len() == old(table)@.len() + 2860,
        forall|j: int| 0 <= j < old(table)@.len()
            ==> #[trigger] final(table)@[j] == old(table)@[j],
        forall|j: int| 0 <= j < 2860
            ==> #[trigger] final(table)@[old(table)@.len() + j] == (
                pair_key(j) as u64,
                (3326 + j) as u32,
            ),
{
    let ghost base = old(table)@.len() as int;
    let mut rank: u32 = MAX_TWO_PAIR + 1;
    let mut ii: u8 = 0;
    while ii < 13
        invariant
            ii <= 13,
            rank == 3326 + ii as int * 220,
            table@.len() == base + ii as int * 220,
            base == old(table)@.len(),
            forall|j: int| 0 <= j < base ==> #[trigger] table@[j] == old(table)@[j],
            forall|j: int| 0 <= j < ii as int * 220
                ==> #[trigger] table@[base + j] == (pair_key(j) as u64, (3326 + j) as u32),
        decreases 13 - ii,
    {
        let v: u8 = 12 - ii;
        let kickers = ranks_excluding1(v);
        let kicker_triples = combos_triples(&kickers);
        proof {
            lemma_triples_len(kicks1(v as int));
            assert(binom2(12) == 66 && binom3(12) == 220) by {
                reveal_with_fuel(binom2, 13);
                reveal_with_fuel(binom3, 13);
            }
            lemma_triples_bounded(kicks1(v as int), 12);
        }
        let mut k: usize = 0;
        while k < 220
            invariant
                k <= 220,
                ii < 13,
                v == 12 - ii,
                kicker_triples@ == spec_triples(kicks1(v as int)),
                kicker_triples@.len() == 220,
                forall|p: int| 0 <= p < 220 ==> (#[trigger] kicker_triples@[p]).0 <= 12
                    && kicker_triples@[p].1 <= 12 && kicker_triples@[p].2 <= 12,
                rank == 3326 + ii as int * 220 + k,
                table@.len() == base + ii as int * 220 + k,
                base == old(table)@.len(),
                forall|j: int| 0 <= j < base ==> #[trigger] table@[j] == old(table)@[j],
                forall|j: int| 0 <= j < ii as int * 220 + k
                    ==> #[trigger] table@[base + j] == (pair_key(j) as u64, (3326 + j) as u32),
            decreases 220 - k,
        {
            let (k1, k2, k3) = kicker_triples[k];
            let key = key_mul5(v, v, k1, k2, k3);
            proof {
                let j = ii as int * 220 + k;
                vstd::arithmetic::div_mod::lemma_fundamental_div_mod_converse(
                    j, 220, ii as int, k as int);
                assert(pair_key(j) == key);
            }
            table.push((key, rank));
            rank = rank + 1;
            k = k + 1;
        }
        ii = ii + 1;
    }
}

impl LookupTable {
    /// Builds both tables in one pass: straight flushes and flushes into the
    /// flush table, then the same mask sequences as straights and high cards
    /// in the unsuited table, then the multiple-rank classes.  A count
    /// mismatch during mask generation is a fatal construction error.
    pub fn new() -> (r: Result<LookupTable, PokerError>)
        ensures
            r is Ok <==> masks_generable() && tables_collision_free(),
            r is Ok ==> r->Ok_0.wf() && table_keys_distinct(r->Ok_0.flush_lookup@)
                && table_keys_distinct(r->Ok_0.unsuited_lookup@),
            r is Err ==> r->Err_0 == PokerError::CorruptTable,
    {
        let (sfs, flushes) = match gen_flush_masks() {
            Some(p) => p,
            None => { return Err(PokerError::CorruptTable); },
        };
        let mut flush_lookup: Vec<(u64, u32)> = Vec::new();
        fill_in_lookup_table(1, &sfs, &mut flush_lookup);
        let ghost f1 = flush_lookup@;
        fill_in_lookup_table(MAX_FULL_HOUSE + 1, &flushes, &mut flush_lookup);
        proof {
            assert forall|j: int| 0 <= j < 10
                implies #[trigger] flush_lookup@[j] == (ppm64(sf_masks()[j]), (1 + j) as u32) by {
                assert(flush_lookup@[j] == f1[j]);
                assert(f1[0 + j] == (ppm64(sfs@[j]), (1 + j) as u32));
            }
            assert forall|j: int| 10 <= j < 1287
                implies #[trigger] flush_lookup@[j] == (
                    ppm64(flush_masks()[j - 10]),
                    (313 + j) as u32,
                ) by {
                assert(flush_lookup@[f1.len() as int + (j - 10)] == (
                    ppm64(flushes@[j - 10]),
                    (323 + (j - 10)) as u32,
                ));
            }
        }

        let mut unsuited_lookup: Vec<(u64, u32)> = Vec::new();
        fill_in_lookup_table(MAX_FLUSH + 1, &sfs, &mut unsuited_lookup);
        let ghost u1 = unsuited_lookup@;
        fill_in_lookup_table(MAX_PAIR + 1, &flushes, &mut unsuited_lookup);
        let ghost u2 = unsuited_lookup@;
        fill_quads(&mut unsuited_lookup);
        let ghost u3 = unsuited_lookup@;
        fill_full_houses(&mut unsuited_lookup);
        let ghost u4 = unsuited_lookup@;
        fill_trips(&mut unsuited_lookup);
        let ghost u5 = unsuited_lookup@;
        fill_two_pairs(&mut unsuited_lookup);
        let ghost u6 = unsuited_lookup@;
        fill_pairs(&mut unsuited_lookup);
        proof {
            let u = unsuited_lookup@;
            assert(u1.len() == 10 && u2.len() == 1287 && u3.len() == 1443 && u4.len() == 1599
                && u5.len() == 2457 && u6.len() == 3315 && u.len() == 6175);
            assert forall|j: int| 0 <= j < 10
                implies #[trigger] u[j] == (ppm64(sf_masks()[j]), (1600 + j) as u32) by {
                assert(u1[0 + j] == (ppm64(sfs@[j]), (1600 + j) as u32));
                assert(u2[j] == u1[j] && u3[j] == u2[j] && u4[j] == u3[j] && u5[j] == u4[j]
                    && u6[j] == u5[j] && u[j] == u6[j]);
            }
            assert forall|j: int| 10 <= j < 1287
                implies #[trigger] u[j] == (ppm64(flush_masks()[j - 10]), (6176 + j) as u32) by {
                assert(u2[u1.len() as int + (j - 10)] == (
                    ppm64(flushes@[j - 10]),
                    (6186 + (j - 10)) as u32,
                ));
                assert(u3[j] == u2[j] && u4[j] == u3[j] && u5[j] == u4[j] && u6[j] == u5[j]
                    && u[j] == u6[j]);
            }
            assert forall|j: int| 1287 <= j < 1443
                implies #[trigger] u[j] == (quad_key(j - 1287) as u64, (j - 1276) as u32) by {
                assert(u3[u2.len() as int + (j - 1287)] == (
                    quad_key(j - 1287) as u64,
                    (11 + (j - 1287)) as u32,
                ));
                assert(u4[j] == u3[j] && u5[j] == u4[j] && u6[j] == u5[j] && u[j] == u6[j]);
            }
            assert forall|j: int| 1443 <= j < 1599
                implies #[trigger] u[j] == (fh_key(j - 1443) as u64, (j - 1276) as u32) by {
                assert(u4[u3.len() as int + (j - 1443)] == (
                    fh_key(j - 1443) as u64,
                    (167 + (j - 1443)) as u32,
                ));
                assert(u5[j] == u4[j] && u6[j] == u5[j] && u[j] == u6[j]);
            }
            assert forall|j: int| 1599 <= j < 2457
                implies #[trigger] u[j] == (trip_key(j - 1599) as u64, (j + 11) as u32) by {
                assert(u5[u4.len() as int + (j - 1599)] == (
                    trip_key(j - 1599) as u64,
                    (1610 + (j - 1599)) as u32,
                ));
                assert(u6[j] == u5[j] && u[j] == u6[j]);
            }
            assert forall|j: int| 2457 <= j < 3315
                implies #[trigger] u[j] == (twopair_key(j - 2457) as u64, (j + 11) as u32) by {
                assert(u6[u5.len() as int + (j - 2457)] == (
                    twopair_key(j - 2457) as u64,
                    (2468 + (j - 2457)) as u32,
                ));
                assert(u[j] == u6[j]);
            }
            assert forall|j: int| 3315 <= j < 6175
                implies #[trigger] u[j] == (pair_key(j - 3315) as u64, (j + 11) as u32) by {
                assert(u[u6.len() as int + (j - 3315)] == (
                    pair_key(j - 3315) as u64,
                    (3326 + (j - 3315)) as u32,
                ));
            }
            assert(flush_table_complete(flush_lookup@));
            assert(unsuited_table_complete(unsuited_lookup@));
            assert(forall|j: int| 0 <= j < 1287
                ==> (#[trigger] flush_lookup@[j]).0 == flush_key_at(j));
            assert(forall|j: int| 0 <= j < 6175
                ==> (#[trigger] unsuited_lookup@[j]).0 == unsuited_key_at(j));
        }

        // a key collision would let one entry shadow another under the
        // first-match lookup; like a count mismatch it is fatal
        if !keys_distinct(&flush_lookup) {
            proof {
                let (i, j) = choose|i: int, j: int| 0 <= i < j < flush_lookup@.len()
                    && (#[trigger] flush_lookup@[i]).0 == (#[trigger] flush_lookup@[j]).0;
                assert(flush_key_at(i) == flush_key_at(j));
                assert(!tables_collision_free());
            }
            return Err(PokerError::CorruptTable);
        }
        if !keys_distinct(&unsuited_lookup) {
            proof {
                let (i, j) = choose|i: int, j: int| 0 <= i < j < unsuited_lookup@.len()
                    && (#[trigger] unsuited_lookup@[i]).0
                        == (#[trigger] unsuited_lookup@[j]).0;
                assert(unsuited_key_at(i) == unsuited_key_at(j));
                assert(!tables_collision_free());
            }
            return Err(PokerError::CorruptTable);
        }
        proof {
            assert forall|i: int, j: int| 0 <= i < j < 1287
                implies #[trigger] flush_key_at(i) != #[trigger] flush_key_at(j) by {
                assert(flush_lookup@[i].0 == flush_key_at(i));
                assert(flush_lookup@[j].0 == flush_key_at(j));
            }
            assert forall|i: int, j: int| 0 <= i < j < 6175
                implies #[trigger] unsuited_key_at(i) != #[trigger] unsuited_key_at(j) by {
                assert(unsuited_lookup@[i].0 == unsuited_key_at(i));
                assert(unsuited_lookup@[j].0 == unsuited_key_at(j));
            }
        }
        Ok(LookupTable { flush_lookup, unsuited_lookup })
    }
}

/// Table completeness: the flush table has exactly 1287 entries, the
/// unsuited table exactly 6175, and every rank 1..=7462 is achieved by an
/// entry of one of the two tables — no gaps.
pub proof fn lemma_all_ranks_covered(t: LookupTable, rank: u32)
    requires
        t.wf(),
        1 <= rank <= 7462,
    ensures
        t.flush_lookup@.len() == 1287,
        t.unsuited_lookup@.len() == 6175,
        (exists|j: int| 0 <= j < t.flush_lookup@.len()
            && (#[trigger] t.flush_lookup@[j]).1 == rank)
        || (exists|j: int| 0 <= j < t.unsuited_lookup@.len()
            && (#[trigger] t.unsuited_lookup@[j]).1 == rank),
{
    let f = t.flush_lookup@;
    let u = t.unsuited_lookup@;
    if rank <= 10 {
        assert(f[rank - 1].1 == rank);
    } else if rank <= 166 {
        assert(u[1287 + (rank - 11)].1 == rank);
    } else if rank <= 322 {
        assert(u[1443 + (rank - 167)].1 == rank);
    } else if rank <= 1599 {
        assert(f[10 + (rank - 323)].1 == rank);
    } else if rank <= 1609 {
        assert(u[rank - 1600].1 == rank);
    } else if rank <= 2467 {
        assert(u[1599 + (rank - 1610)].1 == rank);
    } else if rank <= 3325 {
        assert(u[2457 + (rank - 2468)].1 == rank);
    } else if rank <= 6185 {
        assert(u[3315 + (rank - 3326)].1 == rank);
    } else {
        assert(u[10 + (rank - 6186)].1 == rank);
    }
}

} // verus!
