//! Hand strength evaluation, after Cactus Kev: a 5-card hand is ranked by a
//! single table lookup on its prime product; a 6- or 7-card hand is the
//! minimum (strongest) rank over all of its 5-card subsets.

use vstd::prelude::*;
use crate::card::Card;
use crate::combinatorics::{is_selection, spec_select, combos_five};
use crate::errors::PokerError;
use crate::eval_card::{
    EvaluationCard, spec_prime_product, lemma_prime_product_bound,
    lemma_ppm_bound,
};
use crate::lookup::{
    LookupTable, MaxHand, RANK_CLASS_TO_STRING, MAX_STRAIGHT_FLUSH, MAX_FOUR_OF_A_KIND,
    MAX_FULL_HOUSE, MAX_FLUSH, MAX_STRAIGHT, MAX_THREE_OF_A_KIND, MAX_TWO_PAIR, MAX_PAIR,
    MAX_HIGH_CARD, masks_generable, ppm64,
};

verus! {

/// Packed encodings of a sequence of cards.
pub open spec fn enc_seq(cards: Seq<Card>) -> Seq<u32> {
    cards.map_values(|c: Card| c.eval_card)
}

/// Bitwise AND of all the packed cards of a hand.
pub open spec fn and_cards(s: Seq<u32>) -> u32
    decreases s.len(),
{
    if s.len() == 0 { 0xFFFF_FFFFu32 } else { and_cards(s.drop_last()) & s.last() }
}

/// Bitwise OR of all the packed cards of a hand.
pub open spec fn or_cards(s: Seq<u32>) -> u32
    decreases s.len(),
{
    if s.len() == 0 { 0u32 } else { or_cards(s.drop_last()) | s.last() }
}

/// First table entry with the given key, if any.
pub open spec fn spec_lookup(t: Seq<(u64, u32)>, key: u64) -> Option<u32>
    decreases t.len(),
{
    if t.len() == 0 {
        None
    } else if t[0].0 == key {
        Some(t[0].1)
    } else {
        spec_lookup(t.drop_first(), key)
    }
}

/// The rank the tables assign to a 5-card hand: if all five cards share a
/// suit bit, the flush table keyed by the rank-mask product; otherwise the
/// unsuited table keyed by the card prime product.
#[verifier::opaque]
pub open spec fn rank5(ft: Seq<(u64, u32)>, ut: Seq<(u64, u32)>, hand: Seq<u32>) -> Option<u32> {
    if and_cards(hand) & 0xF000 != 0 {
        spec_lookup(ft, ppm64((or_cards(hand) >> 16u32)))
    } else {
        spec_lookup(ut, spec_prime_product(hand) as u64)
    }
}

/// Every 5-card selection of the hand has a key present in the tables.
pub open spec fn all_subsets_rankable(ft: Seq<(u64, u32)>, ut: Seq<(u64, u32)>, s: Seq<u32>) -> bool {
    forall|ix: Seq<int>| #[trigger] is_selection(ix, s.len() as int, 5)
        ==> rank5(ft, ut, spec_select(s, ix)) is Some
}

/// `v` is the minimum rank over all 5-card selections of the hand: every
/// selection ranks at least `v`, and some selection ranks exactly `v`.
pub open spec fn is_best_rank(ft: Seq<(u64, u32)>, ut: Seq<(u64, u32)>, s: Seq<u32>, v: u32) -> bool {
    &&& forall|ix: Seq<int>| #[trigger] is_selection(ix, s.len() as int, 5)
        ==> rank5(ft, ut, spec_select(s, ix)) is Some
            && v <= rank5(ft, ut, spec_select(s, ix))->0
    &&& exists|ix: Seq<int>| #[trigger] is_selection(ix, s.len() as int, 5)
        && rank5(ft, ut, spec_select(s, ix)) == Some(v)
}

/// The minimum rank over the 5-card selections.  Whenever any rank satisfies
/// `is_best_rank` this is it, and it is unique.
pub open spec fn spec_best_rank(ft: Seq<(u64, u32)>, ut: Seq<(u64, u32)>, s: Seq<u32>) -> u32 {
    choose|v: u32| is_best_rank(ft, ut, s, v)
}

/// The minimum property pins the rank down.
pub proof fn lemma_best_rank_unique(
    ft: Seq<(u64, u32)>,
    ut: Seq<(u64, u32)>,
    s: Seq<u32>,
    v1: u32,
    v2: u32,
)
    requires
        is_best_rank(ft, ut, s, v1),
        is_best_rank(ft, ut, s, v2),
    ensures
        v1 == v2,
{
    let jx1 = choose|ix: Seq<int>| is_selection(ix, s.len() as int, 5) && rank5(
        ft,
        ut,
        spec_select(s, ix),
    ) == Some(v1);
    let jx2 = choose|ix: Seq<int>| is_selection(ix, s.len() as int, 5) && rank5(
        ft,
        ut,
        spec_select(s, ix),
    ) == Some(v2);
    assert(v1 <= rank5(ft, ut, spec_select(s, jx2))->0);
    assert(v2 <= rank5(ft, ut, spec_select(s, jx1))->0);
}

/// Whether `evaluate` succeeds on a hand of this size: the sizes 5, 6 and 7
/// are allowed, and every needed table key must be present.
pub open spec fn spec_eval_ok(ft: Seq<(u64, u32)>, ut: Seq<(u64, u32)>, s: Seq<u32>) -> bool {
    if s.len() == 5 {
        rank5(ft, ut, s) is Some
    } else if s.len() == 6 || s.len() == 7 {
        all_subsets_rankable(ft, ut, s)
    } else {
        false
    }
}

/// The rank `evaluate` returns when it succeeds: the table rank of a 5-card
/// hand, the minimum over the 5-card selections otherwise.  Together with
/// `spec_eval_ok` this makes evaluation a function of the tables and the
/// cards alone.
pub open spec fn spec_eval_rank(ft: Seq<(u64, u32)>, ut: Seq<(u64, u32)>, s: Seq<u32>) -> u32 {
    if s.len() == 5 {
        rank5(ft, ut, s)->0
    } else {
        spec_best_rank(ft, ut, s)
    }
}

/// The AND fold ignores the order of the cards: removing an element and
/// AND-ing it back in gives the same fold.
proof fn lemma_and_cards_remove(s: Seq<u32>, i: int)
    requires
        0 <= i < s.len(),
    ensures
        and_cards(s) == and_cards(s.remove(i)) & s[i],
    decreases s.len(),
{
    if i == s.len() - 1 {
        assert(s.remove(i) =~= s.drop_last());
    } else {
        assert(s.remove(i).drop_last() =~= s.drop_last().remove(i));
        assert(s.remove(i).last() == s.last());
        lemma_and_cards_remove(s.drop_last(), i);
        let a = and_cards(s.drop_last().remove(i));
        let x = s[i];
        let y = s.last();
        assert((a & x) & y == (a & y) & x) by (bit_vector);
    }
}

proof fn lemma_or_cards_remove(s: Seq<u32>, i: int)
    requires
        0 <= i < s.len(),
    ensures
        or_cards(s) == or_cards(s.remove(i)) | s[i],
    decreases s.len(),
{
    if i == s.len() - 1 {
        assert(s.remove(i) =~= s.drop_last());
    } else {
        assert(s.remove(i).drop_last() =~= s.drop_last().remove(i));
        assert(s.remove(i).last() == s.last());
        lemma_or_cards_remove(s.drop_last(), i);
        let a = or_cards(s.drop_last().remove(i));
        let x = s[i];
        let y = s.last();
        assert((a | x) | y == (a | y) | x) by (bit_vector);
    }
}

proof fn lemma_product_remove(s: Seq<u32>, i: int)
    requires
        0 <= i < s.len(),
    ensures
        spec_prime_product(s) == spec_prime_product(s.remove(i)) * ((s[i] & 0xFF) as int),
    decreases s.len(),
{
    if i == s.len() - 1 {
        assert(s.remove(i) =~= s.drop_last());
    } else {
        assert(s.remove(i).drop_last() =~= s.drop_last().remove(i));
        assert(s.remove(i).last() == s.last());
        lemma_product_remove(s.drop_last(), i);
        let a = spec_prime_product(s.drop_last().remove(i));
        let x = (s[i] & 0xFF) as int;
        let y = (s.last() & 0xFF) as int;
        assert((a * x) * y == (a * y) * x) by (nonlinear_arith);
    }
}

/// The three folds a 5-card rank depends on are invariant under reordering
/// the cards.
proof fn lemma_folds_reorder(s1: Seq<u32>, s2: Seq<u32>)
    requires
        s1.to_multiset() == s2.to_multiset(),
    ensures
        and_cards(s1) == and_cards(s2),
        or_cards(s1) == or_cards(s2),
        spec_prime_product(s1) == spec_prime_product(s2),
    decreases s1.len(),
{
    broadcast use vstd::multiset::group_multiset_axioms;

    s1.to_multiset_ensures();
    s2.to_multiset_ensures();
    if s1.len() == 0 {
        assert(s2.to_multiset().len() == 0);
        assert(s2.len() == 0);
    } else {
        let x = s1.last();
        assert(s1.to_multiset().count(x) > 0) by {
            assert(s1.contains(x));
        }
        assert(s2.to_multiset().count(x) > 0);
        assert(s2.contains(x));
        let i = choose|i: int| 0 <= i < s2.len() && s2[i] == x;
        assert(s1.drop_last() =~= s1.remove(s1.len() - 1));
        assert(s1.remove(s1.len() - 1).to_multiset() == s1.to_multiset().remove(x));
        assert(s2.remove(i).to_multiset() == s2.to_multiset().remove(x));
        lemma_folds_reorder(s1.drop_last(), s2.remove(i));
        lemma_and_cards_remove(s2, i);
        lemma_or_cards_remove(s2, i);
        lemma_product_remove(s2, i);
    }
}

/// With pairwise distinct keys, the first-match lookup reaches every entry.
proof fn lemma_lookup_at(t: Seq<(u64, u32)>, j: int)
    requires
        crate::lookup::table_keys_distinct(t),
        0 <= j < t.len(),
    ensures
        spec_lookup(t, t[j].0) == Some(t[j].1),
    decreases t.len(),
{
    if j > 0 {
        assert(t[0].0 != t[j].0);
        assert(forall|a: int, b: int| 0 <= a < b < t.drop_first().len()
            ==> (#[trigger] t.drop_first()[a]).0 != (#[trigger] t.drop_first()[b]).0);
        assert(t.drop_first()[j - 1] == t[j]);
        lemma_lookup_at(t.drop_first(), j - 1);
    }
}

/// Table completeness at the lookup level: with the tables built and
/// collision-free, every rank 1..=7462 is what some key looks up to — no
/// rank is shadowed or missing.
pub proof fn lemma_every_rank_reachable(t: LookupTable, rank: u32)
    requires
        t.wf(),
        crate::lookup::table_keys_distinct(t.flush_lookup@),
        crate::lookup::table_keys_distinct(t.unsuited_lookup@),
        1 <= rank <= 7462,
    ensures
        (exists|key: u64| #[trigger] spec_lookup(t.flush_lookup@, key) == Some(rank))
            || (exists|key: u64| #[trigger] spec_lookup(t.unsuited_lookup@, key)
            == Some(rank)),
{
    crate::lookup::lemma_all_ranks_covered(t, rank);
    if exists|j: int| 0 <= j < t.flush_lookup@.len()
        && (#[trigger] t.flush_lookup@[j]).1 == rank {
        let j = choose|j: int| 0 <= j < t.flush_lookup@.len()
            && (#[trigger] t.flush_lookup@[j]).1 == rank;
        lemma_lookup_at(t.flush_lookup@, j);
        assert(spec_lookup(t.flush_lookup@, t.flush_lookup@[j].0) == Some(rank));
    } else {
        let j = choose|j: int| 0 <= j < t.unsuited_lookup@.len()
            && (#[trigger] t.unsuited_lookup@[j]).1 == rank;
        lemma_lookup_at(t.unsuited_lookup@, j);
        assert(spec_lookup(t.unsuited_lookup@, t.unsuited_lookup@[j].0) == Some(rank));
    }
}

/// Reordering law for 5-card hands: the rank the tables assign depends only
/// on which cards are in the hand, not on the order they were given in.
pub proof fn lemma_rank5_reorder(
    ft: Seq<(u64, u32)>,
    ut: Seq<(u64, u32)>,
    s1: Seq<u32>,
    s2: Seq<u32>,
)
    requires
        s1.to_multiset() == s2.to_multiset(),
    ensures
        rank5(ft, ut, s1) == rank5(ft, ut, s2),
{
    reveal(rank5);
    lemma_folds_reorder(s1, s2);
}

/// Minimality law for 6- and 7-card hands, one direction of the subset
/// property: a result that satisfies the evaluator's minimum contract is at
/// most the rank of any chosen 5-card subset.
pub proof fn lemma_best_le_subset(
    ft: Seq<(u64, u32)>,
    ut: Seq<(u64, u32)>,
    cards: Seq<u32>,
    r_all: u32,
    ix: Seq<int>,
    r_sub: u32,
)
    requires
        forall|jx: Seq<int>| #[trigger] is_selection(jx, cards.len() as int, 5) ==> rank5(
            ft,
            ut,
            spec_select(cards, jx),
        ) is Some && r_all <= rank5(ft, ut, spec_select(cards, jx))->0,
        is_selection(ix, cards.len() as int, 5),
        rank5(ft, ut, spec_select(cards, ix)) == Some(r_sub),
    ensures
        r_all <= r_sub,
{
}

/// Reordering law, success side: whether every 5-card subset of a hand has
/// a table key does not depend on the order of the cards, so a reordered
/// hand succeeds exactly when the original does.
pub proof fn lemma_rankable_reorder(
    ft: Seq<(u64, u32)>,
    ut: Seq<(u64, u32)>,
    s1: Seq<u32>,
    s2: Seq<u32>,
)
    requires
        s1.to_multiset() == s2.to_multiset(),
    ensures
        all_subsets_rankable(ft, ut, s1) == all_subsets_rankable(ft, ut, s2),
{
    broadcast use vstd::multiset::group_multiset_axioms;

    s1.to_multiset_ensures();
    s2.to_multiset_ensures();
    if all_subsets_rankable(ft, ut, s2) {
        lemma_rankable_reorder_from(ft, ut, s1, s2);
    }
    if all_subsets_rankable(ft, ut, s1) {
        lemma_rankable_reorder_from(ft, ut, s2, s1);
    }
}

proof fn lemma_rankable_reorder_from(
    ft: Seq<(u64, u32)>,
    ut: Seq<(u64, u32)>,
    s1: Seq<u32>,
    s2: Seq<u32>,
)
    requires
        s1.to_multiset() == s2.to_multiset(),
        all_subsets_rankable(ft, ut, s2),
    ensures
        all_subsets_rankable(ft, ut, s1),
{
    broadcast use vstd::multiset::group_multiset_axioms;

    s1.to_multiset_ensures();
    s2.to_multiset_ensures();
    assert forall|ix: Seq<int>| #[trigger] is_selection(ix, s1.len() as int, 5)
        implies rank5(ft, ut, spec_select(s1, ix)) is Some by {
        let sub1 = spec_select(s1, ix);
        assert(ix.len() == 5 && sub1.len() == 5) by {
            reveal(crate::combinatorics::is_selection);
            reveal(crate::combinatorics::spec_select);
        }
        crate::combinatorics::lemma_select_le(s1, ix);
        sub1.to_multiset_ensures();
        assert(sub1.to_multiset().len() == 5);
        assert(sub1.to_multiset().subset_of(s2.to_multiset()));
        crate::combinatorics::lemma_extract_selection(s2, sub1.to_multiset());
        let jx = choose|jx: Seq<int>| is_selection(jx, s2.len() as int, 5) && spec_select(
            s2,
            jx,
        ).to_multiset() == sub1.to_multiset();
        lemma_rank5_reorder(ft, ut, sub1, spec_select(s2, jx));
        assert(rank5(ft, ut, spec_select(s2, jx)) is Some);
    }
}

/// Reordering law for 6- and 7-card hands: two hands holding the same cards
/// in any order, each evaluated to the minimum over its 5-card subsets,
/// evaluate to the same rank.
pub proof fn lemma_best_reorder(
    ft: Seq<(u64, u32)>,
    ut: Seq<(u64, u32)>,
    s1: Seq<u32>,
    s2: Seq<u32>,
    r1: u32,
    r2: u32,
)
    requires
        s1.to_multiset() == s2.to_multiset(),
        forall|jx: Seq<int>| #[trigger] is_selection(jx, s1.len() as int, 5) ==> rank5(
            ft,
            ut,
            spec_select(s1, jx),
        ) is Some && r1 <= rank5(ft, ut, spec_select(s1, jx))->0,
        exists|jx: Seq<int>| #[trigger] is_selection(jx, s1.len() as int, 5) && rank5(
            ft,
            ut,
            spec_select(s1, jx),
        ) == Some(r1),
        forall|jx: Seq<int>| #[trigger] is_selection(jx, s2.len() as int, 5) ==> rank5(
            ft,
            ut,
            spec_select(s2, jx),
        ) is Some && r2 <= rank5(ft, ut, spec_select(s2, jx))->0,
        exists|jx: Seq<int>| #[trigger] is_selection(jx, s2.len() as int, 5) && rank5(
            ft,
            ut,
            spec_select(s2, jx),
        ) == Some(r2),
    ensures
        r1 == r2,
{
    broadcast use vstd::multiset::group_multiset_axioms;

    s1.to_multiset_ensures();
    s2.to_multiset_ensures();
    lemma_best_reorder_le(ft, ut, s1, s2, r1, r2);
    lemma_best_reorder_le(ft, ut, s2, s1, r2, r1);
}

/// One direction of the reordering law: the minimum over one ordering is at
/// most the minimum over the other.
proof fn lemma_best_reorder_le(
    ft: Seq<(u64, u32)>,
    ut: Seq<(u64, u32)>,
    s1: Seq<u32>,
    s2: Seq<u32>,
    r1: u32,
    r2: u32,
)
    requires
        s1.to_multiset() == s2.to_multiset(),
        forall|jx: Seq<int>| #[trigger] is_selection(jx, s1.len() as int, 5) ==> rank5(
            ft,
            ut,
            spec_select(s1, jx),
        ) is Some && r1 <= rank5(ft, ut, spec_select(s1, jx))->0,
        exists|jx: Seq<int>| #[trigger] is_selection(jx, s2.len() as int, 5) && rank5(
            ft,
            ut,
            spec_select(s2, jx),
        ) == Some(r2),
    ensures
        r1 <= r2,
{
    broadcast use vstd::multiset::group_multiset_axioms;

    let jx = choose|jx: Seq<int>| is_selection(jx, s2.len() as int, 5) && rank5(
        ft,
        ut,
        spec_select(s2, jx),
    ) == Some(r2);
    let sub2 = spec_select(s2, jx);
    assert(jx.len() == 5 && sub2.len() == 5) by {
        reveal(crate::combinatorics::is_selection);
        reveal(crate::combinatorics::spec_select);
    }
    crate::combinatorics::lemma_select_le(s2, jx);
    sub2.to_multiset_ensures();
    assert(sub2.to_multiset().len() == 5);
    assert(sub2.to_multiset().subset_of(s1.to_multiset()));
    crate::combinatorics::lemma_extract_selection(s1, sub2.to_multiset());
    let ix = choose|ix: Seq<int>| is_selection(ix, s1.len() as int, 5) && spec_select(
        s1,
        ix,
    ).to_multiset() == sub2.to_multiset();
    lemma_rank5_reorder(ft, ut, spec_select(s1, ix), sub2);
    assert(r1 <= rank5(ft, ut, spec_select(s1, ix))->0);
}

/// Linear search of a table for a key.
fn lookup_rank(table: &Vec<(u64, u32)>, key: u64) -> (r: Option<u32>)
    ensures
        r == spec_lookup(table@, key),
{
    proof {
        assert(table@.skip(0) =~= table@);
    }
    let mut i: usize = 0;
    while i < table.len()
        invariant
            i <= table@.len(),
            spec_lookup(table@, key) == spec_lookup(table@.skip(i as int), key),
        decreases table@.len() - i,
    {
        let (k, v) = table[i];
        proof {
            assert(table@.skip(i as int)[0] == table@[i as int]);
            assert(table@.skip(i as int).drop_first() =~= table@.skip(i + 1));
        }
        if k == key {
            return Some(v);
        }
        i = i + 1;
    }
    None
}

/// The hand evaluator: an immutable pair of lookup tables, stateless per
/// call.
pub struct Evaluator {
    pub table: LookupTable,
}

impl Evaluator {
    /// Both tables fully built.
    pub open spec fn wf(self) -> bool {
        self.table.wf()
    }

    /// Builds the lookup tables; fails only on the fatal construction
    /// mismatch.
    pub fn new() -> (r: Result<Evaluator, PokerError>)
        ensures
            r is Ok <==> masks_generable() && crate::lookup::tables_collision_free(),
            r is Ok ==> r->Ok_0.wf() && crate::lookup::table_keys_distinct(
                r->Ok_0.table.flush_lookup@,
            ) && crate::lookup::table_keys_distinct(r->Ok_0.table.unsuited_lookup@),
            r is Err ==> r->Err_0 == PokerError::CorruptTable,
    {
        match LookupTable::new() {
            Ok(table) => Ok(Evaluator { table }),
            Err(e) => Err(e),
        }
    }

    /// Rank of exactly 5 packed cards: one lookup, `CorruptTable` if the
    /// key is absent.
    fn _five(&self, cards: &Vec<u32>) -> (r: Result<u32, PokerError>)
        requires
            cards@.len() == 5,
        ensures
            r is Ok <==> rank5(self.table.flush_lookup@, self.table.unsuited_lookup@, cards@)
                is Some,
            r is Ok ==> Some(r->Ok_0) == rank5(
                self.table.flush_lookup@,
                self.table.unsuited_lookup@,
                cards@,
            ),
            r is Err ==> r->Err_0 == PokerError::CorruptTable,
    {
        let s = cards;
        let ghost sq = cards@;
        proof {
            reveal(rank5);
            let s4 = sq.drop_last();
            let s3 = s4.drop_last();
            let s2 = s3.drop_last();
            let s1 = s2.drop_last();
            let s0 = s1.drop_last();
            assert(s0.len() == 0);
            assert(and_cards(sq) == and_cards(s4) & sq[4]);
            assert(and_cards(s4) == and_cards(s3) & sq[3]);
            assert(and_cards(s3) == and_cards(s2) & sq[2]);
            assert(and_cards(s2) == and_cards(s1) & sq[1]);
            assert(and_cards(s1) == and_cards(s0) & sq[0]);
            assert(and_cards(s0) == 0xFFFF_FFFFu32);
            assert(or_cards(sq) == or_cards(s4) | sq[4]);
            assert(or_cards(s4) == or_cards(s3) | sq[3]);
            assert(or_cards(s3) == or_cards(s2) | sq[2]);
            assert(or_cards(s2) == or_cards(s1) | sq[1]);
            assert(or_cards(s1) == or_cards(s0) | sq[0]);
            assert(or_cards(s0) == 0u32);
            let c0 = sq[0];
            assert(0xFFFF_FFFFu32 & c0 == c0) by (bit_vector);
            assert(0u32 | c0 == c0) by (bit_vector);
        }
        let conj: u32 = s[0] & s[1] & s[2] & s[3] & s[4];
        if conj & 0xF000 != 0 {
            let disj: u32 = s[0] | s[1] | s[2] | s[3] | s[4];
            let hand_or: u32 = disj >> 16;
            let prime = EvaluationCard::prime_product_from_rankbits(hand_or);
            proof {
                lemma_ppm_bound(hand_or, 13);
            }
            match lookup_rank(&self.table.flush_lookup, prime) {
                Some(rank) => Ok(rank),
                None => Err(PokerError::CorruptTable),
            }
        } else {
            let prime = EvaluationCard::prime_product_from_hand(s);
            proof {
                lemma_prime_product_bound(sq);
            }
            match lookup_rank(&self.table.unsuited_lookup, prime) {
                Some(rank) => Ok(rank),
                None => Err(PokerError::CorruptTable),
            }
        }
    }

    /// Minimum rank over every 5-card subset of 5 to 7 cards.
    #[verifier::loop_isolation(false)]
    #[verifier::rlimit(100)]
    fn best_over_subsets(&self, cards: &Vec<u32>) -> (r: Result<u32, PokerError>)
        requires
            5 <= cards@.len() <= 7,
        ensures
            r is Ok <==> all_subsets_rankable(
                self.table.flush_lookup@,
                self.table.unsuited_lookup@,
                cards@,
            ),
            r is Ok ==> is_best_rank(
                self.table.flush_lookup@,
                self.table.unsuited_lookup@,
                cards@,
                r->Ok_0,
            ) && r->Ok_0 == spec_best_rank(
                self.table.flush_lookup@,
                self.table.unsuited_lookup@,
                cards@,
            ),
            r is Err ==> r->Err_0 == PokerError::CorruptTable,
    {
        let ghost ft = self.table.flush_lookup@;
        let ghost ut = self.table.unsuited_lookup@;
        let ghost n = cards@.len() as int;
        let combos = combos_five(cards);
        proof {
            let ix0: Seq<int> = seq![0, 1, 2, 3, 4];
            assert(is_selection(ix0, n, 5)) by {
                reveal(is_selection);
            }
            assert(combos@.len() > 0);
        }

        let mut best: u32 = 0;
        let ghost mut best_kk: int = 0;
        let mut have_best: bool = false;
        let mut k: usize = 0;
        while k < combos.len()
            invariant
                k <= combos@.len(),
                have_best <==> k > 0,
                forall|kk: int| 0 <= kk < k ==> rank5(ft, ut, (#[trigger] combos@[kk])@) is Some
                    && best <= rank5(ft, ut, combos@[kk]@)->0,
                have_best ==> 0 <= best_kk < k && rank5(ft, ut, combos@[best_kk]@) == Some(best),
            decreases combos@.len() - k,
        {
            let combo = &combos[k];
            proof {
                let ix = choose|ix: Seq<int>| is_selection(ix, n, 5) && combos@[k as int]@
                    == spec_select(cards@, ix);
                assert(is_selection(ix, n, 5) && combos@[k as int]@ == spec_select(cards@, ix));
                reveal(is_selection);
                reveal(spec_select);
                assert(combo@.len() == 5);
            }
            let score = match self._five(combo) {
                Ok(v) => v,
                Err(_) => {
                    proof {
                        let ix = choose|ix: Seq<int>| is_selection(ix, n, 5)
                            && combos@[k as int]@ == spec_select(cards@, ix);
                        assert(is_selection(ix, n, 5) && rank5(ft, ut, spec_select(cards@, ix))
                            is None);
                        assert(!all_subsets_rankable(ft, ut, cards@));
                    }
                    return Err(PokerError::CorruptTable);
                },
            };
            if !have_best || score < best {
                best = score;
                proof {
                    best_kk = k as int;
                }
                have_best = true;
            } else {
                have_best = true;
            }
            k = k + 1;
        }
        proof {
            assert forall|ix: Seq<int>| #[trigger] is_selection(ix, n, 5)
                implies rank5(ft, ut, spec_select(cards@, ix)) is Some && best <= rank5(
                    ft,
                    ut,
                    spec_select(cards@, ix),
                )->0 by {
                let kk = choose|kk: int| 0 <= kk < combos@.len() && (#[trigger] combos@[kk])@
                    == spec_select(cards@, ix);
                assert(0 <= kk < combos@.len() && combos@[kk]@ == spec_select(cards@, ix));
                assert(rank5(ft, ut, combos@[kk]@) is Some);
            }
            let ixw = choose|ix: Seq<int>| is_selection(ix, n, 5) && combos@[best_kk]@
                == spec_select(cards@, ix);
            assert(is_selection(ixw, n, 5) && rank5(ft, ut, spec_select(cards@, ixw))
                == Some(best));
            assert(is_best_rank(ft, ut, cards@, best));
            assert(is_best_rank(ft, ut, cards@, spec_best_rank(ft, ut, cards@))) by {
                assert(exists|v: u32| is_best_rank(ft, ut, cards@, v));
            }
            lemma_best_rank_unique(ft, ut, cards@, best, spec_best_rank(ft, ut, cards@));
        }
        Ok(best)
    }

    /// Minimum rank over the 6 five-card subsets of 6 cards; fails with
    /// `CorruptTable` exactly when some subset's key is absent.
    fn _six(&self, cards: &Vec<u32>) -> (r: Result<u32, PokerError>)
        requires
            cards@.len() == 6,
        ensures
            r is Ok <==> all_subsets_rankable(
                self.table.flush_lookup@,
                self.table.unsuited_lookup@,
                cards@,
            ),
            r is Ok ==> is_best_rank(
                self.table.flush_lookup@,
                self.table.unsuited_lookup@,
                cards@,
                r->Ok_0,
            ) && r->Ok_0 == spec_best_rank(
                self.table.flush_lookup@,
                self.table.unsuited_lookup@,
                cards@,
            ),
            r is Err ==> r->Err_0 == PokerError::CorruptTable,
    {
        self.best_over_subsets(cards)
    }

    /// Minimum rank over the 21 five-card subsets of 7 cards; fails with
    /// `CorruptTable` exactly when some subset's key is absent.
    fn _seven(&self, cards: &Vec<u32>) -> (r: Result<u32, PokerError>)
        requires
            cards@.len() == 7,
        ensures
            r is Ok <==> all_subsets_rankable(
                self.table.flush_lookup@,
                self.table.unsuited_lookup@,
                cards@,
            ),
            r is Ok ==> is_best_rank(
                self.table.flush_lookup@,
                self.table.unsuited_lookup@,
                cards@,
                r->Ok_0,
            ) && r->Ok_0 == spec_best_rank(
                self.table.flush_lookup@,
                self.table.unsuited_lookup@,
                cards@,
            ),
            r is Err ==> r->Err_0 == PokerError::CorruptTable,
    {
        self.best_over_subsets(cards)
    }

    /// Ranks the best 5-card hand out of hole cards plus board: 5, 6 or 7
    /// cards in all; any other total is `InvalidHandSize`.
    pub fn evaluate(&self, cards: &Vec<Card>, board: &Vec<Card>) -> (r: Result<u32, PokerError>)
        ensures
            ({
                let ft = self.table.flush_lookup@;
                let ut = self.table.unsuited_lookup@;
                let all = enc_seq(cards@) + enc_seq(board@);
                &&& (r is Ok <==> spec_eval_ok(ft, ut, all))
                &&& r is Ok ==> r->Ok_0 == spec_eval_rank(ft, ut, all)
                &&& all.len() == 5 && r is Ok ==> Some(r->Ok_0) == rank5(ft, ut, all)
                &&& (all.len() == 6 || all.len() == 7) && r is Ok ==> is_best_rank(
                    ft,
                    ut,
                    all,
                    r->Ok_0,
                )
                &&& (r is Err && r->Err_0 == PokerError::InvalidHandSize <==> !(all.len() == 5
                    || all.len() == 6 || all.len() == 7))
                &&& (r is Err && r->Err_0 == PokerError::CorruptTable <==> ((all.len() == 5
                    || all.len() == 6 || all.len() == 7) && !spec_eval_ok(ft, ut, all)))
                &&& r is Err ==> (r->Err_0 == PokerError::InvalidHandSize || r->Err_0
                    == PokerError::CorruptTable)
            }),
    {
        let mut all_cards: Vec<u32> = Vec::new();
        let mut i: usize = 0;
        while i < cards.len()
            invariant
                i <= cards@.len(),
                all_cards@ == enc_seq(cards@).take(i as int),
            decreases cards@.len() - i,
        {
            all_cards.push(cards[i].eval_card);
            proof {
                assert(enc_seq(cards@).take(i + 1) =~= enc_seq(cards@).take(i as int).push(
                    cards@[i as int].eval_card));
            }
            i = i + 1;
        }
        let mut j: usize = 0;
        while j < board.len()
            invariant
                j <= board@.len(),
                all_cards@ == enc_seq(cards@) + enc_seq(board@).take(j as int),
            decreases board@.len() - j,
        {
            all_cards.push(board[j].eval_card);
            proof {
                assert(enc_seq(cards@) + enc_seq(board@).take(j + 1) =~= (enc_seq(cards@)
                    + enc_seq(board@).take(j as int)).push(board@[j as int].eval_card));
            }
            j = j + 1;
        }
        proof {
            assert(enc_seq(cards@).take(cards@.len() as int) =~= enc_seq(cards@));
            assert(enc_seq(board@).take(board@.len() as int) =~= enc_seq(board@));
        }

        if all_cards.len() == 5 {
            self._five(&all_cards)
        } else if all_cards.len() == 6 {
            self._six(&all_cards)
        } else if all_cards.len() == 7 {
            self._seven(&all_cards)
        } else {
            Err(PokerError::InvalidHandSize)
        }
    }

    /// Class of a hand rank, by the fixed inclusive class boundaries; ranks
    /// outside 1..=7462 are `InvalidRank`.
    pub fn get_rank_class(&self, hr: u32) -> (r: Result<u32, PokerError>)
        ensures
            r is Ok <==> 1 <= hr <= 7462,
            r is Err ==> r->Err_0 == PokerError::InvalidRank,
            1 <= hr <= 10 ==> r == Ok::<u32, PokerError>(1),
            10 < hr <= 166 ==> r == Ok::<u32, PokerError>(2),
            166 < hr <= 322 ==> r == Ok::<u32, PokerError>(3),
            322 < hr <= 1599 ==> r == Ok::<u32, PokerError>(4),
            1599 < hr <= 1609 ==> r == Ok::<u32, PokerError>(5),
            1609 < hr <= 2467 ==> r == Ok::<u32, PokerError>(6),
            2467 < hr <= 3325 ==> r == Ok::<u32, PokerError>(7),
            3325 < hr <= 6185 ==> r == Ok::<u32, PokerError>(8),
            6185 < hr <= 7462 ==> r == Ok::<u32, PokerError>(9),
    {
        if hr == 0 {
            Err(PokerError::InvalidRank)
        } else if hr <= MAX_STRAIGHT_FLUSH {
            Ok(MaxHand::MAX_TO_RANK_CLASS(MaxHand::StraightFlush))
        } else if hr <= MAX_FOUR_OF_A_KIND {
            Ok(MaxHand::MAX_TO_RANK_CLASS(MaxHand::FourOfAKind))
        } else if hr <= MAX_FULL_HOUSE {
            Ok(MaxHand::MAX_TO_RANK_CLASS(MaxHand::FullHouse))
        } else if hr <= MAX_FLUSH {
            Ok(MaxHand::MAX_TO_RANK_CLASS(MaxHand::Flush))
        } else if hr <= MAX_STRAIGHT {
            Ok(MaxHand::MAX_TO_RANK_CLASS(MaxHand::Straight))
        } else if hr <= MAX_THREE_OF_A_KIND {
            Ok(MaxHand::MAX_TO_RANK_CLASS(MaxHand::ThreeOfAKind))
        } else if hr <= MAX_TWO_PAIR {
            Ok(MaxHand::MAX_TO_RANK_CLASS(MaxHand::TwoPair))
        } else if hr <= MAX_PAIR {
            Ok(MaxHand::MAX_TO_RANK_CLASS(MaxHand::OnePair))
        } else if hr <= MAX_HIGH_CARD {
            Ok(MaxHand::MAX_TO_RANK_CLASS(MaxHand::HighCard))
        } else {
            Err(PokerError::InvalidRank)
        }
    }

    /// Display name of a class number.
    pub fn class_to_string(&self, class_int: u32) -> (r: Result<&'static str, PokerError>)
        ensures
            r is Ok <==> 1 <= class_int <= 9,
            r is Err ==> r->Err_0 == PokerError::InvalidRank,
            class_int == 1 ==> r->Ok_0@ == "Straight Flush"@,
            class_int == 2 ==> r->Ok_0@ == "Four of a Kind"@,
            class_int == 3 ==> r->Ok_0@ == "Full House"@,
            class_int == 4 ==> r->Ok_0@ == "Flush"@,
            class_int == 5 ==> r->Ok_0@ == "Straight"@,
            class_int == 6 ==> r->Ok_0@ == "Three of a Kind"@,
            class_int == 7 ==> r->Ok_0@ == "Two Pair"@,
            class_int == 8 ==> r->Ok_0@ == "Pair"@,
            class_int == 9 ==> r->Ok_0@ == "High Card"@,
    {
        RANK_CLASS_TO_STRING(class_int)
    }
}

} // verus!
