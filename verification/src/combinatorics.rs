//! Combination enumeration.  The table builder walks all 2- and 3-element
//! combinations of kicker ranks, and the evaluator walks all 5-card subsets
//! of a 6- or 7-card hand; both enumerations are delegated to `itertools`
//! and described here as spec-level sequences.

use vstd::prelude::*;
use itertools::Itertools;
use vstd::multiset::Multiset;

verus! {

/// All 2-element combinations of `s`, in lexicographic order by position:
/// the first element paired with each later one, then the combinations of
/// the rest.
pub open spec fn spec_pairs(s: Seq<u8>) -> Seq<(u8, u8)>
    decreases s.len(),
{
    if s.len() < 2 {
        Seq::empty()
    } else {
        Seq::new((s.len() - 1) as nat, |j: int| (s[0], s[j + 1])) + spec_pairs(s.drop_first())
    }
}

/// All 3-element combinations of `s`, in lexicographic order by position.
pub open spec fn spec_triples(s: Seq<u8>) -> Seq<(u8, u8, u8)>
    decreases s.len(),
{
    if s.len() < 3 {
        Seq::empty()
    } else {
        spec_pairs(s.drop_first()).map_values(|p: (u8, u8)| (s[0], p.0, p.1))
            + spec_triples(s.drop_first())
    }
}

/// Number of 2-element combinations of `n` items.
pub open spec fn binom2(n: int) -> int
    decreases n,
{
    if n < 2 { 0 } else { binom2(n - 1) + (n - 1) }
}

/// Number of 3-element combinations of `n` items.
pub open spec fn binom3(n: int) -> int
    decreases n,
{
    if n < 3 { 0 } else { binom3(n - 1) + binom2(n - 1) }
}

pub proof fn lemma_pairs_len(s: Seq<u8>)
    ensures
        spec_pairs(s).len() == binom2(s.len() as int),
    decreases s.len(),
{
    if s.len() < 2 {
    } else {
        lemma_pairs_len(s.drop_first());
    }
}

pub proof fn lemma_triples_len(s: Seq<u8>)
    ensures
        spec_triples(s).len() == binom3(s.len() as int),
    decreases s.len(),
{
    if s.len() < 3 {
    } else {
        lemma_triples_len(s.drop_first());
        lemma_pairs_len(s.drop_first());
    }
}

/// Pair combinations draw both components from the underlying sequence, so
/// they inherit any upper bound on its elements.
pub proof fn lemma_pairs_bounded(s: Seq<u8>, m: u8)
    requires
        forall|k: int| 0 <= k < s.len() ==> #[trigger] s[k] <= m,
    ensures
        forall|j: int| 0 <= j < spec_pairs(s).len()
            ==> (#[trigger] spec_pairs(s)[j]).0 <= m && spec_pairs(s)[j].1 <= m,
    decreases s.len(),
{
    if s.len() < 2 {
    } else {
        assert(forall|k: int| 0 <= k < s.drop_first().len()
            ==> #[trigger] s.drop_first()[k] <= m);
        lemma_pairs_bounded(s.drop_first(), m);
        let head = Seq::new((s.len() - 1) as nat, |j: int| (s[0], s[j + 1]));
        assert forall|j: int| 0 <= j < spec_pairs(s).len()
            implies (#[trigger] spec_pairs(s)[j]).0 <= m && spec_pairs(s)[j].1 <= m by {
            if j < head.len() {
                assert(spec_pairs(s)[j] == head[j]);
                assert(s[j + 1] <= m);
            } else {
                assert(spec_pairs(s)[j] == spec_pairs(s.drop_first())[j - head.len()]);
            }
        }
    }
}

/// Pair combinations of a strictly descending sequence are themselves
/// ordered: the first component is the larger.
pub proof fn lemma_pairs_descending(s: Seq<u8>)
    requires
        forall|k: int, l: int| 0 <= k < l < s.len() ==> #[trigger] s[k] > #[trigger] s[l],
    ensures
        forall|j: int| 0 <= j < spec_pairs(s).len()
            ==> (#[trigger] spec_pairs(s)[j]).0 > spec_pairs(s)[j].1,
    decreases s.len(),
{
    if s.len() < 2 {
    } else {
        assert(forall|k: int, l: int| 0 <= k < l < s.drop_first().len()
            ==> #[trigger] s.drop_first()[k] > #[trigger] s.drop_first()[l]);
        lemma_pairs_descending(s.drop_first());
        let head = Seq::new((s.len() - 1) as nat, |j: int| (s[0], s[j + 1]));
        assert forall|j: int| 0 <= j < spec_pairs(s).len()
            implies (#[trigger] spec_pairs(s)[j]).0 > spec_pairs(s)[j].1 by {
            if j < head.len() {
                assert(spec_pairs(s)[j] == head[j]);
                assert(s[0] > s[j + 1]);
            } else {
                assert(spec_pairs(s)[j] == spec_pairs(s.drop_first())[j - head.len()]);
            }
        }
    }
}

/// Triple combinations draw all components from the underlying sequence.
pub proof fn lemma_triples_bounded(s: Seq<u8>, m: u8)
    requires
        forall|k: int| 0 <= k < s.len() ==> #[trigger] s[k] <= m,
    ensures
        forall|j: int| 0 <= j < spec_triples(s).len()
            ==> (#[trigger] spec_triples(s)[j]).0 <= m && spec_triples(s)[j].1 <= m
                && spec_triples(s)[j].2 <= m,
    decreases s.len(),
{
    if s.len() < 3 {
    } else {
        assert(forall|k: int| 0 <= k < s.drop_first().len()
            ==> #[trigger] s.drop_first()[k] <= m);
        lemma_triples_bounded(s.drop_first(), m);
        lemma_pairs_bounded(s.drop_first(), m);
        assert forall|j: int| 0 <= j < spec_triples(s).len()
            implies (#[trigger] spec_triples(s)[j]).0 <= m && spec_triples(s)[j].1 <= m
                && spec_triples(s)[j].2 <= m by {
            let head = spec_pairs(s.drop_first()).map_values(|p: (u8, u8)| (s[0], p.0, p.1));
            if j < head.len() {
                assert(spec_triples(s)[j] == head[j]);
                assert(head[j].1 == spec_pairs(s.drop_first())[j].0);
            } else {
                assert(spec_triples(s)[j] == spec_triples(s.drop_first())[j - head.len()]);
            }
        }
    }
}

/// A `k`-element selection of indices into a sequence of length `n`:
/// strictly increasing, all in range.
#[verifier::opaque]
pub open spec fn is_selection(ix: Seq<int>, n: int, k: int) -> bool {
    &&& ix.len() == k
    &&& forall|j: int| 0 <= j < ix.len() ==> 0 <= #[trigger] ix[j] < n
    &&& forall|j: int| 0 < j < ix.len() ==> ix[j - 1] < #[trigger] ix[j]
}

/// The subsequence of `s` picked out by the index selection `ix`.
#[verifier::opaque]
pub open spec fn spec_select(s: Seq<u32>, ix: Seq<int>) -> Seq<u32> {
    Seq::new(ix.len(), |j: int| s[ix[j]])
}

/// Strictly increasing adjacent entries give a strictly increasing sequence.
proof fn lemma_selection_increasing(ix: Seq<int>, a: int, b: int)
    requires
        forall|j: int| 0 < j < ix.len() ==> ix[j - 1] < #[trigger] ix[j],
        0 <= a <= b < ix.len(),
    ensures
        ix[a] <= ix[b],
    decreases b - a,
{
    if a < b {
        lemma_selection_increasing(ix, a, b - 1);
        assert(ix[b - 1] < ix[b]);
    }
}

/// What a selection picks out is a sub-multiset of the hand.
#[verifier::rlimit(100)]
pub proof fn lemma_select_le(s: Seq<u32>, ix: Seq<int>)
    requires
        is_selection(ix, s.len() as int, ix.len() as int),
    ensures
        spec_select(s, ix).to_multiset().subset_of(s.to_multiset()),
    decreases s.len(),
{
    broadcast use vstd::multiset::group_multiset_axioms;

    reveal(is_selection);
    let sel = spec_select(s, ix);
    assert(sel.len() == ix.len()) by {
        reveal(spec_select);
    }
    if ix.len() == 0 {
        sel.to_multiset_ensures();
        assert(sel.to_multiset().len() == 0);
        assert(forall|y: u32| #[trigger] sel.to_multiset().count(y) == 0);
    } else {
        assert(0 <= ix[0] < s.len());
        let dl = s.drop_last();
        let x = s.last();
        assert(s =~= dl.push(x));
        assert(s.to_multiset() == dl.to_multiset().insert(x)) by {
            dl.to_multiset_ensures();
        }
        let l = ix.last();
        if l == s.len() - 1 {
            let ix2 = ix.drop_last();
            assert(forall|j: int| 0 <= j < ix2.len() ==> #[trigger] ix2[j] == ix[j]);
            assert forall|j: int| 0 <= j < ix2.len() implies 0 <= #[trigger] ix2[j] < l by {
                lemma_selection_increasing(ix, j, ix.len() - 1);
                assert(ix[j] <= l);
                if j < ix.len() - 1 {
                    lemma_selection_increasing(ix, j, ix.len() - 2);
                    assert(ix[ix.len() - 2] < ix[ix.len() - 1]);
                }
            }
            assert(is_selection(ix2, dl.len() as int, ix2.len() as int));
            lemma_select_le(dl, ix2);
            let sel2 = spec_select(dl, ix2);
            assert(sel =~= sel2.push(x)) by {
                reveal(spec_select);
            }
            assert(sel.to_multiset() == sel2.to_multiset().insert(x)) by {
                sel2.to_multiset_ensures();
            }
            assert forall|y: u32| #[trigger] sel.to_multiset().count(y)
                <= s.to_multiset().count(y) by {
                assert(sel2.to_multiset().count(y) <= dl.to_multiset().count(y));
            }
        } else {
            assert forall|j: int| 0 <= j < ix.len() implies 0 <= #[trigger] ix[j] <= l by {
                lemma_selection_increasing(ix, j, ix.len() - 1);
            }
            assert(is_selection(ix, dl.len() as int, ix.len() as int));
            lemma_select_le(dl, ix);
            assert(sel =~= spec_select(dl, ix)) by {
                reveal(spec_select);
            }
            assert forall|y: u32| #[trigger] sel.to_multiset().count(y)
                <= s.to_multiset().count(y) by {
                assert(spec_select(dl, ix).to_multiset().count(y)
                    <= dl.to_multiset().count(y));
            }
        }
    }
}

/// Any sub-multiset of a hand is picked out by some index selection.
#[verifier::rlimit(100)]
pub proof fn lemma_extract_selection(s: Seq<u32>, m: Multiset<u32>)
    requires
        m.subset_of(s.to_multiset()),
    ensures
        exists|ix: Seq<int>| is_selection(ix, s.len() as int, m.len() as int)
            && spec_select(s, ix).to_multiset() == m,
    decreases s.len(),
{
    broadcast use vstd::multiset::group_multiset_axioms;

    reveal(is_selection);
    reveal(spec_select);
    s.to_multiset_ensures();
    if s.len() == 0 {
        assert(forall|y: u32| #[trigger] m.count(y) <= s.to_multiset().count(y));
        assert(s.to_multiset().len() == 0);
        assert(m =~= Multiset::<u32>::empty());
        let ix0: Seq<int> = Seq::empty();
        assert(is_selection(ix0, 0, 0));
        let sel = spec_select(s, ix0);
        sel.to_multiset_ensures();
        assert(sel.len() == 0);
        assert(sel.to_multiset().len() == 0);
        assert(sel.to_multiset() =~= m);
    } else {
        let dl = s.drop_last();
        dl.to_multiset_ensures();
        let x = s.last();
        assert(s =~= dl.push(x));
        assert(s.to_multiset() == dl.to_multiset().insert(x));
        if m.count(x) > 0 {
            let m2 = m.remove(x);
            assert forall|y: u32| #[trigger] m2.count(y) <= dl.to_multiset().count(y) by {
                assert(m.count(y) <= s.to_multiset().count(y));
            }
            lemma_extract_selection(dl, m2);
            let ix2 = choose|ix2: Seq<int>| is_selection(ix2, dl.len() as int, m2.len() as int)
                && spec_select(dl, ix2).to_multiset() == m2;
            assert(Multiset::<u32>::singleton(x).subset_of(m)) by {
                assert(forall|y: u32| y != x
                    ==> #[trigger] Multiset::<u32>::singleton(x).count(y) == 0);
                assert(Multiset::<u32>::singleton(x).count(x) == 1);
            }
            assert(m2.len() == m.len() - 1);
            let ix = ix2.push(s.len() - 1);
            assert(forall|j: int| 0 <= j < ix2.len() ==> #[trigger] ix[j] == ix2[j]);
            assert(ix.last() == s.len() - 1);
            assert(is_selection(ix, s.len() as int, m.len() as int));
            let sel2 = spec_select(dl, ix2);
            sel2.to_multiset_ensures();
            assert(spec_select(s, ix) =~= sel2.push(x));
            assert(spec_select(s, ix).to_multiset() == sel2.to_multiset().insert(x));
            assert(m2.insert(x) =~= m);
            assert(spec_select(s, ix).to_multiset() == m);
        } else {
            assert forall|y: u32| #[trigger] m.count(y) <= dl.to_multiset().count(y) by {
                assert(m.count(y) <= s.to_multiset().count(y));
            }
            lemma_extract_selection(dl, m);
            let ix2 = choose|ix2: Seq<int>| is_selection(ix2, dl.len() as int, m.len() as int)
                && spec_select(dl, ix2).to_multiset() == m;
            assert(forall|j: int| 0 <= j < ix2.len() ==> 0 <= #[trigger] ix2[j] < dl.len());
            assert(is_selection(ix2, s.len() as int, m.len() as int));
            assert(spec_select(s, ix2) =~= spec_select(dl, ix2));
        }
    }
}

/// Relies on `itertools::Itertools::combinations(2)`: it yields every
/// 2-element combination of the input, in lexicographic order by position.
#[verifier::external_body]
pub(crate) fn combos_pairs(items: &Vec<u8>) -> (r: Vec<(u8, u8)>)
    ensures
        r@ == spec_pairs(items@),
{
    items.iter().cloned().combinations(2).map(|c| (c[0], c[1])).collect()
}

/// Relies on `itertools::Itertools::combinations(3)`: it yields every
/// 3-element combination of the input, in lexicographic order by position.
#[verifier::external_body]
pub(crate) fn combos_triples(items: &Vec<u8>) -> (r: Vec<(u8, u8, u8)>)
    ensures
        r@ == spec_triples(items@),
{
    items.iter().cloned().combinations(3).map(|c| (c[0], c[1], c[2])).collect()
}

/// Relies on `itertools::Itertools::combinations(5)`: it yields exactly the
/// subsequences of the input that pick 5 positions in increasing order, each
/// such selection appearing once.
#[verifier::external_body]
pub(crate) fn combos_five(cards: &Vec<u32>) -> (r: Vec<Vec<u32>>)
    ensures
        forall|k: int| 0 <= k < r@.len() ==> exists|ix: Seq<int>|
            is_selection(ix, cards@.len() as int, 5) && (#[trigger] r@[k])@ == spec_select(
                cards@,
                ix,
            ),
        forall|ix: Seq<int>| #[trigger] is_selection(ix, cards@.len() as int, 5)
            ==> exists|k: int| 0 <= k < r@.len() && (#[trigger] r@[k])@ == spec_select(cards@, ix),
{
    cards.iter().cloned().combinations(5).collect()
}

} // verus!
