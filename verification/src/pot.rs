//! The pot: a contribution ledger from player id to chips wagered, and its
//! decomposition into side-pot layers.
//!
//! A ledger is an association list with unique player ids.  Side pots are
//! peeled off by repeatedly taking the minimum remaining contribution as one
//! layer: every remaining contributor pays exactly that minimum into the
//! layer, and contributors whose balance reaches zero drop out.

use vstd::prelude::*;

verus! {

/// Unique player ids.
pub open spec fn ledger_wf(s: Seq<(u32, u64)>) -> bool {
    forall|i: int, j: int| 0 <= i < j < s.len() ==> (#[trigger] s[i]).0 != (#[trigger] s[j]).0
}

/// Sum of all contributions.
pub open spec fn spec_total(s: Seq<(u32, u64)>) -> int
    decreases s.len(),
{
    if s.len() == 0 {
        0
    } else {
        spec_total(s.drop_last()) + s.last().1
    }
}

/// Contribution of one player; 0 if absent.
pub open spec fn spec_get(s: Seq<(u32, u64)>, pid: u32) -> u64
    decreases s.len(),
{
    if s.len() == 0 {
        0u64
    } else if s[0].0 == pid {
        s[0].1
    } else {
        spec_get(s.drop_first(), pid)
    }
}

/// Whether a player appears in the ledger.
pub open spec fn spec_contains(s: Seq<(u32, u64)>, pid: u32) -> bool {
    exists|i: int| 0 <= i < s.len() && (#[trigger] s[i]).0 == pid
}

/// Every contribution is at most the total.
pub proof fn lemma_entry_le_total(s: Seq<(u32, u64)>, i: int)
    requires
        0 <= i < s.len(),
    ensures
        s[i].1 <= spec_total(s),
        spec_total(s) >= 0,
    decreases s.len(),
{
    lemma_total_nonneg(s.drop_last());
    if i < s.len() - 1 {
        lemma_entry_le_total(s.drop_last(), i);
    }
}

pub proof fn lemma_total_nonneg(s: Seq<(u32, u64)>)
    ensures
        spec_total(s) >= 0,
    decreases s.len(),
{
    if s.len() > 0 {
        lemma_total_nonneg(s.drop_last());
    }
}

/// Totals add up entry by entry.
pub proof fn lemma_total_push(s: Seq<(u32, u64)>, e: (u32, u64))
    ensures
        spec_total(s.push(e)) == spec_total(s) + e.1,
{
    assert(s.push(e).drop_last() =~= s);
}

/// Replacing one entry shifts the total by the difference.
pub proof fn lemma_total_update(s: Seq<(u32, u64)>, i: int, e: (u32, u64))
    requires
        0 <= i < s.len(),
    ensures
        spec_total(s.update(i, e)) == spec_total(s) - s[i].1 + e.1,
    decreases s.len(),
{
    if i == s.len() - 1 {
        assert(s.update(i, e).drop_last() =~= s.drop_last());
    } else {
        assert(s.update(i, e).drop_last() =~= s.drop_last().update(i, e));
        lemma_total_update(s.drop_last(), i, e);
    }
}

/// In a well-formed ledger, the lookup returns the entry at the player's
/// index.
pub proof fn lemma_get_at_index(s: Seq<(u32, u64)>, i: int)
    requires
        ledger_wf(s),
        0 <= i < s.len(),
    ensures
        spec_get(s, s[i].0) == s[i].1,
    decreases s.len(),
{
    if i > 0 {
        assert(forall|x: int, y: int| 0 <= x < y < s.drop_first().len()
            ==> (#[trigger] s.drop_first()[x]).0 != (#[trigger] s.drop_first()[y]).0);
        lemma_get_at_index(s.drop_first(), i - 1);
    }
}

/// No single player holds more than the whole pot.
pub proof fn lemma_get_le_total(s: Seq<(u32, u64)>, pid: u32)
    ensures
        spec_get(s, pid) <= spec_total(s),
    decreases s.len(),
{
    lemma_total_nonneg(s);
    if s.len() > 0 {
        lemma_get_le_total(s.drop_first(), pid);
        lemma_total_drop_first(s);
        if s[0].0 == pid {
            lemma_entry_le_total(s, 0);
        }
    }
}

/// The total is the head plus the total of the rest.
pub proof fn lemma_total_drop_first(s: Seq<(u32, u64)>)
    requires
        s.len() > 0,
    ensures
        spec_total(s) == s[0].1 + spec_total(s.drop_first()),
    decreases s.len(),
{
    if s.len() == 1 {
        assert(s.drop_first().len() == 0);
        assert(spec_total(s) == spec_total(s.drop_last()) + s.last().1);
        assert(s.drop_last().len() == 0);
        assert(spec_total(s.drop_last()) == 0);
        assert(spec_total(s.drop_first()) == 0);
        assert(s.last() == s[0]);
    } else {
        lemma_total_drop_first(s.drop_last());
        assert(s.drop_last()[0] == s[0]);
        assert(s.drop_first().drop_last() =~= s.drop_last().drop_first());
        assert(s.drop_first().last() == s.last());
        assert(spec_total(s) == spec_total(s.drop_last()) + s.last().1);
        assert(spec_total(s.drop_last()) == s[0].1 + spec_total(s.drop_last().drop_first()));
        assert(spec_total(s.drop_first()) == spec_total(s.drop_first().drop_last())
            + s.drop_first().last().1);
        assert(spec_total(s.drop_first().drop_last())
            == spec_total(s.drop_last().drop_first()));
        assert(spec_total(s) == s[0].1 + spec_total(s.drop_first()));
    }
}

/// An absent player's lookup is 0.
pub proof fn lemma_get_absent(s: Seq<(u32, u64)>, pid: u32)
    requires
        !spec_contains(s, pid),
    ensures
        spec_get(s, pid) == 0,
    decreases s.len(),
{
    if s.len() > 0 {
        assert(s[0].0 != pid);
        assert(forall|i: int| 0 <= i < s.drop_first().len()
            ==> (#[trigger] s.drop_first()[i]) == s[i + 1]);
        lemma_get_absent(s.drop_first(), pid);
    }
}

/// Index of a player in the ledger, if present.
pub(crate) fn ledger_find(v: &Vec<(u32, u64)>, pid: u32) -> (r: Option<usize>)
    ensures
        r is Some ==> 0 <= r->0 < v@.len() && v@[r->0 as int].0 == pid,
        r is None ==> !spec_contains(v@, pid),
{
    let mut i: usize = 0;
    while i < v.len()
        invariant
            i <= v@.len(),
            forall|k: int| 0 <= k < i ==> (#[trigger] v@[k]).0 != pid,
        decreases v@.len() - i,
    {
        if v[i].0 == pid {
            return Some(i);
        }
        i = i + 1;
    }
    None
}

/// Adds chips to a player's entry, creating it if absent.
pub(crate) fn ledger_add(v: &mut Vec<(u32, u64)>, pid: u32, amount: u64)
    requires
        ledger_wf(old(v)@),
        spec_total(old(v)@) + amount <= u64::MAX,
    ensures
        ledger_wf(final(v)@),
        spec_total(final(v)@) == spec_total(old(v)@) + amount,
        spec_get(final(v)@, pid) == spec_get(old(v)@, pid) + amount,
        forall|p: u32| p != pid ==> spec_get(final(v)@, p) == spec_get(old(v)@, p),
        spec_contains(final(v)@, pid),
        forall|p: u32| p != pid ==> (spec_contains(final(v)@, p) == spec_contains(old(v)@, p)),
{
    match ledger_find(v, pid) {
        Some(i) => {
            let cur = v[i].1;
            proof {
                lemma_entry_le_total(v@, i as int);
                lemma_get_at_index(v@, i as int);
                assert((v@[i as int]).0 == pid);
                assert(spec_contains(v@, pid));
            }
            let updated = (pid, cur + amount);
            proof {
                lemma_total_update(v@, i as int, updated);
                lemma_update_get(v@, i as int, updated);
            }
            v.set(i, updated);
        },
        None => {
            proof {
                lemma_total_push(v@, (pid, amount));
                lemma_push_get(v@, (pid, amount));
                lemma_get_absent(v@, pid);
                lemma_total_nonneg(v@);
            }
            v.push((pid, amount));
        },
    }
}

/// Updating an entry in place (same player id) changes only that player's
/// lookup.
pub proof fn lemma_update_get(s: Seq<(u32, u64)>, i: int, e: (u32, u64))
    requires
        ledger_wf(s),
        0 <= i < s.len(),
        e.0 == s[i].0,
    ensures
        ledger_wf(s.update(i, e)),
        spec_get(s.update(i, e), e.0) == e.1,
        forall|p: u32| p != e.0 ==> spec_get(s.update(i, e), p) == spec_get(s, p),
        forall|p: u32| spec_contains(s.update(i, e), p) == spec_contains(s, p),
    decreases s.len(),
{
    let t = s.update(i, e);
    assert forall|p: u32| spec_contains(t, p) == spec_contains(s, p) by {
        assert(forall|k: int| 0 <= k < s.len() ==> (#[trigger] t[k]).0 == s[k].0);
        if spec_contains(s, p) {
            let w = choose|w: int| 0 <= w < s.len() && (#[trigger] s[w]).0 == p;
            assert(t[w].0 == p);
        }
        if spec_contains(t, p) {
            let w = choose|w: int| 0 <= w < t.len() && (#[trigger] t[w]).0 == p;
            assert(s[w].0 == p);
        }
    }
    if i == 0 {
        assert(t.drop_first() =~= s.drop_first());
        assert(t[0].0 == e.0);
        assert(spec_get(t, e.0) == e.1);
        assert forall|p: u32| p != e.0 implies spec_get(t, p) == spec_get(s, p) by {
            assert(spec_get(t, p) == spec_get(t.drop_first(), p));
            assert(spec_get(s, p) == spec_get(s.drop_first(), p));
        }
    } else {
        assert(t[0] == s[0]);
        assert(t.drop_first() =~= s.drop_first().update(i - 1, e));
        assert(forall|x: int, y: int| 0 <= x < y < s.drop_first().len()
            ==> (#[trigger] s.drop_first()[x]).0 != (#[trigger] s.drop_first()[y]).0);
        lemma_update_get(s.drop_first(), i - 1, e);
        assert(e.0 != s[0].0);
        assert(spec_get(t, e.0) == spec_get(t.drop_first(), e.0));
        assert forall|p: u32| p != e.0 implies spec_get(t, p) == spec_get(s, p) by {
            if p == s[0].0 {
                assert(spec_get(t, p) == t[0].1);
                assert(spec_get(s, p) == s[0].1);
            } else {
                assert(spec_get(t, p) == spec_get(t.drop_first(), p));
                assert(spec_get(s.drop_first().update(i - 1, e), p)
                    == spec_get(s.drop_first(), p));
                assert(spec_get(s, p) == spec_get(s.drop_first(), p));
            }
        }
    }
}

/// Appending a new player's entry changes only that player's lookup.
pub proof fn lemma_push_get(s: Seq<(u32, u64)>, e: (u32, u64))
    requires
        ledger_wf(s),
        !spec_contains(s, e.0),
    ensures
        ledger_wf(s.push(e)),
        spec_get(s.push(e), e.0) == e.1,
        forall|p: u32| p != e.0 ==> spec_get(s.push(e), p) == spec_get(s, p),
        spec_contains(s.push(e), e.0),
        forall|p: u32| p != e.0 ==> (spec_contains(s.push(e), p) == spec_contains(s, p)),
    decreases s.len(),
{
    let t = s.push(e);
    assert(forall|i: int| 0 <= i < s.len() ==> (#[trigger] s[i]).0 != e.0);
    assert(t[s.len() as int].0 == e.0);
    assert forall|p: u32| p != e.0
        implies (spec_contains(t, p) == spec_contains(s, p)) by {
        if spec_contains(t, p) {
            let w = choose|w: int| 0 <= w < t.len() && (#[trigger] t[w]).0 == p;
            assert(w < s.len() && s[w].0 == p);
        }
        if spec_contains(s, p) {
            let w = choose|w: int| 0 <= w < s.len() && (#[trigger] s[w]).0 == p;
            assert(t[w].0 == p);
        }
    }
    if s.len() == 0 {
        assert forall|p: u32| p != e.0 implies spec_get(t, p) == spec_get(s, p) by {
            assert(spec_get(t, p) == spec_get(t.drop_first(), p));
            assert(t.drop_first().len() == 0);
        }
    } else {
        assert(t[0] == s[0]);
        assert(t.drop_first() =~= s.drop_first().push(e));
        assert(forall|x: int, y: int| 0 <= x < y < s.drop_first().len()
            ==> (#[trigger] s.drop_first()[x]).0 != (#[trigger] s.drop_first()[y]).0);
        assert forall|i: int| 0 <= i < s.drop_first().len()
            implies (#[trigger] s.drop_first()[i]).0 != e.0 by {
            assert(s.drop_first()[i] == s[i + 1]);
        }
        assert forall|i: int| 0 <= i < s.drop_first().len()
            implies !((#[trigger] s.drop_first()[i]).0 == e.0) by {}
        assert(!spec_contains(s.drop_first(), e.0));
        lemma_push_get(s.drop_first(), e);
        assert forall|p: u32| p != e.0 implies spec_get(t, p) == spec_get(s, p) by {
            if p == s[0].0 {
                assert(spec_get(t, p) == t[0].1);
                assert(spec_get(s, p) == s[0].1);
            } else {
                assert(spec_get(t, p) == spec_get(t.drop_first(), p));
                assert(spec_get(s.drop_first().push(e), p) == spec_get(s.drop_first(), p));
                assert(spec_get(s, p) == spec_get(s.drop_first(), p));
            }
        }
    }
}

/// Sum of the contributions of a ledger.
pub(crate) fn ledger_total(v: &Vec<(u32, u64)>) -> (r: u64)
    requires
        spec_total(v@) <= u64::MAX,
    ensures
        r == spec_total(v@),
{
    let mut sum: u64 = 0;
    let mut i: usize = 0;
    while i < v.len()
        invariant
            i <= v@.len(),
            sum == spec_total(v@.take(i as int)),
            spec_total(v@) <= u64::MAX,
        decreases v@.len() - i,
    {
        proof {
            assert(v@.take(i + 1).drop_last() =~= v@.take(i as int));
            assert(v@.take(i + 1).last() == v@[i as int]);
            lemma_total_prefix_le(v@, i + 1);
            lemma_total_nonneg(v@.take(i as int));
        }
        sum = sum + v[i].1;
        i = i + 1;
    }
    proof {
        assert(v@.take(v@.len() as int) =~= v@);
    }
    sum
}

/// A prefix sums to at most the whole.
pub proof fn lemma_total_prefix_le(s: Seq<(u32, u64)>, n: int)
    requires
        0 <= n <= s.len(),
    ensures
        spec_total(s.take(n)) <= spec_total(s),
    decreases s.len() - n,
{
    if n == s.len() {
        assert(s.take(n) =~= s);
    } else {
        lemma_total_prefix_le(s, n + 1);
        assert(s.take(n + 1).drop_last() =~= s.take(n));
        assert(s.take(n + 1).last().1 >= 0);
    }
}

/// Entries with a positive contribution; a zero-valued entry never joins a
/// layer, matching the rule that the minimum nonzero level is peeled.
pub open spec fn nonzero_of(s: Seq<(u32, u64)>) -> Seq<(u32, u64)>
    decreases s.len(),
{
    if s.len() == 0 {
        Seq::empty()
    } else {
        nonzero_of(s.drop_last()) + if s.last().1 > 0 {
            seq![s.last()]
        } else {
            Seq::empty()
        }
    }
}

/// Dropping zero entries keeps the ledger well-formed, the total, the
/// containment, and leaves only positive stakes.
pub proof fn lemma_nonzero_of(s: Seq<(u32, u64)>)
    requires
        ledger_wf(s),
    ensures
        ledger_wf(nonzero_of(s)),
        spec_total(nonzero_of(s)) == spec_total(s),
        forall|k: int| 0 <= k < nonzero_of(s).len() ==> (#[trigger] nonzero_of(s)[k]).1 > 0,
        forall|p: u32| spec_contains(nonzero_of(s), p) ==> spec_contains(s, p),
    decreases s.len(),
{
    if s.len() > 0 {
        let dl = s.drop_last();
        assert(forall|x: int, y: int| 0 <= x < y < dl.len()
            ==> (#[trigger] dl[x]).0 != (#[trigger] dl[y]).0);
        lemma_nonzero_of(dl);
        let t = nonzero_of(s);
        assert forall|p: u32| spec_contains(t, p) implies spec_contains(s, p) by {
            let w = choose|w: int| 0 <= w < t.len() && (#[trigger] t[w]).0 == p;
            if s.last().1 > 0 && w == t.len() - 1 {
                assert(s[s.len() - 1].0 == p);
            } else {
                assert(nonzero_of(dl)[w].0 == p);
                assert(spec_contains(dl, p));
                let w2 = choose|w2: int| 0 <= w2 < dl.len() && (#[trigger] dl[w2]).0 == p;
                assert(s[w2].0 == p);
            }
        }
        if s.last().1 > 0 {
            let r0 = nonzero_of(dl);
            let e = s.last();
            assert forall|x: int| 0 <= x < r0.len() implies (#[trigger] r0[x]).0 != e.0 by {
                assert(spec_contains(r0, r0[x].0));
                assert(spec_contains(dl, r0[x].0));
                let w = choose|w: int| 0 <= w < dl.len() && (#[trigger] dl[w]).0 == r0[x].0;
                assert(s[w].0 == r0[x].0 && s[s.len() - 1].0 == e.0);
            }
            assert(nonzero_of(s) =~= r0.push(e));
            assert(ledger_wf(r0.push(e)));
            lemma_total_push(r0, e);
        } else {
            assert(nonzero_of(s) =~= nonzero_of(dl));
        }
    }
}

/// The smallest contribution in the ledger (0 when empty).
pub open spec fn min_stake(s: Seq<(u32, u64)>) -> u64
    decreases s.len(),
{
    if s.len() == 0 {
        0u64
    } else if s.len() == 1 {
        s[0].1
    } else {
        let m = min_stake(s.drop_last());
        if s.last().1 < m {
            s.last().1
        } else {
            m
        }
    }
}

/// The minimum is attained and bounds every contribution.
pub proof fn lemma_min_attained(s: Seq<(u32, u64)>)
    requires
        s.len() > 0,
    ensures
        exists|w: int| 0 <= w < s.len() && (#[trigger] s[w]).1 == min_stake(s),
        forall|k: int| 0 <= k < s.len() ==> (#[trigger] s[k]).1 >= min_stake(s),
    decreases s.len(),
{
    if s.len() == 1 {
        assert(s[0].1 == min_stake(s));
    } else {
        let dl = s.drop_last();
        lemma_min_attained(dl);
        if s.last().1 < min_stake(dl) {
            assert(s[s.len() - 1].1 == min_stake(s));
        } else {
            let w = choose|w: int| 0 <= w < dl.len() && (#[trigger] dl[w]).1 == min_stake(dl);
            assert(s[w].1 == min_stake(s));
        }
        assert forall|k: int| 0 <= k < s.len() implies (#[trigger] s[k]).1 >= min_stake(s) by {
            if k < s.len() - 1 {
                assert(s[k] == dl[k]);
                assert(dl[k].1 >= min_stake(dl));
            }
        }
    }
}

/// One layer at stake `m`: every listed player pays exactly `m`.
pub open spec fn layer_of(s: Seq<(u32, u64)>, m: u64) -> Seq<(u32, u64)> {
    Seq::new(s.len(), |i: int| (s[i].0, m))
}

/// The side-pot layers of a ledger of positive contributions: one layer at
/// the minimum remaining stake, charged to every remaining contributor, then
/// the layers of what remains.
pub open spec fn spec_side_pots(s: Seq<(u32, u64)>) -> Seq<Seq<(u32, u64)>>
    decreases s.len(),
    via spec_side_pots_decreases
{
    if s.len() == 0 {
        Seq::empty()
    } else {
        seq![layer_of(s, min_stake(s))] + spec_side_pots(rest_of(s, min_stake(s)))
    }
}

#[via_fn]
proof fn spec_side_pots_decreases(s: Seq<(u32, u64)>) {
    if s.len() > 0 {
        lemma_min_attained(s);
        let w = choose|w: int| 0 <= w < s.len() && (#[trigger] s[w]).1 == min_stake(s);
        lemma_rest_len_lt(s, min_stake(s), w);
    }
}

/// What remains after a peel is still all-positive.
pub proof fn lemma_rest_positive(s: Seq<(u32, u64)>, m: u64)
    ensures
        forall|k: int| 0 <= k < rest_of(s, m).len() ==> (#[trigger] rest_of(s, m)[k]).1 > 0,
    decreases s.len(),
{
    if s.len() > 0 {
        lemma_rest_positive(s.drop_last(), m);
        assert forall|k: int| 0 <= k < rest_of(s, m).len()
            implies (#[trigger] rest_of(s, m)[k]).1 > 0 by {
            if k < rest_of(s.drop_last(), m).len() {
                assert(rest_of(s, m)[k] == rest_of(s.drop_last(), m)[k]);
            }
        }
    }
}

/// Lookup through one appended entry: the earlier entries win.
pub proof fn lemma_get_snoc(s: Seq<(u32, u64)>, e: (u32, u64), p: u32)
    ensures
        spec_get(s.push(e), p) == if spec_contains(s, p) {
            spec_get(s, p)
        } else if e.0 == p {
            e.1
        } else {
            0u64
        },
    decreases s.len(),
{
    let t = s.push(e);
    if s.len() == 0 {
        assert(!spec_contains(s, p));
        if e.0 != p {
            assert(spec_get(t, p) == spec_get(t.drop_first(), p));
            assert(t.drop_first().len() == 0);
        }
    } else {
        assert(t[0] == s[0]);
        assert(t.drop_first() =~= s.drop_first().push(e));
        lemma_get_snoc(s.drop_first(), e, p);
        if s[0].0 == p {
            assert(s[0].0 == p);
            assert(spec_contains(s, p));
        } else {
            assert(spec_get(t, p) == spec_get(t.drop_first(), p));
            assert(spec_get(s, p) == spec_get(s.drop_first(), p));
            assert(spec_contains(s, p) == spec_contains(s.drop_first(), p)) by {
                if spec_contains(s, p) {
                    let w = choose|w: int| 0 <= w < s.len() && (#[trigger] s[w]).0 == p;
                    assert(s.drop_first()[w - 1].0 == p);
                }
                if spec_contains(s.drop_first(), p) {
                    let w = choose|w: int| 0 <= w < s.drop_first().len()
                        && (#[trigger] s.drop_first()[w]).0 == p;
                    assert(s[w + 1].0 == p);
                }
            }
        }
    }
}

/// What a layer at stake `m` pays a player: `m` if they are in it, nothing
/// otherwise.
pub proof fn lemma_get_layer_of(s: Seq<(u32, u64)>, m: u64, p: u32)
    ensures
        spec_get(layer_of(s, m), p) == if spec_contains(s, p) {
            m
        } else {
            0u64
        },
    decreases s.len(),
{
    if s.len() == 0 {
        assert(!spec_contains(s, p));
    } else {
        assert(layer_of(s, m).drop_first() =~= layer_of(s.drop_first(), m));
        lemma_get_layer_of(s.drop_first(), m, p);
        if s[0].0 == p {
            assert(spec_contains(s, p));
        } else {
            assert(spec_get(layer_of(s, m), p) == spec_get(layer_of(s.drop_first(), m), p));
            assert(spec_contains(s, p) == spec_contains(s.drop_first(), p)) by {
                if spec_contains(s, p) {
                    let w = choose|w: int| 0 <= w < s.len() && (#[trigger] s[w]).0 == p;
                    assert(s.drop_first()[w - 1].0 == p);
                }
                if spec_contains(s.drop_first(), p) {
                    let w = choose|w: int| 0 <= w < s.drop_first().len()
                        && (#[trigger] s.drop_first()[w]).0 == p;
                    assert(s[w + 1].0 == p);
                }
            }
        }
    }
}

/// What remains owed to a player after a peel: their contribution above the
/// stake, or nothing once it is used up.
pub proof fn lemma_get_rest_of(s: Seq<(u32, u64)>, m: u64, p: u32)
    requires
        ledger_wf(s),
    ensures
        spec_get(rest_of(s, m), p) == if spec_contains(s, p) && spec_get(s, p) > m {
            (spec_get(s, p) - m) as u64
        } else {
            0u64
        },
    decreases s.len(),
{
    if s.len() == 0 {
        assert(!spec_contains(s, p));
    } else {
        let dl = s.drop_last();
        assert(forall|x: int, y: int| 0 <= x < y < dl.len()
            ==> (#[trigger] dl[x]).0 != (#[trigger] dl[y]).0);
        lemma_get_rest_of(dl, m, p);
        lemma_get_snoc(dl, s.last(), p);
        assert(s =~= dl.push(s.last()));
        lemma_rest_wf(dl, m);
        if s.last().1 > m {
            assert(rest_of(s, m) =~= rest_of(dl, m).push(
                (s.last().0, (s.last().1 - m) as u64)));
            lemma_get_snoc(rest_of(dl, m), (s.last().0, (s.last().1 - m) as u64), p);
            assert(spec_contains(rest_of(dl, m), p) ==> spec_contains(dl, p)) by {
                if spec_contains(rest_of(dl, m), p) {
                    let w = choose|w: int| 0 <= w < rest_of(dl, m).len()
                        && (#[trigger] rest_of(dl, m)[w]).0 == p;
                    lemma_rest_entries_contained(dl, m, w);
                }
            }
            assert(spec_contains(dl, p) && spec_get(dl, p) > m
                ==> spec_contains(rest_of(dl, m), p)) by {
                if spec_contains(dl, p) && spec_get(dl, p) > m {
                    assert(spec_get(rest_of(dl, m), p) > 0);
                    lemma_get_nonzero_contains(rest_of(dl, m), p);
                }
            }
        } else {
            assert(rest_of(s, m) =~= rest_of(dl, m));
            assert(spec_contains(rest_of(dl, m), p) ==> spec_contains(dl, p)) by {
                if spec_contains(rest_of(dl, m), p) {
                    let w = choose|w: int| 0 <= w < rest_of(dl, m).len()
                        && (#[trigger] rest_of(dl, m)[w]).0 == p;
                    lemma_rest_entries_contained(dl, m, w);
                }
            }
            assert(spec_contains(dl, p) && spec_get(dl, p) > m
                ==> spec_contains(rest_of(dl, m), p)) by {
                if spec_contains(dl, p) && spec_get(dl, p) > m {
                    assert(spec_get(rest_of(dl, m), p) > 0);
                    lemma_get_nonzero_contains(rest_of(dl, m), p);
                }
            }
        }
    }
}

/// A nonzero lookup means the player is listed.
pub proof fn lemma_get_nonzero_contains(s: Seq<(u32, u64)>, p: u32)
    requires
        spec_get(s, p) > 0,
    ensures
        spec_contains(s, p),
    decreases s.len(),
{
    if s.len() > 0 {
        if s[0].0 == p {
        } else {
            lemma_get_nonzero_contains(s.drop_first(), p);
            let w = choose|w: int| 0 <= w < s.drop_first().len()
                && (#[trigger] s.drop_first()[w]).0 == p;
            assert(s[w + 1].0 == p);
        }
    }
}

/// Survivors of a peel were contributors before it.
pub proof fn lemma_rest_entries_contained(s: Seq<(u32, u64)>, m: u64, w: int)
    requires
        0 <= w < rest_of(s, m).len(),
    ensures
        spec_contains(s, rest_of(s, m)[w].0),
    decreases s.len(),
{
    if s.len() > 0 {
        let dl = s.drop_last();
        if s.last().1 > m && w == rest_of(s, m).len() - 1 {
            assert(s[s.len() - 1].0 == rest_of(s, m)[w].0);
        } else {
            assert(rest_of(s, m)[w] == rest_of(dl, m)[w]);
            lemma_rest_entries_contained(dl, m, w);
            let j = choose|j: int| 0 <= j < dl.len() && (#[trigger] dl[j]).0
                == rest_of(dl, m)[w].0;
            assert(s[j].0 == rest_of(s, m)[w].0);
        }
    }
}

/// Sum over the layers of one player's stakes.
pub open spec fn sum_player_stakes(layers: Seq<Seq<(u32, u64)>>, p: u32) -> int
    decreases layers.len(),
{
    if layers.len() == 0 {
        0
    } else {
        spec_get(layers[0], p) + sum_player_stakes(layers.drop_first(), p)
    }
}

/// Settlement round trip, per player: over all side-pot layers a player's
/// stakes sum to exactly their contribution.
pub proof fn lemma_side_pots_player_roundtrip(s: Seq<(u32, u64)>, p: u32)
    requires
        ledger_wf(s),
        forall|k: int| 0 <= k < s.len() ==> (#[trigger] s[k]).1 > 0,
    ensures
        sum_player_stakes(spec_side_pots(s), p) == spec_get(s, p),
    decreases s.len(),
{
    if s.len() == 0 {
        assert(!spec_contains(s, p));
        lemma_get_absent(s, p);
    } else {
        let m = min_stake(s);
        lemma_min_attained(s);
        let w = choose|w: int| 0 <= w < s.len() && (#[trigger] s[w]).1 == m;
        lemma_rest_len_lt(s, m, w);
        lemma_rest_wf(s, m);
        lemma_rest_positive(s, m);
        lemma_side_pots_player_roundtrip(rest_of(s, m), p);
        lemma_get_layer_of(s, m, p);
        lemma_get_rest_of(s, m, p);
        let layers = spec_side_pots(s);
        assert(layers == seq![layer_of(s, m)] + spec_side_pots(rest_of(s, m)));
        assert(layers[0] == layer_of(s, m));
        assert(layers.drop_first() =~= spec_side_pots(rest_of(s, m)));
        if spec_contains(s, p) {
            assert(spec_get(s, p) >= m) by {
                let i = choose|i: int| 0 <= i < s.len() && (#[trigger] s[i]).0 == p;
                lemma_get_at_index(s, i);
            }
        } else {
            lemma_get_absent(s, p);
        }
    }
}

/// One side-pot layer: each listed player's stake in this layer.
pub struct SidePot {
    pub pot: Vec<(u32, u64)>,
}

impl SidePot {
    /// Unique contributors and a representable total.
    pub open spec fn wf(self) -> bool {
        ledger_wf(self.pot@) && spec_total(self.pot@) <= u64::MAX
    }

    /// Total chips in this layer.
    pub fn total(&self) -> (r: u64)
        requires
            self.wf(),
        ensures
            r == spec_total(self.pot@),
    {
        ledger_total(&self.pot)
    }

    /// This layer's stake of one player; 0 for a player outside the layer.
    pub fn get_contribution(&self, player: u32) -> (r: u64)
        ensures
            r == spec_get(self.pot@, player),
    {
        ledger_get(&self.pot, player)
    }

    /// Whether a player contributed to this layer.
    pub fn contains(&self, player: u32) -> (r: bool)
        ensures
            r == spec_contains(self.pot@, player),
    {
        ledger_find(&self.pot, player).is_some()
    }
}

/// Contribution of one player; 0 if absent.
pub(crate) fn ledger_get(v: &Vec<(u32, u64)>, pid: u32) -> (r: u64)
    ensures
        r == spec_get(v@, pid),
{
    proof {
        assert(v@.skip(0) =~= v@);
    }
    let mut i: usize = 0;
    while i < v.len()
        invariant
            i <= v@.len(),
            spec_get(v@, pid) == spec_get(v@.skip(i as int), pid),
        decreases v@.len() - i,
    {
        proof {
            assert(v@.skip(i as int)[0] == v@[i as int]);
            assert(v@.skip(i as int).drop_first() =~= v@.skip(i + 1));
        }
        if v[i].0 == pid {
            return v[i].1;
        }
        i = i + 1;
    }
    0
}

/// Sum of the totals of a sequence of side pots.
pub open spec fn sum_layers(ps: Seq<SidePot>) -> int
    decreases ps.len(),
{
    if ps.len() == 0 {
        0
    } else {
        sum_layers(ps.drop_last()) + spec_total(ps.last().pot@)
    }
}

pub proof fn lemma_sum_layers_push(ps: Seq<SidePot>, p: SidePot)
    ensures
        sum_layers(ps.push(p)) == sum_layers(ps) + spec_total(p.pot@),
{
    assert(ps.push(p).drop_last() =~= ps);
}

/// What remains of a ledger after every contributor pays `m`: entries above
/// `m` stay with the difference, the rest drop out.
pub open spec fn rest_of(s: Seq<(u32, u64)>, m: u64) -> Seq<(u32, u64)>
    decreases s.len(),
{
    if s.len() == 0 {
        Seq::empty()
    } else if s.last().1 > m {
        rest_of(s.drop_last(), m).push((s.last().0, (s.last().1 - m) as u64))
    } else {
        rest_of(s.drop_last(), m)
    }
}

/// The remainder ledger keeps ids unique and only keeps existing players.
pub proof fn lemma_rest_wf(s: Seq<(u32, u64)>, m: u64)
    requires
        ledger_wf(s),
    ensures
        ledger_wf(rest_of(s, m)),
        forall|p: u32| spec_contains(rest_of(s, m), p) ==> spec_contains(s, p),
        rest_of(s, m).len() <= s.len(),
    decreases s.len(),
{
    if s.len() > 0 {
        let dl = s.drop_last();
        assert(forall|x: int, y: int| 0 <= x < y < dl.len()
            ==> (#[trigger] dl[x]).0 != (#[trigger] dl[y]).0);
        lemma_rest_wf(dl, m);
        assert forall|p: u32| spec_contains(rest_of(s, m), p) implies spec_contains(s, p) by {
            let r = rest_of(s, m);
            let w = choose|w: int| 0 <= w < r.len() && (#[trigger] r[w]).0 == p;
            if s.last().1 > m && w == r.len() - 1 {
                assert(s[s.len() - 1].0 == p);
            } else {
                assert(rest_of(dl, m)[w].0 == p);
                assert(spec_contains(dl, p));
                let w2 = choose|w2: int| 0 <= w2 < dl.len() && (#[trigger] dl[w2]).0 == p;
                assert(s[w2].0 == p);
            }
        }
        if s.last().1 > m {
            let r0 = rest_of(dl, m);
            let e = (s.last().0, (s.last().1 - m) as u64);
            assert forall|x: int| 0 <= x < r0.len() implies (#[trigger] r0[x]).0 != e.0 by {
                assert(spec_contains(r0, r0[x].0));
                assert(spec_contains(dl, r0[x].0));
                let w = choose|w: int| 0 <= w < dl.len() && (#[trigger] dl[w]).0 == r0[x].0;
                assert(s[w].0 == r0[x].0 && s[s.len() - 1].0 == e.0);
            }
            assert(ledger_wf(r0.push(e)));
        }
    }
}

/// Peeling `m` from every contributor removes exactly `len·m` chips.
pub proof fn lemma_rest_total(s: Seq<(u32, u64)>, m: u64)
    requires
        forall|k: int| 0 <= k < s.len() ==> (#[trigger] s[k]).1 >= m,
    ensures
        spec_total(rest_of(s, m)) == spec_total(s) - s.len() * m,
    decreases s.len(),
{
    if s.len() == 0 {
    } else {
        let dl = s.drop_last();
        assert(forall|k: int| 0 <= k < dl.len() ==> (#[trigger] dl[k]).1 >= m);
        lemma_rest_total(dl, m);
        let n = s.len() as int;
        assert((n - 1) * m + m == n * m) by (nonlinear_arith);
        if s.last().1 > m {
            lemma_total_push(rest_of(dl, m), (s.last().0, (s.last().1 - m) as u64));
        }
    }
}

/// If some contributor paid exactly the minimum, the remainder ledger is
/// strictly smaller.
pub proof fn lemma_rest_len_lt(s: Seq<(u32, u64)>, m: u64, w: int)
    requires
        0 <= w < s.len(),
        s[w].1 == m,
    ensures
        rest_of(s, m).len() < s.len(),
    decreases s.len(),
{
    let dl = s.drop_last();
    assert(rest_of(dl, m).len() <= dl.len()) by {
        lemma_rest_len_le(dl, m);
    }
    if w == s.len() - 1 {
    } else {
        lemma_rest_len_lt(dl, m, w);
    }
}

pub proof fn lemma_rest_len_le(s: Seq<(u32, u64)>, m: u64)
    ensures
        rest_of(s, m).len() <= s.len(),
    decreases s.len(),
{
    if s.len() > 0 {
        lemma_rest_len_le(s.drop_last(), m);
    }
}

/// Relies on `uuid::Uuid::new_v4` and its `Simple` formatting: a fresh
/// random identifier printed as exactly 32 lowercase hex characters.
#[verifier::external_body]
fn fresh_uid() -> (r: String)
    ensures
        r@.len() == 32,
{
    uuid::Uuid::new_v4().simple().to_string()
}

/// The betting pot: one contribution ledger for the whole hand, plus a
/// unique identifier for display and bookkeeping.
pub struct Pot {
    /// Ledger from player id to chips contributed this hand.
    pub pot: Vec<(u32, u64)>,
    /// Fresh identifier assigned at construction.
    pub uid: String,
}

impl Pot {
    /// Unique player ids and a representable total.
    pub open spec fn wf(self) -> bool {
        ledger_wf(self.pot@) && spec_total(self.pot@) <= u64::MAX
    }

    /// An empty pot with a fresh identifier.
    pub fn new() -> (r: Pot)
        ensures
            r.wf(),
            r.pot@.len() == 0,
            r.uid@.len() == 32,
    {
        Pot { pot: Vec::new(), uid: fresh_uid() }
    }

    /// Adds chips to a player's contribution, creating the entry if absent.
    pub fn add_chips(&mut self, player: u32, n_chips: u64)
        requires
            old(self).wf(),
            spec_total(old(self).pot@) + n_chips <= u64::MAX,
        ensures
            final(self).wf(),
            spec_total(final(self).pot@) == spec_total(old(self).pot@) + n_chips,
            spec_get(final(self).pot@, player) == spec_get(old(self).pot@, player) + n_chips,
            forall|p: u32| p != player
                ==> spec_get(final(self).pot@, p) == spec_get(old(self).pot@, p),
            final(self).uid == old(self).uid,
    {
        ledger_add(&mut self.pot, player, n_chips);
    }

    /// Empties the ledger; the identifier stays.
    pub fn reset(&mut self)
        ensures
            final(self).wf(),
            final(self).pot@.len() == 0,
            final(self).uid == old(self).uid,
    {
        self.pot = Vec::new();
    }

    /// The pot's identifier.
    pub fn uid(&self) -> (r: &str)
        ensures
            r@ == self.uid@,
    {
        self.uid.as_str()
    }

    /// Total chips in the pot.
    pub fn total(&self) -> (r: u64)
        requires
            self.wf(),
        ensures
            r == spec_total(self.pot@),
    {
        ledger_total(&self.pot)
    }

    /// Contribution of one player; 0 if absent.
    pub fn get_contribution(&self, player: u32) -> (r: u64)
        ensures
            r == spec_get(self.pot@, player),
    {
        ledger_get(&self.pot, player)
    }

    /// Splits the pot into side-pot layers by repeatedly peeling off the
    /// minimum remaining contribution.  The layer totals sum to exactly the
    /// pot total; every layer is well-formed, non-empty, charges every one
    /// of its contributors the same stake, and only names players from the
    /// pot.
    pub fn side_pots(&self) -> (r: Vec<SidePot>)
        requires
            self.wf(),
        ensures
            r@.len() == spec_side_pots(nonzero_of(self.pot@)).len(),
            forall|li: int| 0 <= li < r@.len()
                ==> (#[trigger] r@[li]).pot@ == spec_side_pots(nonzero_of(self.pot@))[li],
            sum_layers(r@) == spec_total(self.pot@),
            forall|li: int| 0 <= li < r@.len() ==> (#[trigger] r@[li]).wf(),
    {
        let ghost total0 = spec_total(self.pot@);
        let ghost nz = nonzero_of(self.pot@);
        let mut side_pots: Vec<SidePot> = Vec::new();

        // working copy of the ledger, dropping the zero entries: only the
        // minimum nonzero level is ever peeled
        let mut pot: Vec<(u32, u64)> = Vec::new();
        let mut ci: usize = 0;
        while ci < self.pot.len()
            invariant
                ci <= self.pot@.len(),
                pot@ == nonzero_of(self.pot@.take(ci as int)),
            decreases self.pot@.len() - ci,
        {
            let (pid, chips) = self.pot[ci];
            proof {
                assert(self.pot@.take(ci + 1).drop_last() =~= self.pot@.take(ci as int));
                assert(self.pot@.take(ci + 1).last() == self.pot@[ci as int]);
                if self.pot@[ci as int].1 > 0 {
                    assert(nonzero_of(self.pot@.take(ci + 1)) =~= pot@.push(
                        self.pot@[ci as int]));
                } else {
                    assert(nonzero_of(self.pot@.take(ci + 1)) =~= pot@);
                }
            }
            if chips > 0 {
                pot.push((pid, chips));
            }
            ci = ci + 1;
        }
        proof {
            assert(self.pot@.take(self.pot@.len() as int) =~= self.pot@);
            lemma_total_nonneg(self.pot@);
            lemma_nonzero_of(self.pot@);
            assert(side_pots@.map_values(|p: SidePot| p.pot@) =~= Seq::<Seq<(u32, u64)>>::empty());
            assert(spec_side_pots(nz) =~= side_pots@.map_values(|p: SidePot| p.pot@)
                + spec_side_pots(pot@));
        }

        while pot.len() > 0
            invariant
                ledger_wf(pot@),
                0 <= spec_total(pot@) <= total0 <= u64::MAX,
                total0 == spec_total(self.pot@),
                nz == nonzero_of(self.pot@),
                sum_layers(side_pots@) + spec_total(pot@) == total0,
                spec_side_pots(nz) == side_pots@.map_values(|p: SidePot| p.pot@)
                    + spec_side_pots(pot@),
                forall|li: int| 0 <= li < side_pots@.len() ==> (#[trigger] side_pots@[li]).wf(),
            decreases pot@.len(),
        {
            // the minimum contribution still on the table
            let mut min_n_chips: u64 = pot[0].1;
            let ghost mut min_at: int = 0;
            proof {
                assert(pot@.take(1).len() == 1 && pot@.take(1)[0] == pot@[0]);
            }
            let mut j: usize = 1;
            while j < pot.len()
                invariant
                    1 <= j <= pot@.len(),
                    pot@.len() > 0,
                    0 <= min_at < j,
                    pot@[min_at].1 == min_n_chips,
                    min_n_chips == min_stake(pot@.take(j as int)),
                    forall|k: int| 0 <= k < j ==> (#[trigger] pot@[k]).1 >= min_n_chips,
                decreases pot@.len() - j,
            {
                proof {
                    assert(pot@.take(j + 1).drop_last() =~= pot@.take(j as int));
                    assert(pot@.take(j + 1).last() == pot@[j as int]);
                    assert(pot@.take(j + 1).len() == j + 1);
                }
                if pot[j].1 < min_n_chips {
                    min_n_chips = pot[j].1;
                    proof {
                        min_at = j as int;
                    }
                }
                j = j + 1;
            }
            proof {
                assert(pot@.take(pot@.len() as int) =~= pot@);
                assert(min_n_chips == min_stake(pot@));
            }

            // one layer at that stake; what exceeds it stays on the table
            let mut layer: Vec<(u32, u64)> = Vec::new();
            let mut rest: Vec<(u32, u64)> = Vec::new();
            let mut i: usize = 0;
            while i < pot.len()
                invariant
                    i <= pot@.len(),
                    ledger_wf(pot@),
                    forall|k: int| 0 <= k < pot@.len()
                        ==> (#[trigger] pot@[k]).1 >= min_n_chips,
                    layer@.len() == i,
                    forall|k: int| 0 <= k < i
                        ==> #[trigger] layer@[k] == (pot@[k].0, min_n_chips),
                    spec_total(layer@) == i as int * min_n_chips,
                    spec_total(pot@) <= u64::MAX,
                    rest@ == rest_of(pot@.take(i as int), min_n_chips),
                decreases pot@.len() - i,
            {
                let (pid, chips) = pot[i];
                proof {
                    lemma_total_push(layer@, (pid, min_n_chips));
                    assert((i + 1) as int * min_n_chips == i as int * min_n_chips
                        + min_n_chips) by (nonlinear_arith);
                    assert(pot@.take(i + 1).drop_last() =~= pot@.take(i as int));
                    assert(pot@.take(i + 1).last() == pot@[i as int]);
                }
                layer.push((pid, min_n_chips));
                if chips > min_n_chips {
                    rest.push((pid, chips - min_n_chips));
                }
                i = i + 1;
            }
            proof {
                assert(pot@.take(pot@.len() as int) =~= pot@);
            }

            // the new layer matches the specified peel, and what remains is
            // a smaller all-positive ledger
            let ghost glayer = layer@;
            let ghost gpot = pot@;
            proof {
                assert(forall|x: int, y: int| 0 <= x < y < glayer.len()
                    ==> (#[trigger] glayer[x]).0 != (#[trigger] glayer[y]).0);
                lemma_rest_wf(gpot, min_n_chips);
                lemma_rest_total(gpot, min_n_chips);
                lemma_rest_len_lt(gpot, min_n_chips, min_at);
                lemma_rest_positive(gpot, min_n_chips);
                lemma_layer_le_total(gpot, gpot.len() as int, min_n_chips);
                lemma_total_nonneg(gpot);
                assert(spec_total(glayer) == gpot.len() as int * min_n_chips);
                assert(0 <= spec_total(glayer) <= spec_total(gpot));
                assert(glayer =~= layer_of(gpot, min_n_chips));
            }
            let layer_pot = SidePot { pot: layer };
            let ghost gold_pots = side_pots@;
            proof {
                lemma_sum_layers_push(gold_pots, layer_pot);
            }
            side_pots.push(layer_pot);
            pot = rest;
            proof {
                assert(side_pots@ == gold_pots.push(SidePot { pot: layer_pot.pot }));
                assert forall|li: int| 0 <= li < side_pots@.len()
                    implies (#[trigger] side_pots@[li]).wf() by {
                    if li < side_pots@.len() - 1 {
                        assert(side_pots@[li] == gold_pots[li]);
                    } else {
                        assert(side_pots@[li].pot@ == glayer);
                    }
                }
                assert(gpot.len() as int * min_n_chips >= 0) by (nonlinear_arith);
                assert(spec_total(pot@) == spec_total(gpot) - gpot.len() as int * min_n_chips);
                // one unfolding of the specified peel
                assert(spec_side_pots(gpot) == seq![layer_of(gpot, min_stake(gpot))]
                    + spec_side_pots(rest_of(gpot, min_stake(gpot))));
                assert(side_pots@.map_values(|p: SidePot| p.pot@)
                    =~= gold_pots.map_values(|p: SidePot| p.pot@).push(glayer));
                assert(spec_side_pots(nz) =~= side_pots@.map_values(|p: SidePot| p.pot@)
                    + spec_side_pots(pot@));
            }
        }
        proof {
            assert(spec_side_pots(pot@) =~= Seq::<Seq<(u32, u64)>>::empty());
            assert(spec_side_pots(nz) =~= side_pots@.map_values(|p: SidePot| p.pot@));
            assert forall|li: int| 0 <= li < side_pots@.len()
                implies (#[trigger] side_pots@[li]).pot@ == spec_side_pots(nz)[li] by {
                assert(spec_side_pots(nz)[li] == side_pots@.map_values(
                    |p: SidePot| p.pot@,
                )[li]);
            }
        }
        side_pots
    }
}

/// A prefix of uniform stakes never exceeds the ledger total it was peeled
/// from.
pub proof fn lemma_layer_le_total(s: Seq<(u32, u64)>, n: int, m: u64)
    requires
        0 <= n <= s.len(),
        forall|k: int| 0 <= k < s.len() ==> (#[trigger] s[k]).1 >= m,
    ensures
        n * m <= spec_total(s),
    decreases s.len(),
{
    if s.len() == 0 {
        assert(n == 0);
        assert(n * m == 0) by (nonlinear_arith)
            requires n == 0,
        ;
    } else {
        let dl = s.drop_last();
        assert(forall|k: int| 0 <= k < dl.len() ==> (#[trigger] dl[k]).1 >= m);
        if n == s.len() {
            lemma_layer_le_total(dl, n - 1, m);
            assert(n * m == (n - 1) * m + m) by (nonlinear_arith);
        } else {
            lemma_layer_le_total(dl, n, m);
        }
    }
}

} // verus!
