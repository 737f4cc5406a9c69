//! Settlement: paying side pots out to ranked player groups.
//!
//! Each pot layer is won outright by the first ranked group with at least
//! one contributor to that layer, split evenly among the winning group's
//! contributors; an indivisible remainder goes one chip at a time to the
//! earliest winners in group order, so no chip is ever lost or invented.

use vstd::prelude::*;
use crate::errors::PokerError;
use crate::pot::{
    SidePot, ledger_wf, ledger_add, spec_contains, spec_get, spec_total, sum_layers,
    lemma_total_push, lemma_total_nonneg, lemma_total_prefix_le,
};

verus! {

/// The members of a group that contributed to a layer, in group order.
pub open spec fn spec_players_in(group: Seq<u32>, pot: Seq<(u32, u64)>) -> Seq<u32> {
    group.filter(|p: u32| spec_contains(pot, p))
}

/// Filtering one more player keeps or appends them.
proof fn lemma_players_in_push(group: Seq<u32>, pot: Seq<(u32, u64)>, e: u32)
    ensures
        spec_contains(pot, e) ==> spec_players_in(group.push(e), pot) == spec_players_in(
            group,
            pot,
        ).push(e),
        !spec_contains(pot, e) ==> spec_players_in(group.push(e), pot) == spec_players_in(
            group,
            pot,
        ),
{
    reveal(Seq::filter);
    assert(group.push(e).drop_last() =~= group);
    assert(group.push(e).last() == e);
    if spec_contains(pot, e) {
        assert(spec_players_in(group.push(e), pot) =~= spec_players_in(group, pot).push(e));
    } else {
        assert(spec_players_in(group.push(e), pot) =~= spec_players_in(group, pot));
    }
}

/// Group members that contributed to the given layer, keeping group order.
pub fn get_players_in_pot(player_group: &Vec<u32>, pot: &SidePot) -> (r: Vec<u32>)
    ensures
        r@ == spec_players_in(player_group@, pot.pot@),
{
    let mut players_in_pot: Vec<u32> = Vec::new();
    let mut i: usize = 0;
    proof {
        assert(player_group@.take(0) =~= Seq::<u32>::empty());
        assert(spec_players_in(player_group@.take(0), pot.pot@) =~= Seq::<u32>::empty()) by {
            reveal(Seq::filter);
        }
    }
    while i < player_group.len()
        invariant
            i <= player_group@.len(),
            players_in_pot@ == spec_players_in(player_group@.take(i as int), pot.pot@),
        decreases player_group@.len() - i,
    {
        let p = player_group[i];
        proof {
            assert(player_group@.take(i + 1) =~= player_group@.take(i as int).push(
                player_group@[i as int]));
            lemma_players_in_push(player_group@.take(i as int), pot.pot@, p);
        }
        if pot.contains(p) {
            players_in_pot.push(p);
        }
        i = i + 1;
    }
    proof {
        assert(player_group@.take(player_group@.len() as int) =~= player_group@);
    }
    players_in_pot
}

/// Payouts of one layer to one ranked group: the group's contributors split
/// the layer evenly, the remainder going one chip each to the earliest of
/// them in group order.  A group with no contributor gets nothing.
pub fn process_side_pot(player_group: &Vec<u32>, pot: &SidePot) -> (r: Vec<(u32, u64)>)
    requires
        pot.wf(),
    ensures
        ({
            let winners = spec_players_in(player_group@, pot.pot@);
            let total = spec_total(pot.pot@);
            let n = winners.len() as int;
            &&& n == 0 ==> r@.len() == 0
            &&& n > 0 ==> {
                &&& r@.len() == n
                &&& forall|i: int| 0 <= i < n ==> (#[trigger] r@[i]).0 == winners[i]
                    && r@[i].1 == total / n + (if i < total % n { 1int } else { 0int })
                &&& spec_total(r@) == total
            }
        }),
{
    let winners = get_players_in_pot(player_group, pot);
    let n_players: usize = winners.len();
    if n_players == 0 {
        let r: Vec<(u32, u64)> = Vec::new();
        return r;
    }
    let n_total: u64 = pot.total();
    let n64: u64 = n_players as u64;
    let n_per_player: u64 = n_total / n64;
    let n_remainder: u64 = n_total % n64;
    proof {
        lemma_total_nonneg(pot.pot@);
        vstd::arithmetic::div_mod::lemma_fundamental_div_mod(n_total as int, n64 as int);
        if n_remainder > 0 {
            assert(n_per_player * n64 >= n_per_player * 1) by (nonlinear_arith)
                requires n64 >= 1 && n_per_player >= 0,
            ;
            assert(n_per_player < n_total);
        }
    }
    let mut payouts: Vec<(u32, u64)> = Vec::new();
    let mut i: usize = 0;
    while i < n_players
        invariant
            i <= n_players,
            n_players == winners@.len(),
            n64 == n_players as u64,
            n_per_player == n_total as int / n64 as int,
            n_remainder == n_total as int % n64 as int,
            n_remainder < n64,
            n_remainder > 0 ==> n_per_player < n_total,
            n_per_player <= n_total <= u64::MAX,
            payouts@.len() == i,
            forall|k: int| 0 <= k < i ==> (#[trigger] payouts@[k]).0 == winners@[k]
                && payouts@[k].1 == n_per_player + (if k < n_remainder { 1int } else { 0int }),
            spec_total(payouts@) == i as int * n_per_player
                + (if i < n_remainder { i as int } else { n_remainder as int }),
        decreases n_players - i,
    {
        let amount: u64 = if (i as u64) < n_remainder {
            n_per_player + 1
        } else {
            n_per_player
        };
        proof {
            lemma_total_push(payouts@, (winners@[i as int], amount));
            assert((i + 1) as int * n_per_player == i as int * n_per_player + n_per_player)
                by (nonlinear_arith);
        }
        payouts.push((winners[i], amount));
        i = i + 1;
    }
    proof {
        assert(spec_total(payouts@) == n_players as int * n_per_player + n_remainder);
        vstd::arithmetic::div_mod::lemma_fundamental_div_mod(n_total as int, n64 as int);
        assert(n_players as int * n_per_player == n64 as int * n_per_player)
            by (nonlinear_arith)
            requires n64 == n_players as u64,
        ;
    }
    payouts
}

/// Index of the first ranked group with a contributor to the layer.
pub fn first_winning_group(ranked_player_groups: &Vec<Vec<u32>>, pot: &SidePot) -> (r: Option<
    usize,
>)
    ensures
        r is Some ==> 0 <= r->0 < ranked_player_groups@.len() && spec_players_in(
            ranked_player_groups@[r->0 as int]@,
            pot.pot@,
        ).len() > 0 && forall|g: int| 0 <= g < r->0
            ==> spec_players_in((#[trigger] ranked_player_groups@[g])@, pot.pot@).len() == 0,
        r is None ==> forall|g: int| 0 <= g < ranked_player_groups@.len()
            ==> spec_players_in((#[trigger] ranked_player_groups@[g])@, pot.pot@).len() == 0,
{
    let mut g: usize = 0;
    while g < ranked_player_groups.len()
        invariant
            g <= ranked_player_groups@.len(),
            forall|g2: int| 0 <= g2 < g
                ==> spec_players_in((#[trigger] ranked_player_groups@[g2])@, pot.pot@).len()
                    == 0,
        decreases ranked_player_groups@.len() - g,
    {
        let players = get_players_in_pot(&ranked_player_groups[g], pot);
        if players.len() > 0 {
            return Some(g);
        }
        g = g + 1;
    }
    None
}

/// Members of a contributing group come from the group.
pub proof fn lemma_players_in_sub(group: Seq<u32>, pot: Seq<(u32, u64)>)
    ensures
        forall|k: int| 0 <= k < spec_players_in(group, pot).len()
            ==> group.contains(#[trigger] spec_players_in(group, pot)[k]),
    decreases group.len(),
{
    reveal(Seq::filter);
    if group.len() > 0 {
        let dl = group.drop_last();
        lemma_players_in_sub(dl, pot);
        assert(group.drop_last() =~= dl);
        assert forall|k: int| 0 <= k < spec_players_in(group, pot).len()
            implies group.contains(#[trigger] spec_players_in(group, pot)[k]) by {
            if k < spec_players_in(dl, pot).len() {
                assert(spec_players_in(group, pot)[k] == spec_players_in(dl, pot)[k]);
                assert(dl.contains(spec_players_in(dl, pot)[k]));
                let w = choose|w: int| 0 <= w < dl.len() && dl[w] == spec_players_in(
                    dl,
                    pot,
                )[k];
                assert(group[w] == spec_players_in(dl, pot)[k]);
            } else {
                assert(spec_players_in(group, pot)[k] == group.last());
                assert(group[group.len() - 1] == group.last());
            }
        }
    }
}

/// A group of pairwise distinct players keeps its contributors distinct.
proof fn lemma_players_in_distinct(group: Seq<u32>, pot: Seq<(u32, u64)>)
    requires
        forall|a: int, b: int| 0 <= a < b < group.len()
            ==> #[trigger] group[a] != #[trigger] group[b],
    ensures
        forall|a: int, b: int| 0 <= a < b < spec_players_in(group, pot).len()
            ==> #[trigger] spec_players_in(group, pot)[a]
                != #[trigger] spec_players_in(group, pot)[b],
    decreases group.len(),
{
    reveal(Seq::filter);
    if group.len() > 0 {
        let dl = group.drop_last();
        assert(forall|a: int, b: int| 0 <= a < b < dl.len()
            ==> #[trigger] dl[a] != #[trigger] dl[b]);
        lemma_players_in_distinct(dl, pot);
        lemma_players_in_sub(dl, pot);
        let w = spec_players_in(group, pot);
        assert forall|a: int, b: int| 0 <= a < b < w.len()
            implies #[trigger] w[a] != #[trigger] w[b] by {
            if b < spec_players_in(dl, pot).len() {
                assert(w[a] == spec_players_in(dl, pot)[a]
                    && w[b] == spec_players_in(dl, pot)[b]);
            } else {
                assert(w[b] == group.last());
                assert(w[a] == spec_players_in(dl, pot)[a]);
                assert(dl.contains(w[a]));
                let j = choose|j: int| 0 <= j < dl.len() && dl[j] == w[a];
                assert(group[j] == w[a] && group[group.len() - 1] == group.last());
            }
        }
    }
}

/// First index of a player in a winners list; the length if absent.
pub open spec fn idx_in(w: Seq<u32>, p: u32) -> int
    decreases w.len(),
{
    if w.len() == 0 {
        0
    } else if w[0] == p {
        0
    } else {
        1 + idx_in(w.drop_first(), p)
    }
}

/// What one winners list owes a player out of a layer total: an even share,
/// plus one remainder chip for the earliest winners.
pub open spec fn winner_amount(w: Seq<u32>, total: int, p: u32) -> int {
    if idx_in(w, p) >= w.len() {
        0
    } else {
        total / (w.len() as int) + if idx_in(w, p) < total % (w.len() as int) {
            1int
        } else {
            0int
        }
    }
}

/// Index of the first ranked group with a contributor to the layer; the
/// number of groups if none has one.
pub open spec fn first_winner(groups: Seq<Vec<u32>>, pot: Seq<(u32, u64)>) -> int
    decreases groups.len(),
{
    if groups.len() == 0 {
        0
    } else if spec_players_in(groups[0]@, pot).len() > 0 {
        0
    } else {
        1 + first_winner(groups.drop_first(), pot)
    }
}

/// What a layer owes a player: the first winning group's contributors split
/// it; everyone else gets nothing.
pub open spec fn layer_amount(groups: Seq<Vec<u32>>, pot: Seq<(u32, u64)>, p: u32) -> int {
    if first_winner(groups, pot) >= groups.len() {
        0
    } else {
        winner_amount(
            spec_players_in(groups[first_winner(groups, pot)]@, pot),
            spec_total(pot),
            p,
        )
    }
}

/// What the whole settlement owes a player, over all layers.
pub open spec fn settled_amount(groups: Seq<Vec<u32>>, layers: Seq<Seq<(u32, u64)>>, p: u32) -> int
    decreases layers.len(),
{
    if layers.len() == 0 {
        0
    } else {
        settled_amount(groups, layers.drop_last(), p) + layer_amount(groups, layers.last(), p)
    }
}

/// `first_winner` is exactly the least winning index.
proof fn lemma_first_winner_char(groups: Seq<Vec<u32>>, pot: Seq<(u32, u64)>, g: int)
    requires
        0 <= g < groups.len(),
        spec_players_in(groups[g]@, pot).len() > 0,
        forall|g2: int| 0 <= g2 < g ==> spec_players_in((#[trigger] groups[g2])@, pot).len()
            == 0,
    ensures
        first_winner(groups, pot) == g,
    decreases g,
{
    if g > 0 {
        assert(groups.drop_first()[g - 1] == groups[g]);
        assert(forall|g2: int| 0 <= g2 < g - 1
            ==> (#[trigger] groups.drop_first()[g2]) == groups[g2 + 1]);
        lemma_first_winner_char(groups.drop_first(), pot, g - 1);
    }
}

/// If no group wins, `first_winner` runs off the end.
proof fn lemma_first_winner_none(groups: Seq<Vec<u32>>, pot: Seq<(u32, u64)>)
    requires
        forall|g: int| 0 <= g < groups.len()
            ==> spec_players_in((#[trigger] groups[g])@, pot).len() == 0,
    ensures
        first_winner(groups, pot) == groups.len(),
    decreases groups.len(),
{
    if groups.len() > 0 {
        assert(forall|g: int| 0 <= g < groups.drop_first().len()
            ==> (#[trigger] groups.drop_first()[g]) == groups[g + 1]);
        lemma_first_winner_none(groups.drop_first(), pot);
    }
}

/// Appending a new player's entry to a ledger changes only that player's
/// lookup (indexed form).
proof fn lemma_get_push_new(s: Seq<(u32, u64)>, e: (u32, u64))
    requires
        forall|k: int| 0 <= k < s.len() ==> (#[trigger] s[k]).0 != e.0,
    ensures
        spec_get(s.push(e), e.0) == e.1,
        forall|p: u32| p != e.0 ==> spec_get(s.push(e), p) == spec_get(s, p),
    decreases s.len(),
{
    let t = s.push(e);
    if s.len() == 0 {
        assert(t.drop_first().len() == 0);
        assert forall|p: u32| p != e.0 implies spec_get(t, p) == spec_get(s, p) by {
            assert(spec_get(t, p) == spec_get(t.drop_first(), p));
        }
    } else {
        assert(t[0] == s[0]);
        assert(t.drop_first() =~= s.drop_first().push(e));
        assert forall|k: int| 0 <= k < s.drop_first().len()
            implies (#[trigger] s.drop_first()[k]).0 != e.0 by {
            assert(s.drop_first()[k] == s[k + 1]);
        }
        lemma_get_push_new(s.drop_first(), e);
        if s[0].0 == e.0 {
            assert(s[0].0 != e.0);
        }
        assert(spec_get(t, e.0) == spec_get(t.drop_first(), e.0));
        assert forall|p: u32| p != e.0 implies spec_get(t, p) == spec_get(s, p) by {
            if p != s[0].0 {
                assert(spec_get(t, p) == spec_get(t.drop_first(), p));
                assert(spec_get(s, p) == spec_get(s.drop_first(), p));
            }
        }
    }
}

/// The lookup of a remainder-split payout list follows the winners formula.
proof fn lemma_payout_get(
    payouts: Seq<(u32, u64)>,
    w: Seq<u32>,
    per: int,
    rem: int,
    off: int,
    p: u32,
)
    requires
        payouts.len() == w.len(),
        forall|i: int| 0 <= i < w.len() ==> (#[trigger] payouts[i]).0 == w[i]
            && payouts[i].1 == per + (if i + off < rem { 1int } else { 0int }),
    ensures
        spec_get(payouts, p) == if idx_in(w, p) >= w.len() {
            0int
        } else {
            per + (if idx_in(w, p) + off < rem { 1int } else { 0int })
        },
    decreases w.len(),
{
    if w.len() > 0 {
        if w[0] == p {
        } else {
            assert(payouts.drop_first().len() == w.drop_first().len());
            assert forall|i: int| 0 <= i < w.drop_first().len()
                implies (#[trigger] payouts.drop_first()[i]).0 == w.drop_first()[i]
                    && payouts.drop_first()[i].1 == per + (if i + (off + 1) < rem {
                    1int
                } else {
                    0int
                }) by {
                assert(payouts.drop_first()[i] == payouts[i + 1]);
                assert(w.drop_first()[i] == w[i + 1]);
            }
            lemma_payout_get(payouts.drop_first(), w.drop_first(), per, rem, off + 1, p);
            assert(spec_get(payouts, p) == spec_get(payouts.drop_first(), p));
        }
    }
}

/// Every layer finds some ranked group with a contributor.
#[verifier::opaque]
pub open spec fn layers_have_winners(groups: Seq<Vec<u32>>, layers: Seq<Seq<(u32, u64)>>) -> bool {
    forall|li: int| 0 <= li < layers.len() ==> exists|g: int|
        0 <= g < groups.len() && spec_players_in(
            (#[trigger] groups[g])@,
            #[trigger] layers[li],
        ).len() > 0
}

/// No player is listed twice within one ranked group.  The settlement
/// invariant that every contributor appears in exactly one ranked group
/// implies it.
pub open spec fn groups_distinct(groups: Seq<Vec<u32>>) -> bool {
    forall|g: int, a: int, b: int|
        #![trigger groups[g]@[a], groups[g]@[b]]
        0 <= g < groups.len() && 0 <= a < b < groups[g]@.len() ==> groups[g]@[a] != groups[g]@[b]
}

/// The raw ledgers of a sequence of side pots.
pub open spec fn layers_of(pots: Seq<SidePot>) -> Seq<Seq<(u32, u64)>> {
    pots.map_values(|sp: SidePot| sp.pot@)
}

/// All layers well-formed.
pub open spec fn pots_wf(pots: Seq<SidePot>) -> bool {
    forall|li: int| 0 <= li < pots.len() ==> (#[trigger] pots[li]).wf()
}

/// Pays every side pot out to the ranked groups (best group first) and
/// aggregates per-player winnings.  The total paid out equals the total
/// sitting in the pots; a layer that no ranked group can win is the fatal
/// `NoWinnerForPot`.
pub fn compute_payouts(ranked_player_groups: &Vec<Vec<u32>>, pots: &Vec<SidePot>) -> (r: Result<
    Vec<(u32, u64)>,
    PokerError,
>)
    requires
        pots_wf(pots@),
        sum_layers(pots@) <= u64::MAX,
        groups_distinct(ranked_player_groups@),
    ensures
        r is Ok <==> layers_have_winners(ranked_player_groups@, layers_of(pots@)),
        r is Ok ==> ledger_wf(r->Ok_0@) && spec_total(r->Ok_0@) == sum_layers(pots@),
        r is Ok ==> forall|p: u32| #[trigger] spec_get(r->Ok_0@, p) == settled_amount(
            ranked_player_groups@,
            layers_of(pots@),
            p,
        ),
        r is Ok ==> forall|p: u32| #[trigger] spec_contains(r->Ok_0@, p) ==> exists|g: int|
            0 <= g < ranked_player_groups@.len()
                && (#[trigger] ranked_player_groups@[g])@.contains(p),
        r is Err ==> r->Err_0 == PokerError::NoWinnerForPot,
{
    let ghost lmap = layers_of(pots@);
    let mut acc: Vec<(u32, u64)> = Vec::new();
    let mut li: usize = 0;
    proof {
        assert(pots@.take(0) =~= Seq::<SidePot>::empty());
        assert(lmap.take(0) =~= Seq::<Seq<(u32, u64)>>::empty());
        assert(forall|p: u32| #[trigger] spec_get(acc@, p) == 0);
    }
    while li < pots.len()
        invariant
            li <= pots@.len(),
            pots_wf(pots@),
            sum_layers(pots@) <= u64::MAX,
            ledger_wf(acc@),
            spec_total(acc@) == sum_layers(pots@.take(li as int)),
            lmap == layers_of(pots@),
            groups_distinct(ranked_player_groups@),
            forall|p: u32| #[trigger] spec_get(acc@, p) == settled_amount(
                ranked_player_groups@,
                lmap.take(li as int),
                p,
            ),
            forall|p: u32| #[trigger] spec_contains(acc@, p) ==> exists|g: int|
                0 <= g < ranked_player_groups@.len()
                    && (#[trigger] ranked_player_groups@[g])@.contains(p),
            forall|li2: int| 0 <= li2 < li ==> exists|g: int|
                0 <= g < ranked_player_groups@.len() && spec_players_in(
                    (#[trigger] ranked_player_groups@[g])@,
                    (#[trigger] pots@[li2]).pot@,
                ).len() > 0,
        decreases pots@.len() - li,
    {
        let pot = &pots[li];
        let winner_group = match first_winning_group(ranked_player_groups, pot) {
            Some(g) => g,
            None => {
                proof {
                    reveal(layers_have_winners);
                    assert(layers_of(pots@)[li as int] == pots@[li as int].pot@);
                    assert(!layers_have_winners(ranked_player_groups@, layers_of(pots@)));
                }
                return Err(PokerError::NoWinnerForPot);
            },
        };
        let pot_payouts = process_side_pot(&ranked_player_groups[winner_group], pot);
        let ghost winners = spec_players_in(
            ranked_player_groups@[winner_group as int]@,
            pot.pot@,
        );
        proof {
            lemma_sum_layers_take(pots@, li as int);
            lemma_total_nonneg(acc@);
            lemma_total_nonneg(pot.pot@);
            lemma_first_winner_char(ranked_player_groups@, pot.pot@, winner_group as int);
            lemma_players_in_distinct(ranked_player_groups@[winner_group as int]@, pot.pot@);
            assert forall|p: u32| #[trigger] spec_get(pot_payouts@, p) == layer_amount(
                ranked_player_groups@,
                pot.pot@,
                p,
            ) by {
                lemma_payout_get(
                    pot_payouts@,
                    winners,
                    spec_total(pot.pot@) / (winners.len() as int),
                    spec_total(pot.pot@) % (winners.len() as int),
                    0,
                    p,
                );
            }
        }
        proof {
            lemma_players_in_sub(ranked_player_groups@[winner_group as int]@, pot.pot@);
            assert forall|k2: int| 0 <= k2 < pot_payouts@.len() implies exists|g: int|
                0 <= g < ranked_player_groups@.len()
                    && (#[trigger] ranked_player_groups@[g])@.contains(
                    (#[trigger] pot_payouts@[k2]).0,
                ) by {
                assert(pot_payouts@[k2].0 == winners[k2]);
                assert(ranked_player_groups@[winner_group as int]@.contains(winners[k2]));
            }
        }
        // fold this layer's payouts into the running ledger
        let mut k: usize = 0;
        while k < pot_payouts.len()
            invariant
                k <= pot_payouts@.len(),
                ledger_wf(acc@),
                spec_total(acc@) == sum_layers(pots@.take(li as int)) + spec_total(
                    pot_payouts@.take(k as int),
                ),
                forall|p: u32| #[trigger] spec_get(acc@, p) == settled_amount(
                    ranked_player_groups@,
                    lmap.take(li as int),
                    p,
                ) + spec_get(pot_payouts@.take(k as int), p),
                spec_total(pot_payouts@) == spec_total(pots@[li as int].pot@),
                forall|a: int, b: int| 0 <= a < b < pot_payouts@.len()
                    ==> (#[trigger] pot_payouts@[a]).0 != (#[trigger] pot_payouts@[b]).0,
                forall|p: u32| #[trigger] spec_contains(acc@, p) ==> exists|g: int|
                    0 <= g < ranked_player_groups@.len()
                        && (#[trigger] ranked_player_groups@[g])@.contains(p),
                forall|k2: int| 0 <= k2 < pot_payouts@.len() ==> exists|g: int|
                    0 <= g < ranked_player_groups@.len()
                        && (#[trigger] ranked_player_groups@[g])@.contains(
                        (#[trigger] pot_payouts@[k2]).0,
                    ),
                li < pots@.len(),
                pots_wf(pots@),
                lmap == layers_of(pots@),
                sum_layers(pots@) <= u64::MAX,
            decreases pot_payouts@.len() - k,
        {
            let (pid, amount) = pot_payouts[k];
            proof {
                assert(pot_payouts@.take(k + 1).drop_last() =~= pot_payouts@.take(k as int));
                assert(pot_payouts@.take(k + 1).last() == pot_payouts@[k as int]);
                assert(pot_payouts@.take(k + 1) =~= pot_payouts@.take(k as int).push(
                    pot_payouts@[k as int]));
                lemma_total_prefix_le(pot_payouts@, k + 1);
                lemma_sum_layers_take(pots@, li as int);
                lemma_sum_layers_take_le(pots@, li as int + 1);
                lemma_total_nonneg(pot_payouts@.take(k as int));
                assert forall|x: int| 0 <= x < pot_payouts@.take(k as int).len()
                    implies (#[trigger] pot_payouts@.take(k as int)[x]).0
                        != pot_payouts@[k as int].0 by {
                    assert(pot_payouts@.take(k as int)[x] == pot_payouts@[x]);
                }
                lemma_get_push_new(pot_payouts@.take(k as int), pot_payouts@[k as int]);
                assert(!crate::pot::spec_contains(pot_payouts@.take(k as int), pid));
                crate::pot::lemma_get_absent(pot_payouts@.take(k as int), pid);
            }
            let ghost pre_acc = acc@;
            ledger_add(&mut acc, pid, amount);
            proof {
                assert forall|p: u32| #[trigger] spec_get(acc@, p) == settled_amount(
                    ranked_player_groups@,
                    lmap.take(li as int),
                    p,
                ) + spec_get(pot_payouts@.take(k as int + 1), p) by {
                    if p == pid {
                        assert(spec_get(acc@, p) == spec_get(pre_acc, p) + amount);
                        assert(spec_get(pot_payouts@.take(k as int + 1), p) == amount);
                        assert(spec_get(pot_payouts@.take(k as int), p) == 0);
                    } else {
                        assert(spec_get(acc@, p) == spec_get(pre_acc, p));
                        assert(spec_get(pot_payouts@.take(k as int + 1), p) == spec_get(
                            pot_payouts@.take(k as int),
                            p,
                        ));
                    }
                }
                assert forall|p: u32| #[trigger] spec_contains(acc@, p)
                    implies exists|g: int| 0 <= g < ranked_player_groups@.len()
                        && (#[trigger] ranked_player_groups@[g])@.contains(p) by {
                    if p != pid {
                        assert(spec_contains(pre_acc, p));
                    } else {
                        assert(pot_payouts@[k as int].0 == pid);
                    }
                }
            }
            k = k + 1;
        }
        proof {
            assert(pot_payouts@.take(pot_payouts@.len() as int) =~= pot_payouts@);
            lemma_sum_layers_take(pots@, li as int);
            assert(lmap.take(li + 1).drop_last() =~= lmap.take(li as int));
            assert(lmap.take(li + 1).last() == lmap[li as int]);
            assert(lmap[li as int] == pots@[li as int].pot@);
            assert forall|p: u32| #[trigger] spec_get(acc@, p) == settled_amount(
                ranked_player_groups@,
                lmap.take(li as int + 1),
                p,
            ) by {
                assert(spec_get(acc@, p) == settled_amount(
                    ranked_player_groups@,
                    lmap.take(li as int),
                    p,
                ) + spec_get(pot_payouts@, p));
                assert(spec_get(pot_payouts@, p) == layer_amount(
                    ranked_player_groups@,
                    pots@[li as int].pot@,
                    p,
                ));
            }
        }
        li = li + 1;
    }
    proof {
        assert(pots@.take(pots@.len() as int) =~= pots@);
        assert(lmap.take(lmap.len() as int) =~= lmap);
        reveal(layers_have_winners);
        assert forall|li2: int| 0 <= li2 < lmap.len() implies exists|g: int|
            0 <= g < ranked_player_groups@.len() && spec_players_in(
                (#[trigger] ranked_player_groups@[g])@,
                #[trigger] lmap[li2],
            ).len() > 0 by {
            let g = choose|g: int| 0 <= g < ranked_player_groups@.len() && spec_players_in(
                (#[trigger] ranked_player_groups@[g])@,
                (#[trigger] pots@[li2]).pot@,
            ).len() > 0;
            assert(lmap[li2] == pots@[li2].pot@);
            assert(spec_players_in(ranked_player_groups@[g]@, lmap[li2]).len() > 0);
        }
        assert(layers_have_winners(ranked_player_groups@, lmap));
    }
    Ok(acc)
}

/// One more layer adds its total to the running sum.
pub proof fn lemma_sum_layers_take(ps: Seq<SidePot>, n: int)
    requires
        0 <= n < ps.len(),
    ensures
        sum_layers(ps.take(n + 1)) == sum_layers(ps.take(n)) + spec_total(ps[n].pot@),
{
    assert(ps.take(n + 1).drop_last() =~= ps.take(n));
    assert(ps.take(n + 1).last() == ps[n]);
}

/// A prefix of the layer sums is at most the whole, given layers are
/// non-negative.
pub proof fn lemma_sum_layers_take_le(ps: Seq<SidePot>, n: int)
    requires
        0 <= n <= ps.len(),
    ensures
        sum_layers(ps.take(n)) <= sum_layers(ps),
        sum_layers(ps.take(n)) >= 0,
    decreases ps.len() - n,
{
    if n == ps.len() {
        assert(ps.take(n) =~= ps);
        lemma_sum_layers_nonneg(ps);
    } else {
        lemma_sum_layers_take(ps, n);
        lemma_sum_layers_take_le(ps, n + 1);
        lemma_total_nonneg(ps[n].pot@);
        lemma_sum_layers_nonneg(ps.take(n));
    }
}

pub proof fn lemma_sum_layers_nonneg(ps: Seq<SidePot>)
    ensures
        sum_layers(ps) >= 0,
    decreases ps.len(),
{
    if ps.len() > 0 {
        lemma_sum_layers_nonneg(ps.drop_last());
        lemma_total_nonneg(ps.last().pot@);
    }
}

} // verus!
