//! The engine: one hand of play from blinds to payouts.  Betting decisions
//! come from outside the core; everything the engine itself decides —
//! ranking hands, grouping players by strength, splitting pots, paying
//! winners — is stated and verified here.

use vstd::prelude::*;
use crate::errors::PokerError;
use crate::evaluator::Evaluator;
use crate::game::{PokerGame, sum_chips};
use crate::lookup::masks_generable;
use crate::player::Player;
use crate::pot::{SidePot, spec_get, spec_total, ledger_wf, ledger_get};
use crate::settlement;

verus! {

/// The ids of the entries carrying rank `r`, in entry order.
pub open spec fn ids_with(s: Seq<(u32, u32)>, r: u32) -> Seq<u32>
    decreases s.len(),
{
    if s.len() == 0 {
        Seq::empty()
    } else {
        ids_with(s.drop_last(), r) + if s.last().0 == r {
            seq![s.last().1]
        } else {
            Seq::empty()
        }
    }
}

/// The entries whose rank is not `r`.
pub open spec fn rem_rank(s: Seq<(u32, u32)>, r: u32) -> Seq<(u32, u32)>
    decreases s.len(),
{
    if s.len() == 0 {
        Seq::empty()
    } else {
        rem_rank(s.drop_last(), r) + if s.last().0 == r {
            Seq::empty()
        } else {
            seq![s.last()]
        }
    }
}

/// The entries whose rank is outside the excluded list.
pub open spec fn rem_ranks(s: Seq<(u32, u32)>, ex: Seq<u32>) -> Seq<(u32, u32)>
    decreases s.len(),
{
    if s.len() == 0 {
        Seq::empty()
    } else {
        rem_ranks(s.drop_last(), ex) + if ex.contains(s.last().0) {
            Seq::empty()
        } else {
            seq![s.last()]
        }
    }
}

proof fn lemma_contains_push(ex: Seq<u32>, m: u32, c: u32)
    ensures
        ex.push(m).contains(c) <==> (ex.contains(c) || c == m),
{
    if ex.contains(c) {
        let w = choose|w: int| 0 <= w < ex.len() && ex[w] == c;
        assert(ex.push(m)[w] == c);
    }
    if c == m {
        assert(ex.push(m)[ex.len() as int] == c);
    }
    if ex.push(m).contains(c) {
        let w = choose|w: int| 0 <= w < ex.push(m).len() && ex.push(m)[w] == c;
        if w < ex.len() {
            assert(ex[w] == c);
        }
    }
}

/// Excluding nothing keeps everything.
proof fn lemma_rem_ranks_empty(s: Seq<(u32, u32)>)
    ensures
        rem_ranks(s, Seq::empty()) == s,
    decreases s.len(),
{
    if s.len() > 0 {
        lemma_rem_ranks_empty(s.drop_last());
        assert(rem_ranks(s, Seq::empty()) =~= s);
    }
}

/// Excluding other ranks never changes one rank's id list.
proof fn lemma_ids_with_rem_ranks(s: Seq<(u32, u32)>, ex: Seq<u32>, m: u32)
    requires
        !ex.contains(m),
    ensures
        ids_with(rem_ranks(s, ex), m) == ids_with(s, m),
    decreases s.len(),
{
    if s.len() == 0 {
    } else {
        let dl = s.drop_last();
        lemma_ids_with_rem_ranks(dl, ex, m);
        if ex.contains(s.last().0) {
            assert(s.last().0 != m);
            assert(rem_ranks(s, ex) == rem_ranks(dl, ex));
            assert(ids_with(s, m) =~= ids_with(dl, m));
        } else {
            let t = rem_ranks(s, ex);
            assert(t == rem_ranks(dl, ex) + seq![s.last()]);
            assert(t.drop_last() =~= rem_ranks(dl, ex));
            assert(t.last() == s.last());
            assert(ids_with(t, m) =~= ids_with(s, m));
        }
    }
}

/// Removing one more rank is excluding it.
proof fn lemma_rem_rank_compose(s: Seq<(u32, u32)>, ex: Seq<u32>, m: u32)
    ensures
        rem_rank(rem_ranks(s, ex), m) == rem_ranks(s, ex.push(m)),
    decreases s.len(),
{
    if s.len() == 0 {
    } else {
        let dl = s.drop_last();
        lemma_rem_rank_compose(dl, ex, m);
        lemma_contains_push(ex, m, s.last().0);
        if ex.contains(s.last().0) {
            assert(rem_ranks(s, ex) == rem_ranks(dl, ex));
            assert(rem_ranks(s, ex.push(m)) =~= rem_ranks(dl, ex.push(m)));
        } else {
            let t = rem_ranks(s, ex);
            assert(t == rem_ranks(dl, ex) + seq![s.last()]);
            assert(t.drop_last() =~= rem_ranks(dl, ex));
            assert(t.last() == s.last());
            if s.last().0 == m {
                assert(rem_rank(t, m) =~= rem_ranks(s, ex.push(m)));
            } else {
                assert(rem_rank(t, m) =~= rem_ranks(s, ex.push(m)));
            }
        }
    }
}

/// A present rank yields a non-empty id list.
proof fn lemma_ids_with_present(s: Seq<(u32, u32)>, w: int)
    requires
        0 <= w < s.len(),
    ensures
        ids_with(s, s[w].0).len() > 0,
    decreases s.len(),
{
    if w < s.len() - 1 {
        lemma_ids_with_present(s.drop_last(), w);
    }
}

/// Ids in a rank's id list come from the pair list.
proof fn lemma_ids_with_from(s: Seq<(u32, u32)>, r: u32)
    ensures
        forall|k: int| 0 <= k < ids_with(s, r).len() ==> exists|j: int|
            0 <= j < s.len() && (#[trigger] s[j]).1 == #[trigger] ids_with(s, r)[k],
    decreases s.len(),
{
    if s.len() > 0 {
        let dl = s.drop_last();
        lemma_ids_with_from(dl, r);
        assert forall|k: int| 0 <= k < ids_with(s, r).len()
            implies exists|j: int| 0 <= j < s.len() && (#[trigger] s[j]).1
                == #[trigger] ids_with(s, r)[k] by {
            if k < ids_with(dl, r).len() {
                assert(ids_with(s, r)[k] == ids_with(dl, r)[k]);
                let j = choose|j: int| 0 <= j < dl.len() && (#[trigger] dl[j]).1
                    == ids_with(dl, r)[k];
                assert(s[j].1 == ids_with(s, r)[k]);
            } else {
                assert(ids_with(s, r)[k] == s.last().1);
                assert(s[s.len() - 1].1 == ids_with(s, r)[k]);
            }
        }
    }
}

/// Distinct pair ids give distinct id lists for every rank.
proof fn lemma_ids_with_distinct(s: Seq<(u32, u32)>, r: u32)
    requires
        forall|a: int, b: int| 0 <= a < b < s.len()
            ==> (#[trigger] s[a]).1 != (#[trigger] s[b]).1,
    ensures
        forall|a: int, b: int| 0 <= a < b < ids_with(s, r).len()
            ==> ids_with(s, r)[a] != ids_with(s, r)[b],
    decreases s.len(),
{
    if s.len() > 0 {
        let dl = s.drop_last();
        assert(forall|a: int, b: int| 0 <= a < b < dl.len()
            ==> (#[trigger] dl[a]).1 != (#[trigger] dl[b]).1);
        lemma_ids_with_distinct(dl, r);
        lemma_ids_with_from(dl, r);
        let w = ids_with(s, r);
        assert forall|a: int, b: int| 0 <= a < b < w.len() implies w[a] != w[b] by {
            if b < ids_with(dl, r).len() {
                assert(w[a] == ids_with(dl, r)[a] && w[b] == ids_with(dl, r)[b]);
            } else {
                assert(w[b] == s.last().1);
                assert(w[a] == ids_with(dl, r)[a]);
                let j = choose|j: int| 0 <= j < dl.len() && (#[trigger] dl[j]).1
                    == ids_with(dl, r)[a];
                assert(s[j].1 == w[a] && s[s.len() - 1].1 == w[b]);
            }
        }
    }
}

/// The active pairs carry the active players' ids, which stay distinct when
/// the players' ids are.
proof fn lemma_active_pairs_ids(
    players: Seq<Player>,
    ft: Seq<(u64, u32)>,
    ut: Seq<(u64, u32)>,
    comm: Seq<crate::card::Card>,
)
    requires
        crate::game::player_ids_unique(players),
    ensures
        forall|k: int| 0 <= k < active_pairs(players, ft, ut, comm).len() ==> exists|j: int|
            0 <= j < players.len() && (#[trigger] players[j]).id == (#[trigger] active_pairs(
                players,
                ft,
                ut,
                comm,
            )[k]).1,
        forall|a: int, b: int| 0 <= a < b < active_pairs(players, ft, ut, comm).len()
            ==> (#[trigger] active_pairs(players, ft, ut, comm)[a]).1
                != (#[trigger] active_pairs(players, ft, ut, comm)[b]).1,
    decreases players.len(),
{
    if players.len() > 0 {
        let dl = players.drop_last();
        assert(forall|i: int, j: int| 0 <= i < j < dl.len()
            ==> (#[trigger] dl[i]).id != (#[trigger] dl[j]).id);
        lemma_active_pairs_ids(dl, ft, ut, comm);
        let ap = active_pairs(players, ft, ut, comm);
        let apd = active_pairs(dl, ft, ut, comm);
        assert forall|k: int| 0 <= k < ap.len() implies exists|j: int|
            0 <= j < players.len() && (#[trigger] players[j]).id == (#[trigger] ap[k]).1 by {
            if k < apd.len() {
                assert(ap[k] == apd[k]);
                let j = choose|j: int| 0 <= j < dl.len() && (#[trigger] dl[j]).id == apd[k].1;
                assert(players[j].id == ap[k].1);
            } else {
                assert(ap[k].1 == players.last().id);
                assert(players[players.len() - 1].id == ap[k].1);
            }
        }
        assert forall|a: int, b: int| 0 <= a < b < ap.len()
            implies (#[trigger] ap[a]).1 != (#[trigger] ap[b]).1 by {
            if b < apd.len() {
                assert(ap[a] == apd[a] && ap[b] == apd[b]);
            } else {
                assert(ap[b].1 == players.last().id);
                assert(ap[a] == apd[a]);
                let j = choose|j: int| 0 <= j < dl.len() && (#[trigger] dl[j]).id == apd[a].1;
                assert(players[j].id == ap[a].1
                    && players[players.len() - 1].id == ap[b].1);
            }
        }
    }
}

/// An emptied working set means every rank was excluded.
proof fn lemma_rem_ranks_all_excluded(s: Seq<(u32, u32)>, ex: Seq<u32>)
    requires
        rem_ranks(s, ex).len() == 0,
    ensures
        forall|k: int| 0 <= k < s.len() ==> ex.contains((#[trigger] s[k]).0),
    decreases s.len(),
{
    if s.len() > 0 {
        assert(rem_ranks(s.drop_last(), ex).len() == 0);
        lemma_rem_ranks_all_excluded(s.drop_last(), ex);
        assert(ex.contains(s.last().0));
        assert forall|k: int| 0 <= k < s.len() implies ex.contains((#[trigger] s[k]).0) by {
            if k < s.len() - 1 {
                assert(s.drop_last()[k] == s[k]);
            }
        }
    }
}

/// Entries surviving a rank removal are original entries of another rank.
proof fn lemma_rem_rank_entries(s: Seq<(u32, u32)>, m: u32)
    ensures
        rem_rank(s, m).len() <= s.len(),
        forall|k: int| 0 <= k < rem_rank(s, m).len()
            ==> (#[trigger] rem_rank(s, m)[k]).0 != m && s.contains(rem_rank(s, m)[k]),
    decreases s.len(),
{
    if s.len() > 0 {
        let dl = s.drop_last();
        lemma_rem_rank_entries(dl, m);
        assert forall|k: int| 0 <= k < rem_rank(s, m).len()
            implies (#[trigger] rem_rank(s, m)[k]).0 != m && s.contains(rem_rank(s, m)[k]) by {
            if k < rem_rank(dl, m).len() {
                assert(rem_rank(s, m)[k] == rem_rank(dl, m)[k]);
                assert(dl.contains(rem_rank(dl, m)[k]));
                let w = choose|w: int| 0 <= w < dl.len() && dl[w] == rem_rank(dl, m)[k];
                assert(s[w] == rem_rank(dl, m)[k]);
            } else {
                assert(rem_rank(s, m)[k] == s.last());
                assert(s[s.len() - 1] == s.last());
            }
        }
    }
}

/// Removing a present rank strictly shrinks the working set.
proof fn lemma_rem_rank_shrinks(s: Seq<(u32, u32)>, m: u32, w: int)
    requires
        0 <= w < s.len(),
        s[w].0 == m,
    ensures
        rem_rank(s, m).len() < s.len(),
    decreases s.len(),
{
    lemma_rem_rank_entries(s.drop_last(), m);
    if w < s.len() - 1 {
        lemma_rem_rank_shrinks(s.drop_last(), m, w);
    }
}

/// The cards `evaluate` sees for one player: the board, then the hole cards.
pub open spec fn player_hand(comm: Seq<crate::card::Card>, p: Player) -> Seq<u32> {
    crate::evaluator::enc_seq(comm) + crate::evaluator::enc_seq(p.cards@)
}

/// The (rank, id) pairs of the active players, in seat order, each rank the
/// evaluator's rank of that player's best hand against the board.
pub open spec fn active_pairs(
    players: Seq<Player>,
    ft: Seq<(u64, u32)>,
    ut: Seq<(u64, u32)>,
    comm: Seq<crate::card::Card>,
) -> Seq<(u32, u32)>
    decreases players.len(),
{
    if players.len() == 0 {
        Seq::empty()
    } else {
        active_pairs(players.drop_last(), ft, ut, comm) + if players.last().active {
            seq![
                (
                    crate::evaluator::spec_eval_rank(ft, ut, player_hand(comm, players.last())),
                    players.last().id,
                ),
            ]
        } else {
            Seq::empty()
        }
    }
}

/// `groups` is the grouping of `pairs` by rank: `ranks` lists the distinct
/// ranks present in ascending order, and each group holds exactly the ids
/// carrying its rank, in entry order; no group is empty.
#[verifier::opaque]
pub open spec fn is_rank_grouping(
    pairs: Seq<(u32, u32)>,
    ranks: Seq<u32>,
    groups: Seq<Vec<u32>>,
) -> bool {
    &&& ranks.len() == groups.len()
    &&& forall|g1: int, g2: int| 0 <= g1 < g2 < ranks.len()
        ==> #[trigger] ranks[g1] < #[trigger] ranks[g2]
    &&& forall|g: int| 0 <= g < groups.len()
        ==> (#[trigger] groups[g])@ == ids_with(pairs, ranks[g]) && groups[g]@.len() > 0
    &&& forall|k: int| 0 <= k < pairs.len() ==> ranks.contains((#[trigger] pairs[k]).0)
}

/// Groups the (rank, id) entries by rank: ascending distinct ranks, and for
/// each rank the ids carrying it, in entry order.  Every entry lands in
/// exactly the group of its rank.
pub fn rank_groups(pairs: &Vec<(u32, u32)>) -> (r: (Vec<u32>, Vec<Vec<u32>>))
    ensures
        is_rank_grouping(pairs@, r.0@, r.1@),
        r.0@.len() == r.1@.len(),
        forall|g1: int, g2: int| 0 <= g1 < g2 < r.0@.len()
            ==> #[trigger] r.0@[g1] < #[trigger] r.0@[g2],
        forall|g: int| 0 <= g < r.1@.len()
            ==> (#[trigger] r.1@[g])@ == ids_with(pairs@, r.0@[g]) && r.1@[g]@.len() > 0,
        forall|k: int| 0 <= k < pairs@.len() ==> r.0@.contains((#[trigger] pairs@[k]).0),
{
    let mut ranks_out: Vec<u32> = Vec::new();
    let mut groups: Vec<Vec<u32>> = Vec::new();

    // working copy
    let mut remaining: Vec<(u32, u32)> = Vec::new();
    let mut ci: usize = 0;
    while ci < pairs.len()
        invariant
            ci <= pairs@.len(),
            remaining@ == pairs@.take(ci as int),
        decreases pairs@.len() - ci,
    {
        remaining.push(pairs[ci]);
        proof {
            assert(pairs@.take(ci + 1) =~= pairs@.take(ci as int).push(pairs@[ci as int]));
        }
        ci = ci + 1;
    }
    proof {
        assert(pairs@.take(pairs@.len() as int) =~= pairs@);
        lemma_rem_ranks_empty(pairs@);
    }

    while remaining.len() > 0
        invariant
            remaining@ == rem_ranks(pairs@, ranks_out@),
            ranks_out@.len() == groups@.len(),
            forall|g1: int, g2: int| 0 <= g1 < g2 < ranks_out@.len()
                ==> #[trigger] ranks_out@[g1] < #[trigger] ranks_out@[g2],
            forall|g: int| 0 <= g < groups@.len()
                ==> (#[trigger] groups@[g])@ == ids_with(pairs@, ranks_out@[g])
                    && groups@[g]@.len() > 0,
            forall|g: int, k: int|
                #![trigger ranks_out@[g], remaining@[k]]
                0 <= g < ranks_out@.len() && 0 <= k < remaining@.len()
                ==> ranks_out@[g] < remaining@[k].0,
            forall|g: int| 0 <= g < ranks_out@.len()
                ==> !ranks_out@.take(g).contains(#[trigger] ranks_out@[g]),
        decreases remaining@.len(),
    {
        // minimum rank still unprocessed
        let mut m: u32 = remaining[0].0;
        let ghost mut min_at: int = 0;
        let mut j: usize = 1;
        while j < remaining.len()
            invariant
                1 <= j <= remaining@.len(),
                remaining@.len() > 0,
                0 <= min_at < j,
                remaining@[min_at].0 == m,
                forall|k: int| 0 <= k < j ==> (#[trigger] remaining@[k]).0 >= m,
            decreases remaining@.len() - j,
        {
            if remaining[j].0 < m {
                m = remaining[j].0;
                proof {
                    min_at = j as int;
                }
            }
            j = j + 1;
        }

        // the group at this rank, and the rest of the working set
        let mut group: Vec<u32> = Vec::new();
        let mut rest: Vec<(u32, u32)> = Vec::new();
        let mut i: usize = 0;
        while i < remaining.len()
            invariant
                i <= remaining@.len(),
                group@ == ids_with(remaining@.take(i as int), m),
                rest@ == rem_rank(remaining@.take(i as int), m),
            decreases remaining@.len() - i,
        {
            let (rank, pid) = remaining[i];
            proof {
                assert(remaining@.take(i + 1).drop_last() =~= remaining@.take(i as int));
                assert(remaining@.take(i + 1).last() == remaining@[i as int]);
                if remaining@[i as int].0 == m {
                    assert(ids_with(remaining@.take(i + 1), m)
                        =~= group@.push(remaining@[i as int].1));
                    assert(rem_rank(remaining@.take(i + 1), m) =~= rest@);
                } else {
                    assert(ids_with(remaining@.take(i + 1), m) =~= group@);
                    assert(rem_rank(remaining@.take(i + 1), m)
                        =~= rest@.push(remaining@[i as int]));
                }
            }
            if rank == m {
                group.push(pid);
            } else {
                rest.push((rank, pid));
            }
            i = i + 1;
        }
        proof {
            assert(remaining@.take(remaining@.len() as int) =~= remaining@);
            assert(!ranks_out@.contains(m)) by {
                if ranks_out@.contains(m) {
                    let w = choose|w: int| 0 <= w < ranks_out@.len() && ranks_out@[w] == m;
                    assert(ranks_out@[w] < remaining@[min_at].0);
                }
            }
            lemma_ids_with_rem_ranks(pairs@, ranks_out@, m);
            assert(group@ == ids_with(pairs@, m));
            lemma_ids_with_present(remaining@, min_at);
            lemma_rem_rank_compose(pairs@, ranks_out@, m);
            assert(rest@ == rem_ranks(pairs@, ranks_out@.push(m)));
            lemma_rem_rank_shrinks(remaining@, m, min_at);
            lemma_rem_rank_entries(remaining@, m);
        }
        let ghost old_ranks = ranks_out@;
        let ghost old_groups = groups@;
        let ghost ggroup = group@;
        ranks_out.push(m);
        groups.push(group);
        remaining = rest;
        proof {
            assert forall|g: int| 0 <= g < groups@.len()
                implies (#[trigger] groups@[g])@ == ids_with(pairs@, ranks_out@[g])
                    && groups@[g]@.len() > 0 by {
                if g < old_groups.len() {
                    assert(groups@[g] == old_groups[g]);
                    assert(ranks_out@[g] == old_ranks[g]);
                } else {
                    assert(groups@[g]@ == ggroup);
                }
            }
            assert forall|g: int, k: int|
                #![trigger ranks_out@[g], remaining@[k]]
                0 <= g < ranks_out@.len() && 0 <= k < remaining@.len()
                implies ranks_out@[g] < remaining@[k].0 by {
                assert(remaining@[k].0 != m && rem_ranks(
                    pairs@,
                    old_ranks,
                ).contains(remaining@[k]));
                let w = choose|w: int| 0 <= w < rem_ranks(pairs@, old_ranks).len()
                    && rem_ranks(pairs@, old_ranks)[w] == remaining@[k];
                assert(remaining@[k].0 >= m);
                if g < old_ranks.len() {
                    assert(ranks_out@[g] == old_ranks[g]);
                } else {
                    assert(ranks_out@[g] == m);
                }
            }
            assert forall|g: int| 0 <= g < ranks_out@.len()
                implies !ranks_out@.take(g).contains(#[trigger] ranks_out@[g]) by {
                if g < old_ranks.len() {
                    assert(ranks_out@.take(g) =~= old_ranks.take(g));
                    assert(ranks_out@[g] == old_ranks[g]);
                } else {
                    assert(ranks_out@.take(g) =~= old_ranks);
                }
            }
            assert forall|g1: int, g2: int| 0 <= g1 < g2 < ranks_out@.len()
                implies #[trigger] ranks_out@[g1] < #[trigger] ranks_out@[g2] by {
                if g2 < old_ranks.len() {
                } else {
                    assert(ranks_out@[g2] == m);
                    assert(old_ranks[g1] < rem_ranks(pairs@, old_ranks)[0].0
                        || rem_ranks(pairs@, old_ranks).len() == 0);
                }
            }
        }
    }
    proof {
        lemma_rem_ranks_all_excluded(pairs@, ranks_out@);
        reveal(is_rank_grouping);
    }
    (ranks_out, groups)
}

/// Indices of the strongest (numerically smallest) rank, in seat order,
/// together with that rank.
pub fn winners_from_ranks(ranks: &Vec<u32>) -> (r: (Vec<usize>, u32))
    requires
        ranks@.len() > 0,
    ensures
        forall|k: int| 0 <= k < ranks@.len() ==> #[trigger] ranks@[k] >= r.1,
        exists|k: int| 0 <= k < ranks@.len() && ranks@[k] == r.1,
        forall|a: int, b: int| 0 <= a < b < r.0@.len()
            ==> #[trigger] r.0@[a] < #[trigger] r.0@[b],
        forall|a: int| 0 <= a < r.0@.len() ==> 0 <= #[trigger] r.0@[a] < ranks@.len()
            && ranks@[r.0@[a] as int] == r.1,
        forall|k: int| 0 <= k < ranks@.len() && #[trigger] ranks@[k] == r.1
            ==> r.0@.contains(k as usize),
{
    let mut best: u32 = ranks[0];
    let ghost mut best_at: int = 0;
    let mut j: usize = 1;
    while j < ranks.len()
        invariant
            1 <= j <= ranks@.len(),
            0 <= best_at < j,
            ranks@[best_at] == best,
            forall|k: int| 0 <= k < j ==> #[trigger] ranks@[k] >= best,
        decreases ranks@.len() - j,
    {
        if ranks[j] < best {
            best = ranks[j];
            proof {
                best_at = j as int;
            }
        }
        j = j + 1;
    }
    let mut winners: Vec<usize> = Vec::new();
    let mut k: usize = 0;
    while k < ranks.len()
        invariant
            k <= ranks@.len(),
            forall|a: int, b: int| 0 <= a < b < winners@.len()
                ==> #[trigger] winners@[a] < #[trigger] winners@[b],
            forall|a: int| 0 <= a < winners@.len() ==> 0 <= #[trigger] winners@[a] < k
                && ranks@[winners@[a] as int] == best,
            forall|kk: int| 0 <= kk < k && #[trigger] ranks@[kk] == best
                ==> winners@.contains(kk as usize),
        decreases ranks@.len() - k,
    {
        if ranks[k] == best {
            let ghost pre = winners@;
            winners.push(k);
            proof {
                assert(winners@ == pre.push(k as usize));
                assert forall|kk: int| 0 <= kk < k + 1 && #[trigger] ranks@[kk] == best
                    implies winners@.contains(kk as usize) by {
                    if kk < k {
                        let a = choose|a: int| 0 <= a < pre.len()
                            && #[trigger] pre[a] == kk as usize;
                        assert(winners@[a] == kk as usize);
                    } else {
                        assert(winners@[pre.len() as int] == kk as usize);
                    }
                }
            }
        }
        k = k + 1;
    }
    (winners, best)
}

/// The engine for one table: the game, the blinds, and the evaluator.
pub struct PokerEngine {
    pub game: PokerGame,
    pub small_blind: u64,
    pub big_blind: u64,
    pub evaluator: Evaluator,
    pub wins_and_losses: Vec<(u32, u64)>,
}

impl PokerEngine {
    /// An engine over a game; building the evaluator's tables can only fail
    /// on the fatal construction mismatch.
    pub fn new(game: PokerGame, small_blind: u64, big_blind: u64) -> (r: Result<
        PokerEngine,
        PokerError,
    >)
        ensures
            r is Ok <==> masks_generable() && crate::lookup::tables_collision_free(),
            r is Ok ==> r->Ok_0.evaluator.wf() && r->Ok_0.game == game
                && r->Ok_0.small_blind == small_blind && r->Ok_0.big_blind == big_blind,
            r is Err ==> r->Err_0 == PokerError::CorruptTable,
    {
        let evaluator = match Evaluator::new() {
            Ok(e) => e,
            Err(e) => { return Err(e); },
        };
        Ok(PokerEngine {
            game,
            small_blind,
            big_blind,
            evaluator,
            wins_and_losses: Vec::new(),
        })
    }

    /// Empties the pot for a fresh hand.
    pub fn reset_pot(&mut self)
        requires
            old(self).game.pot.wf(),
        ensures
            final(self).game.pot.wf(),
            final(self).game.pot.pot@.len() == 0,
            *final(self) == (PokerEngine {
                game: PokerGame { pot: final(self).game.pot, ..old(self).game },
                ..*old(self)
            }),
    {
        self.game.pot.reset();
    }

    /// Gives every player their seat number.
    pub fn assign_order_to_players(&mut self)
        requires
            old(self).game.players@.len() <= u32::MAX,
        ensures
            final(self).game.players@.len() == old(self).game.players@.len(),
            forall|i: int| 0 <= i < old(self).game.players@.len()
                ==> #[trigger] final(self).game.players@[i] == (Player {
                    order: Some(i as u32),
                    ..old(self).game.players@[i]
                }),
            *final(self) == (PokerEngine {
                game: PokerGame { players: final(self).game.players, ..old(self).game },
                ..*old(self)
            }),
    {
        let n = self.game.players.len();
        let mut i: usize = 0;
        while i < n
            invariant
                i <= n,
                n == self.game.players@.len(),
                n == old(self).game.players@.len(),
                n <= u32::MAX,
                forall|k: int| 0 <= k < i
                    ==> #[trigger] self.game.players@[k] == (Player {
                        order: Some(k as u32),
                        ..old(self).game.players@[k]
                    }),
                forall|k: int| i <= k < n
                    ==> #[trigger] self.game.players@[k] == old(self).game.players@[k],
                *self == (PokerEngine {
                    game: PokerGame { players: self.game.players, ..old(self).game },
                    ..*old(self)
                }),
            decreases n - i,
        {
            let ghost pre = self.game.players@;
            let mut p = self.game.players.remove(i);
            p.order = Some(i as u32);
            self.game.players.insert(i, p);
            proof {
                assert(self.game.players@ =~= pre.update(
                    i as int,
                    self.game.players@[i as int],
                ));
            }
            i = i + 1;
        }
    }

    /// Posts the small and big blinds from the first two seats.
    pub fn assign_blinds(&mut self)
        requires
            old(self).game.players@.len() >= 2,
            old(self).game.pot.wf(),
            spec_total(old(self).game.pot.pot@)
                + crate::player::min_u64(old(self).small_blind,
                    old(self).game.players@[0].n_chips)
                + crate::player::min_u64(old(self).big_blind,
                    old(self).game.players@[1].n_chips) <= u64::MAX,
        ensures
            final(self).game.pot.wf(),
            final(self).game.players@.len() == old(self).game.players@.len(),
            spec_total(final(self).game.pot.pot@) == spec_total(old(self).game.pot.pot@)
                + crate::player::min_u64(old(self).small_blind,
                    old(self).game.players@[0].n_chips)
                + crate::player::min_u64(old(self).big_blind,
                    old(self).game.players@[1].n_chips),
            sum_chips(final(self).game.players@) == sum_chips(old(self).game.players@)
                - crate::player::min_u64(old(self).small_blind,
                    old(self).game.players@[0].n_chips)
                - crate::player::min_u64(old(self).big_blind,
                    old(self).game.players@[1].n_chips),
            forall|i: int| 0 <= i < old(self).game.players@.len()
                ==> (#[trigger] final(self).game.players@[i]).id
                    == old(self).game.players@[i].id
                && final(self).game.players@[i].active == old(self).game.players@[i].active,
            *final(self) == (PokerEngine {
                game: PokerGame {
                    players: final(self).game.players,
                    pot: final(self).game.pot,
                    ..old(self).game
                },
                ..*old(self)
            }),
    {
        let sb = self.small_blind;
        let bb = self.big_blind;
        let ghost pre0 = self.game.players@;
        let mut p0 = self.game.players.remove(0);
        p0.add_to_pot(&mut self.game.pot, sb);
        self.game.players.insert(0, p0);
        proof {
            assert(self.game.players@ =~= pre0.update(0, self.game.players@[0]));
            crate::game::lemma_sum_chips_update(pre0, 0, self.game.players@[0]);
        }
        let ghost pre1 = self.game.players@;
        let mut p1 = self.game.players.remove(1);
        p1.add_to_pot(&mut self.game.pot, bb);
        self.game.players.insert(1, p1);
        proof {
            assert(self.game.players@ =~= pre1.update(1, self.game.players@[1]));
            crate::game::lemma_sum_chips_update(pre1, 1, self.game.players@[1]);
            assert(pre1[0] == self.game.players@[0]);
        }
    }

    /// Rotates the seats so the blinds move one seat left.
    pub fn move_blinds(&mut self)
        requires
            old(self).game.players@.len() >= 1,
        ensures
            final(self).game.players@ == old(self).game.players@.drop_first().push(
                old(self).game.players@[0],
            ),
            final(self).game.pot == old(self).game.pot,
    {
        let p = self.game.players.remove(0);
        self.game.players.push(p);
    }

    /// Seat indices in betting order: after the blinds pre-flop, from the
    /// button otherwise.
    pub fn players_in_order_of_betting(&self, first_round: bool) -> (r: Vec<usize>)
        requires
            1 <= self.game.players@.len(),
            self.game.players@.len() + 2 <= usize::MAX,
        ensures
            r@.len() == self.game.players@.len(),
            forall|k: int| 0 <= k < r@.len() ==> #[trigger] r@[k] == (if first_round {
                ((k + 2) % (self.game.players@.len() as int)) as usize
            } else {
                k as usize
            }),
    {
        let n = self.game.players.len();
        let mut order: Vec<usize> = Vec::new();
        let mut k: usize = 0;
        while k < n
            invariant
                k <= n,
                n == self.game.players@.len(),
                1 <= n,
                n + 2 <= usize::MAX,
                order@.len() == k,
                forall|j: int| 0 <= j < k ==> #[trigger] order@[j] == (if first_round {
                    ((j + 2) % (n as int)) as usize
                } else {
                    j as usize
                }),
            decreases n - k,
        {
            if first_round {
                order.push((k + 2) % n);
            } else {
                order.push(k);
            }
            k = k + 1;
        }
        order
    }

    /// Players still in the hand.
    pub fn n_active_players(&self) -> (r: usize)
        ensures
            r == count_active(self.game.players@),
    {
        let mut count: usize = 0;
        let mut i: usize = 0;
        while i < self.game.players.len()
            invariant
                i <= self.game.players@.len(),
                count == count_active(self.game.players@.take(i as int)),
                count <= i,
            decreases self.game.players@.len() - i,
        {
            proof {
                assert(self.game.players@.take(i + 1).drop_last()
                    =~= self.game.players@.take(i as int));
            }
            if self.game.players[i].is_active() {
                count = count + 1;
            }
            i = i + 1;
        }
        proof {
            assert(self.game.players@.take(self.game.players@.len() as int)
                =~= self.game.players@);
        }
        count
    }

    /// Players who can still bet: in the hand with chips behind.
    pub fn n_players_with_moves(&self) -> (r: usize)
        ensures
            r == count_with_moves(self.game.players@),
    {
        let mut count: usize = 0;
        let mut i: usize = 0;
        while i < self.game.players.len()
            invariant
                i <= self.game.players@.len(),
                count == count_with_moves(self.game.players@.take(i as int)),
                count <= i,
            decreases self.game.players@.len() - i,
        {
            proof {
                assert(self.game.players@.take(i + 1).drop_last()
                    =~= self.game.players@.take(i as int));
            }
            let p = &self.game.players[i];
            if p.is_active() && !p.is_all_in() {
                count = count + 1;
            }
            i = i + 1;
        }
        proof {
            assert(self.game.players@.take(self.game.players@.len() as int)
                =~= self.game.players@);
        }
        count
    }

    /// Players in the hand with nothing left to bet.
    pub fn n_all_in_players(&self) -> (r: usize)
        ensures
            r == count_all_in(self.game.players@),
    {
        let mut count: usize = 0;
        let mut i: usize = 0;
        while i < self.game.players.len()
            invariant
                i <= self.game.players@.len(),
                count == count_all_in(self.game.players@.take(i as int)),
                count <= i,
            decreases self.game.players@.len() - i,
        {
            proof {
                assert(self.game.players@.take(i + 1).drop_last()
                    =~= self.game.players@.take(i as int));
            }
            if self.game.players[i].is_all_in() {
                count = count + 1;
            }
            i = i + 1;
        }
        proof {
            assert(self.game.players@.take(self.game.players@.len() as int)
                =~= self.game.players@);
        }
        count
    }

    /// Every player's bet so far, in seat order.
    pub fn all_bets(&self) -> (r: Vec<u64>)
        ensures
            r@.len() == self.game.players@.len(),
            forall|i: int| 0 <= i < r@.len() ==> #[trigger] r@[i] == spec_get(
                self.game.pot.pot@,
                self.game.players@[i].id,
            ),
    {
        let mut bets: Vec<u64> = Vec::new();
        let mut i: usize = 0;
        while i < self.game.players.len()
            invariant
                i <= self.game.players@.len(),
                bets@.len() == i,
                forall|k: int| 0 <= k < i ==> #[trigger] bets@[k] == spec_get(
                    self.game.pot.pot@,
                    self.game.players@[k].id,
                ),
            decreases self.game.players@.len() - i,
        {
            let b = self.game.players[i].n_bet_chips(&self.game.pot);
            bets.push(b);
            i = i + 1;
        }
        bets
    }

    /// Whether two players who can still bet have unequal bets in the pot.
    pub fn more_betting_needed(&self) -> (r: bool)
        ensures
            r <==> exists|i: int, j: int|
                #![trigger self.game.players@[i], self.game.players@[j]]
                0 <= i < self.game.players@.len() && 0 <= j < self.game.players@.len()
                && can_bet(self.game.players@[i]) && can_bet(self.game.players@[j])
                && spec_get(self.game.pot.pot@, self.game.players@[i].id) != spec_get(
                    self.game.pot.pot@,
                    self.game.players@[j].id,
                ),
    {
        let ghost ps = self.game.players@;
        let mut first_bet: u64 = 0;
        let ghost mut first_at: int = 0;
        let mut have_first: bool = false;
        let mut i: usize = 0;
        while i < self.game.players.len()
            invariant
                i <= ps.len(),
                ps == self.game.players@,
                have_first ==> 0 <= first_at < i && can_bet(ps[first_at]) && first_bet
                    == spec_get(self.game.pot.pot@, ps[first_at].id),
                !have_first ==> forall|k: int| 0 <= k < i ==> !can_bet(#[trigger] ps[k]),
                forall|k: int| 0 <= k < i && can_bet(#[trigger] ps[k]) ==> spec_get(
                    self.game.pot.pot@,
                    ps[k].id,
                ) == first_bet,
            decreases ps.len() - i,
        {
            let p = &self.game.players[i];
            if p.is_active() && !p.is_all_in() {
                let b = p.n_bet_chips(&self.game.pot);
                if !have_first {
                    first_bet = b;
                    have_first = true;
                    proof {
                        first_at = i as int;
                    }
                } else if b != first_bet {
                    proof {
                        assert(can_bet(ps[first_at]) && can_bet(ps[i as int]));
                    }
                    return true;
                }
            }
            i = i + 1;
        }
        false
    }

    /// Checks the chip books after betting: all chips on the table are
    /// accounted for, and the pot matches the players' remaining stacks.
    pub fn post_betting_analysis(&self) -> (r: bool)
        requires
            self.game.pot.wf(),
            spec_total(self.game.pot.pot@) + sum_chips(self.game.players@) <= u64::MAX,
        ensures
            r == ((spec_total(self.game.pot.pot@) + sum_chips(self.game.players@)
                == self.game.total_n_chips_on_table) && (spec_total(self.game.pot.pot@)
                == sum_chips(self.game.players@))),
    {
        let pot_total = self.game.pot.total();
        let mut chips: u64 = 0;
        let mut i: usize = 0;
        while i < self.game.players.len()
            invariant
                i <= self.game.players@.len(),
                chips == sum_chips(self.game.players@.take(i as int)),
                spec_total(self.game.pot.pot@) + sum_chips(self.game.players@) <= u64::MAX,
                spec_total(self.game.pot.pot@) >= 0,
            decreases self.game.players@.len() - i,
        {
            proof {
                crate::game::lemma_sum_chips_take(self.game.players@, i as int);
                crate::game::lemma_sum_chips_take_le(self.game.players@, i + 1);
                crate::game::lemma_sum_chips_nonneg(self.game.players@.take(i as int));
            }
            chips = chips + self.game.players[i].n_chips;
            i = i + 1;
        }
        proof {
            assert(self.game.players@.take(self.game.players@.len() as int)
                =~= self.game.players@);
        }
        let n_chips_correct = pot_total + chips == self.game.total_n_chips_on_table;
        let pot_correct = pot_total == chips;
        n_chips_correct && pot_correct
    }

    /// Group members that contributed to a layer, in group order.
    pub fn get_players_in_pot(&self, player_group: &Vec<u32>, pot: &SidePot) -> (r: Vec<u32>)
        ensures
            r@ == settlement::spec_players_in(player_group@, pot.pot@),
    {
        settlement::get_players_in_pot(player_group, pot)
    }

    /// One layer's payouts to one ranked group.
    pub fn process_side_pot(&self, player_group: &Vec<u32>, pot: &SidePot) -> (r: Vec<(
        u32,
        u64,
    )>)
        requires
            pot.wf(),
        ensures
            ({
                let winners = settlement::spec_players_in(player_group@, pot.pot@);
                let total = spec_total(pot.pot@);
                let n = winners.len() as int;
                &&& n == 0 ==> r@.len() == 0
                &&& n > 0 ==> r@.len() == n && spec_total(r@) == total
            }),
    {
        settlement::process_side_pot(player_group, pot)
    }

    /// Splits the pot into its side-pot layers and pays them out to the
    /// ranked groups: it succeeds exactly when every layer has a contributor
    /// in some group, the payouts then sum to exactly the chips in the pot,
    /// and each player is owed the settled amount of the layers.
    pub fn compute_payouts(&self, ranked_player_groups: &Vec<Vec<u32>>) -> (r: Result<
        Vec<(u32, u64)>,
        PokerError,
    >)
        requires
            self.game.pot.wf(),
            settlement::groups_distinct(ranked_player_groups@),
        ensures
            ({
                let layers = crate::pot::spec_side_pots(
                    crate::pot::nonzero_of(self.game.pot.pot@),
                );
                &&& (r is Ok <==> settlement::layers_have_winners(
                    ranked_player_groups@,
                    layers,
                ))
                &&& r is Ok ==> ledger_wf(r->Ok_0@) && spec_total(r->Ok_0@) == spec_total(
                    self.game.pot.pot@,
                ) && forall|p: u32| #[trigger] spec_get(r->Ok_0@, p)
                    == settlement::settled_amount(ranked_player_groups@, layers, p)
                &&& r is Ok ==> forall|p: u32| #[trigger] crate::pot::spec_contains(
                    r->Ok_0@,
                    p,
                ) ==> exists|g: int| 0 <= g < ranked_player_groups@.len()
                    && (#[trigger] ranked_player_groups@[g])@.contains(p)
                &&& r is Err ==> r->Err_0 == PokerError::NoWinnerForPot
            }),
    {
        let pots = self.game.pot.side_pots();
        let ghost layers = crate::pot::spec_side_pots(
            crate::pot::nonzero_of(self.game.pot.pot@),
        );
        proof {
            assert(settlement::pots_wf(pots@));
            assert(settlement::layers_of(pots@) =~= layers);
        }
        settlement::compute_payouts(ranked_player_groups, &pots)
    }

    /// Credits each player with their winnings and empties the pot.
    pub fn payout_players(&mut self, payouts: &Vec<(u32, u64)>)
        requires
            old(self).game.pot.wf(),
            forall|i: int| 0 <= i < old(self).game.players@.len()
                ==> (#[trigger] old(self).game.players@[i]).n_chips + spec_get(
                    payouts@,
                    old(self).game.players@[i].id,
                ) <= u64::MAX,
        ensures
            final(self).game.pot.wf(),
            final(self).game.pot.pot@.len() == 0,
            final(self).game.players@.len() == old(self).game.players@.len(),
            forall|i: int| 0 <= i < old(self).game.players@.len()
                ==> #[trigger] final(self).game.players@[i] == (Player {
                    n_chips: (old(self).game.players@[i].n_chips + spec_get(
                        payouts@,
                        old(self).game.players@[i].id,
                    )) as u64,
                    ..old(self).game.players@[i]
                }),
    {
        self.game.pot.reset();
        let n = self.game.players.len();
        let mut i: usize = 0;
        while i < n
            invariant
                i <= n,
                n == self.game.players@.len(),
                n == old(self).game.players@.len(),
                self.game.pot.wf(),
                self.game.pot.pot@.len() == 0,
                forall|k: int| 0 <= k < i
                    ==> #[trigger] self.game.players@[k] == (Player {
                        n_chips: (old(self).game.players@[k].n_chips + spec_get(
                            payouts@,
                            old(self).game.players@[k].id,
                        )) as u64,
                        ..old(self).game.players@[k]
                    }),
                forall|k: int| i <= k < n
                    ==> #[trigger] self.game.players@[k] == old(self).game.players@[k],
                forall|k: int| 0 <= k < n
                    ==> (#[trigger] old(self).game.players@[k]).n_chips + spec_get(
                        payouts@,
                        old(self).game.players@[k].id,
                    ) <= u64::MAX,
            decreases n - i,
        {
            let ghost pre = self.game.players@;
            let mut p = self.game.players.remove(i);
            let winnings = ledger_get(payouts, p.id);
            p.add_chips(winnings);
            self.game.players.insert(i, p);
            proof {
                assert(self.game.players@ =~= pre.update(
                    i as int,
                    self.game.players@[i as int],
                ));
            }
            i = i + 1;
        }
    }

    /// Ranks every active player's best hand against the board and groups
    /// them from strongest to weakest; every group is non-empty.
    #[verifier::loop_isolation(false)]
    pub fn rank_players_by_best_hand(&self) -> (r: Result<Vec<Vec<u32>>, PokerError>)
        ensures
            ({
                let ft = self.evaluator.table.flush_lookup@;
                let ut = self.evaluator.table.unsuited_lookup@;
                let comm = self.game.community_cards@;
                &&& (r is Ok <==> forall|i: int| 0 <= i < self.game.players@.len()
                    && (#[trigger] self.game.players@[i]).active
                    ==> crate::evaluator::spec_eval_ok(
                    ft,
                    ut,
                    player_hand(comm, self.game.players@[i]),
                ))
                &&& r is Ok ==> exists|ranks: Seq<u32>| is_rank_grouping(
                    active_pairs(self.game.players@, ft, ut, comm),
                    ranks,
                    r->Ok_0@,
                )
                &&& r is Err ==> (r->Err_0 == PokerError::InvalidHandSize || r->Err_0
                    == PokerError::CorruptTable)
            }),
    {
        let ghost ft = self.evaluator.table.flush_lookup@;
        let ghost ut = self.evaluator.table.unsuited_lookup@;
        let ghost comm = self.game.community_cards@;
        let mut pairs: Vec<(u32, u32)> = Vec::new();
        let mut i: usize = 0;
        while i < self.game.players.len()
            invariant
                i <= self.game.players@.len(),
                pairs@ == active_pairs(self.game.players@.take(i as int), ft, ut, comm),
                forall|k: int| 0 <= k < i && (#[trigger] self.game.players@[k]).active
                    ==> crate::evaluator::spec_eval_ok(
                    ft,
                    ut,
                    player_hand(comm, self.game.players@[k]),
                ),
            decreases self.game.players@.len() - i,
        {
            let p = &self.game.players[i];
            proof {
                assert(self.game.players@.take(i + 1).drop_last()
                    =~= self.game.players@.take(i as int));
                assert(self.game.players@.take(i + 1).last() == self.game.players@[i as int]);
            }
            if p.is_active() {
                let rank = match self.evaluator.evaluate(
                    &self.game.community_cards,
                    &p.cards,
                ) {
                    Ok(v) => v,
                    Err(e) => {
                        proof {
                            assert(!crate::evaluator::spec_eval_ok(
                                ft,
                                ut,
                                player_hand(comm, self.game.players@[i as int]),
                            ));
                        }
                        return Err(e);
                    },
                };
                pairs.push((rank, p.id));
            }
            i = i + 1;
        }
        proof {
            assert(self.game.players@.take(self.game.players@.len() as int)
                =~= self.game.players@);
        }
        let (ranks, groups) = rank_groups(&pairs);
        let result: Result<Vec<Vec<u32>>, PokerError> = Ok(groups);
        proof {
            assert(is_rank_grouping(
                active_pairs(self.game.players@, ft, ut, comm),
                ranks@,
                result->Ok_0@,
            ));
            assert(exists|rs: Seq<u32>| is_rank_grouping(
                active_pairs(self.game.players@, ft, ut, comm),
                rs,
                result->Ok_0@,
            ));
        }
        result
    }

    /// Ranks the hands, pays the pots out and credits the winners.  It
    /// succeeds exactly when every active player's hand evaluates and every
    /// side-pot layer finds a winner; on success each player's stack grows
    /// by exactly their settled amount and the pot is emptied; on failure
    /// nothing changes.
    pub fn compute_winners(&mut self) -> (r: Result<(), PokerError>)
        requires
            old(self).game.pot.wf(),
            sum_chips(old(self).game.players@) + spec_total(old(self).game.pot.pot@)
                <= u64::MAX,
            crate::game::player_ids_unique(old(self).game.players@),
        ensures
            final(self).game.players@.len() == old(self).game.players@.len(),
            r is Err ==> *final(self) == *old(self),
            r is Ok ==> final(self).game.pot.wf() && final(self).game.pot.pot@.len() == 0,
            r is Ok ==> sum_chips(final(self).game.players@) == sum_chips(
                old(self).game.players@,
            ) + spec_total(old(self).game.pot.pot@),
            ({
                let ft = old(self).evaluator.table.flush_lookup@;
                let ut = old(self).evaluator.table.unsuited_lookup@;
                let comm = old(self).game.community_cards@;
                let ap = active_pairs(old(self).game.players@, ft, ut, comm);
                let layers = crate::pot::spec_side_pots(
                    crate::pot::nonzero_of(old(self).game.pot.pot@),
                );
                &&& r is Ok ==> forall|i: int| 0 <= i < old(self).game.players@.len()
                    && (#[trigger] old(self).game.players@[i]).active
                    ==> crate::evaluator::spec_eval_ok(
                    ft,
                    ut,
                    player_hand(comm, old(self).game.players@[i]),
                )
                &&& r is Ok ==> exists|ranks: Seq<u32>, groups: Seq<Vec<u32>>|
                    #[trigger] is_rank_grouping(ap, ranks, groups)
                    && settlement::layers_have_winners(groups, layers)
                    && (forall|i: int| 0 <= i < old(self).game.players@.len()
                        ==> #[trigger] final(self).game.players@[i] == (Player {
                            n_chips: (old(self).game.players@[i].n_chips
                                + settlement::settled_amount(
                                groups,
                                layers,
                                old(self).game.players@[i].id,
                            )) as u64,
                            ..old(self).game.players@[i]
                        }))
                &&& r is Err ==> (!(forall|i: int| 0 <= i < old(self).game.players@.len()
                    && (#[trigger] old(self).game.players@[i]).active
                    ==> crate::evaluator::spec_eval_ok(
                    ft,
                    ut,
                    player_hand(comm, old(self).game.players@[i]),
                ))) || (exists|ranks: Seq<u32>, groups: Seq<Vec<u32>>|
                    #[trigger] is_rank_grouping(ap, ranks, groups)
                    && !settlement::layers_have_winners(groups, layers))
            }),
    {
        let ghost ft = self.evaluator.table.flush_lookup@;
        let ghost ut = self.evaluator.table.unsuited_lookup@;
        let ghost comm = self.game.community_cards@;
        let ghost ap = active_pairs(self.game.players@, ft, ut, comm);
        let ranked_player_groups = match self.rank_players_by_best_hand() {
            Ok(g) => g,
            Err(e) => { return Err(e); },
        };
        let ghost ranks = choose|ranks: Seq<u32>| is_rank_grouping(
            ap,
            ranks,
            ranked_player_groups@,
        );
        proof {
            assert(is_rank_grouping(ap, ranks, ranked_player_groups@));
            reveal(is_rank_grouping);
            lemma_active_pairs_ids(self.game.players@, ft, ut, comm);
            assert forall|g: int, a: int, b: int|
                #![trigger ranked_player_groups@[g]@[a], ranked_player_groups@[g]@[b]]
                0 <= g < ranked_player_groups@.len() && 0 <= a < b
                    < ranked_player_groups@[g]@.len()
                implies ranked_player_groups@[g]@[a] != ranked_player_groups@[g]@[b] by {
                assert(ranked_player_groups@[g]@ == ids_with(ap, ranks[g]));
                lemma_ids_with_distinct(ap, ranks[g]);
            }
            assert(settlement::groups_distinct(ranked_player_groups@));
        }
        let payouts = match self.compute_payouts(&ranked_player_groups) {
            Ok(p) => p,
            Err(e) => {
                proof {
                    let gl = crate::pot::spec_side_pots(
                        crate::pot::nonzero_of(self.game.pot.pot@),
                    );
                    assert(!settlement::layers_have_winners(ranked_player_groups@, gl));
                    assert(exists|rs: Seq<u32>, gs: Seq<Vec<u32>>|
                        #[trigger] is_rank_grouping(ap, rs, gs)
                        && !settlement::layers_have_winners(gs, gl)) by {
                        assert(is_rank_grouping(ap, ranks, ranked_player_groups@));
                    }
                }
                return Err(e);
            },
        };
        proof {
            assert forall|i: int| 0 <= i < self.game.players@.len()
                implies (#[trigger] self.game.players@[i]).n_chips + spec_get(
                    payouts@,
                    self.game.players@[i].id,
                ) <= u64::MAX by {
                crate::pot::lemma_get_le_total(payouts@, self.game.players@[i].id);
                lemma_chips_le_sum(self.game.players@, i);
            }
            // every payout id names a seated player, through its group and
            // the active pairs
            assert forall|k: int| 0 <= k < payouts@.len()
                implies seats_id(old(self).game.players@, (#[trigger] payouts@[k]).0) by {
                let p = payouts@[k].0;
                assert(crate::pot::spec_contains(payouts@, p));
                let g = choose|g: int| 0 <= g < ranked_player_groups@.len()
                    && (#[trigger] ranked_player_groups@[g])@.contains(p);
                assert(ranked_player_groups@[g]@ == ids_with(ap, ranks[g])) by {
                    reveal(is_rank_grouping);
                }
                let kk = choose|kk: int| 0 <= kk < ids_with(ap, ranks[g]).len()
                    && ids_with(ap, ranks[g])[kk] == p;
                lemma_ids_with_from(ap, ranks[g]);
                let j2 = choose|j2: int| 0 <= j2 < ap.len() && (#[trigger] ap[j2]).1
                    == ids_with(ap, ranks[g])[kk];
                lemma_active_pairs_ids(old(self).game.players@, ft, ut, comm);
                let j = choose|j: int| 0 <= j < old(self).game.players@.len()
                    && (#[trigger] old(self).game.players@[j]).id == ap[j2].1;
                assert(seats_id(old(self).game.players@, p)) by {
                    reveal(seats_id);
                }
            }
            lemma_sum_winnings_total(old(self).game.players@, payouts@);
        }
        let ghost pre_players = self.game.players@;
        self.payout_players(&payouts);
        proof {
            assert(is_rank_grouping(ap, ranks, ranked_player_groups@));
            assert(pre_players == old(self).game.players@);
            lemma_sum_chips_grows(old(self).game.players@, self.game.players@, payouts@);
        }
        Ok(())
    }

    /// Fresh pot, seat numbers, and the two blinds.
    pub fn round_setup(&mut self)
        requires
            old(self).game.pot.wf(),
            old(self).game.players@.len() >= 2,
            old(self).game.players@.len() <= u32::MAX,
            old(self).small_blind + old(self).big_blind <= u64::MAX,
            sum_chips(old(self).game.players@) + old(self).small_blind + old(self).big_blind
                <= u64::MAX,
        ensures
            final(self).game.pot.wf(),
            final(self).game.players@.len() == old(self).game.players@.len(),
            final(self).game.deck == old(self).game.deck,
            final(self).game.community_cards == old(self).game.community_cards,
            final(self).game.total_n_chips_on_table == old(self).game.total_n_chips_on_table,
            final(self).small_blind == old(self).small_blind,
            final(self).big_blind == old(self).big_blind,
            final(self).evaluator == old(self).evaluator,
            sum_chips(final(self).game.players@) + spec_total(final(self).game.pot.pot@)
                == sum_chips(old(self).game.players@),
            forall|i: int| 0 <= i < old(self).game.players@.len()
                ==> (#[trigger] final(self).game.players@[i]).id
                    == old(self).game.players@[i].id,
    {
        self.game.pot.reset();
        self.assign_order_to_players();
        proof {
            assert(spec_total(self.game.pot.pot@) == 0);
            assert forall|i: int| 0 <= i < self.game.players@.len()
                implies (#[trigger] self.game.players@[i]).n_chips
                    == old(self).game.players@[i].n_chips by {}
            lemma_sum_chips_pointwise(self.game.players@, old(self).game.players@);
            crate::game::lemma_sum_chips_nonneg(self.game.players@);
            lemma_chips_le_sum(self.game.players@, 0);
            lemma_chips_le_sum(self.game.players@, 1);
        }
        self.assign_blinds();
    }

    /// Moves the blinds for the next hand; rotating the seats moves no
    /// chips.
    pub fn round_cleanup(&mut self)
        requires
            old(self).game.players@.len() >= 1,
        ensures
            final(self).game.players@ == old(self).game.players@.drop_first().push(
                old(self).game.players@[0],
            ),
            sum_chips(final(self).game.players@) == sum_chips(old(self).game.players@),
            final(self).game.pot == old(self).game.pot,
    {
        self.move_blinds();
        proof {
            let s = old(self).game.players@;
            crate::game::lemma_sum_chips_drop_first(s);
            assert(s.drop_first().push(s[0]).drop_last() =~= s.drop_first());
            assert(sum_chips(s.drop_first().push(s[0])) == sum_chips(s.drop_first())
                + s[0].n_chips);
        }
    }

    /// Deals the hole cards and the three streets.  Between streets the
    /// surrounding driver collects betting actions; the decisions players
    /// make are outside the core, so nothing here moves chips.
    pub fn all_dealing_and_betting_rounds(&mut self)
        requires
            old(self).game.wf(),
            old(self).game.deck.cards_in_deck@.len() >= 2 * old(self).game.players@.len()
                + 5,
        ensures
            final(self).game.wf(),
            final(self).game.pot == old(self).game.pot,
            final(self).game.players@.len() == old(self).game.players@.len(),
            forall|i: int| 0 <= i < old(self).game.players@.len()
                ==> (#[trigger] final(self).game.players@[i]).n_chips
                    == old(self).game.players@[i].n_chips
                && final(self).game.players@[i].id == old(self).game.players@[i].id
                && final(self).game.players@[i].active == old(self).game.players@[i].active,
            final(self).game.community_cards@.len() == old(self).game.community_cards@.len()
                + 5,
            final(self).game.total_n_chips_on_table == old(self).game.total_n_chips_on_table,
            final(self).small_blind == old(self).small_blind,
            final(self).big_blind == old(self).big_blind,
            final(self).evaluator == old(self).evaluator,
    {
        self.game.deal_private_cards();
        self.game.deal_flop();
        self.game.deal_turn();
        self.game.deal_river();
    }

    /// One full hand: blinds, dealing, and settlement.  The betting itself
    /// is driven from outside the core, so this round plays out with the
    /// bets that are already in the pot; the driver that collects betting
    /// actions between streets is also the caller of
    /// `post_betting_analysis`, whose chip-book check only means something
    /// once bets have moved.  Which cards are dealt is random, so success
    /// here depends on the drawn hands; the conditions are stated exactly at
    /// `compute_winners`.
    pub fn play_one_round(&mut self) -> (r: Result<(), PokerError>)
        requires
            old(self).game.wf(),
            old(self).game.players@.len() >= 2,
            old(self).game.players@.len() <= u32::MAX,
            old(self).game.deck.cards_in_deck@.len() >= 2 * old(self).game.players@.len()
                + 5,
            old(self).small_blind + old(self).big_blind <= u64::MAX,
            sum_chips(old(self).game.players@) + old(self).small_blind + old(self).big_blind
                <= u64::MAX,
            crate::game::player_ids_unique(old(self).game.players@),
        ensures
            r is Ok ==> final(self).game.pot.pot@.len() == 0,
            r is Ok ==> sum_chips(final(self).game.players@) == sum_chips(
                old(self).game.players@,
            ),
            final(self).game.players@.len() == old(self).game.players@.len(),
    {
        let ghost sum0 = sum_chips(old(self).game.players@);
        self.round_setup();
        let ghost players_b = self.game.players@;
        let ghost pot_b = self.game.pot.pot@;
        proof {
            assert(sum_chips(players_b) + spec_total(pot_b) <= u64::MAX);
        }

        self.all_dealing_and_betting_rounds();

        // settlement
        proof {
            assert(self.game.pot.pot@ == pot_b);
            assert forall|i: int| 0 <= i < self.game.players@.len()
                implies (#[trigger] self.game.players@[i]).n_chips
                    == players_b[i].n_chips by {}
            lemma_sum_chips_pointwise(self.game.players@, players_b);
            assert forall|i: int, j: int| 0 <= i < j < self.game.players@.len()
                implies (#[trigger] self.game.players@[i]).id
                    != (#[trigger] self.game.players@[j]).id by {
                assert(self.game.players@[i].id == players_b[i].id);
                assert(self.game.players@[j].id == players_b[j].id);
                assert(players_b[i].id == old(self).game.players@[i].id);
                assert(players_b[j].id == old(self).game.players@[j].id);
            }
        }
        match self.compute_winners() {
            Ok(()) => {},
            Err(e) => { return Err(e); },
        }
        self.round_cleanup();
        Ok(())
    }
}

/// Sum over the seats of what a payout ledger owes each player.
pub open spec fn sum_winnings(players: Seq<Player>, payouts: Seq<(u32, u64)>) -> int
    decreases players.len(),
{
    if players.len() == 0 {
        0
    } else {
        sum_winnings(players.drop_last(), payouts) + spec_get(payouts, players.last().id)
    }
}

/// Equal lookups seat by seat give equal winnings sums.
proof fn lemma_sum_winnings_congruent(
    players: Seq<Player>,
    l1: Seq<(u32, u64)>,
    l2: Seq<(u32, u64)>,
)
    requires
        forall|i: int| 0 <= i < players.len() ==> spec_get(
            l1,
            (#[trigger] players[i]).id,
        ) == spec_get(l2, players[i].id),
    ensures
        sum_winnings(players, l1) == sum_winnings(players, l2),
    decreases players.len(),
{
    if players.len() > 0 {
        assert(forall|i: int| 0 <= i < players.drop_last().len() ==> spec_get(
            l1,
            (#[trigger] players.drop_last()[i]).id,
        ) == spec_get(l2, players.drop_last()[i].id));
        lemma_sum_winnings_congruent(players.drop_last(), l1, l2);
    }
}

/// Some seat carries this id.
#[verifier::opaque]
pub open spec fn seats_id(players: Seq<Player>, p: u32) -> bool {
    exists|j: int| 0 <= j < players.len() && (#[trigger] players[j]).id == p
}

/// A fresh ledger entry adds its amount to the winnings sum exactly once
/// when exactly one seat carries its id.
proof fn lemma_sum_winnings_snoc(players: Seq<Player>, l: Seq<(u32, u64)>, e: (u32, u64))
    requires
        crate::game::player_ids_unique(players),
        forall|k: int| 0 <= k < l.len() ==> (#[trigger] l[k]).0 != e.0,
        seats_id(players, e.0),
    ensures
        sum_winnings(players, l.push(e)) == sum_winnings(players, l) + e.1,
    decreases players.len(),
{
    reveal(seats_id);
    crate::pot::lemma_get_snoc(l, e, e.0);
    assert(!crate::pot::spec_contains(l, e.0));
    crate::pot::lemma_get_absent(l, e.0);
    let dl = players.drop_last();
    assert(forall|i: int, j: int| 0 <= i < j < dl.len()
        ==> (#[trigger] dl[i]).id != (#[trigger] dl[j]).id);
    if players.last().id == e.0 {
        assert forall|i: int| 0 <= i < dl.len() implies spec_get(
            l.push(e),
            (#[trigger] dl[i]).id,
        ) == spec_get(l, dl[i].id) by {
            assert(dl[i] == players[i] && players[players.len() - 1] == players.last());
            assert(dl[i].id != e.0);
            crate::pot::lemma_get_snoc(l, e, dl[i].id);
            if crate::pot::spec_contains(l, dl[i].id) {
            } else {
                crate::pot::lemma_get_absent(l, dl[i].id);
            }
        }
        lemma_sum_winnings_congruent(dl, l.push(e), l);
    } else {
        let j = choose|j: int| 0 <= j < players.len() && (#[trigger] players[j]).id == e.0;
        assert(j < players.len() - 1);
        assert(dl[j].id == e.0);
        assert(seats_id(dl, e.0));
        lemma_sum_winnings_snoc(dl, l, e);
        crate::pot::lemma_get_snoc(l, e, players.last().id);
        if crate::pot::spec_contains(l, players.last().id) {
        } else {
            crate::pot::lemma_get_absent(l, players.last().id);
        }
    }
}

/// Every ledger id names a seated player.
pub open spec fn all_ids_seated(players: Seq<Player>, l: Seq<(u32, u64)>) -> bool {
    forall|k: int| 0 <= k < l.len() ==> seats_id(players, (#[trigger] l[k]).0)
}

/// When every payout id names a seated player and seats are distinct, the
/// winnings sum is exactly the ledger total: no chip is lost or invented.
proof fn lemma_sum_winnings_total(players: Seq<Player>, l: Seq<(u32, u64)>)
    requires
        crate::game::player_ids_unique(players),
        ledger_wf(l),
        all_ids_seated(players, l),
    ensures
        sum_winnings(players, l) == spec_total(l),
    decreases l.len(),
{
    if l.len() == 0 {
        lemma_sum_winnings_zero(players, l);
    } else {
        let dl = l.drop_last();
        assert(forall|x: int, y: int| 0 <= x < y < dl.len()
            ==> (#[trigger] dl[x]).0 != (#[trigger] dl[y]).0);
        assert forall|k: int| 0 <= k < dl.len()
            implies seats_id(players, (#[trigger] dl[k]).0) by {
            assert(dl[k] == l[k]);
            assert(seats_id(players, l[k].0));
        }
        lemma_sum_winnings_total(players, dl);
        assert(l =~= dl.push(l.last()));
        assert forall|k: int| 0 <= k < dl.len()
            implies (#[trigger] dl[k]).0 != l.last().0 by {
            assert(dl[k] == l[k] && l[l.len() - 1] == l.last());
        }
        assert(seats_id(players, l.last().0)) by {
            assert(l[l.len() - 1] == l.last());
            assert(seats_id(players, l[l.len() - 1].0));
        }
        lemma_sum_winnings_snoc(players, dl, l.last());
    }
}

proof fn lemma_sum_winnings_zero(players: Seq<Player>, l: Seq<(u32, u64)>)
    requires
        l.len() == 0,
    ensures
        sum_winnings(players, l) == 0,
    decreases players.len(),
{
    if players.len() > 0 {
        lemma_sum_winnings_zero(players.drop_last(), l);
    }
}

/// Seat-by-seat growth sums to the winnings sum.
proof fn lemma_sum_chips_grows(
    old_players: Seq<Player>,
    new_players: Seq<Player>,
    l: Seq<(u32, u64)>,
)
    requires
        old_players.len() == new_players.len(),
        forall|i: int| 0 <= i < old_players.len()
            ==> (#[trigger] new_players[i]).n_chips == (#[trigger] old_players[i]).n_chips
                + spec_get(l, old_players[i].id),
    ensures
        sum_chips(new_players) == sum_chips(old_players) + sum_winnings(old_players, l),
    decreases old_players.len(),
{
    if old_players.len() > 0 {
        assert(forall|i: int| 0 <= i < old_players.drop_last().len()
            ==> (#[trigger] new_players.drop_last()[i]).n_chips
                == (#[trigger] old_players.drop_last()[i]).n_chips
                + spec_get(l, old_players.drop_last()[i].id));
        lemma_sum_chips_grows(old_players.drop_last(), new_players.drop_last(), l);
        assert(new_players[new_players.len() - 1] == new_players.last());
        assert(old_players[old_players.len() - 1] == old_players.last());
    }
}

/// Stacks equal pointwise give equal sums.
pub proof fn lemma_sum_chips_pointwise(a: Seq<Player>, b: Seq<Player>)
    requires
        a.len() == b.len(),
        forall|i: int| 0 <= i < a.len() ==> (#[trigger] a[i]).n_chips == b[i].n_chips,
    ensures
        sum_chips(a) == sum_chips(b),
    decreases a.len(),
{
    if a.len() > 0 {
        assert(forall|i: int| 0 <= i < a.drop_last().len()
            ==> (#[trigger] a.drop_last()[i]).n_chips == b.drop_last()[i].n_chips);
        lemma_sum_chips_pointwise(a.drop_last(), b.drop_last());
    }
}

/// A player's stack never exceeds the sum of all stacks.
pub proof fn lemma_chips_le_sum(s: Seq<Player>, i: int)
    requires
        0 <= i < s.len(),
    ensures
        s[i].n_chips <= sum_chips(s),
    decreases s.len(),
{
    crate::game::lemma_sum_chips_nonneg(s.drop_last());
    if i < s.len() - 1 {
        lemma_chips_le_sum(s.drop_last(), i);
    }
}

/// Players still in the hand.
pub open spec fn count_active(s: Seq<Player>) -> int
    decreases s.len(),
{
    if s.len() == 0 {
        0
    } else {
        count_active(s.drop_last()) + if s.last().active { 1int } else { 0int }
    }
}

/// Players in the hand with chips behind.
pub open spec fn count_with_moves(s: Seq<Player>) -> int
    decreases s.len(),
{
    if s.len() == 0 {
        0
    } else {
        count_with_moves(s.drop_last()) + if s.last().active && s.last().n_chips > 0 {
            1int
        } else {
            0int
        }
    }
}

/// Players in the hand with empty stacks.
pub open spec fn count_all_in(s: Seq<Player>) -> int
    decreases s.len(),
{
    if s.len() == 0 {
        0
    } else {
        count_all_in(s.drop_last()) + if s.last().active && s.last().n_chips == 0 {
            1int
        } else {
            0int
        }
    }
}

/// In the hand with chips behind.
pub open spec fn can_bet(p: Player) -> bool {
    p.active && p.n_chips > 0
}

} // verus!
