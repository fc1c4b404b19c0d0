//! The round-robin engine: every unordered pair of a population battles
//! exactly once, and each strategy accumulates a win/tie/loss record.

use vstd::prelude::*;
use vstd::multiset::Multiset;
use crate::scoring::{battle, battle_points, BattleScore};

verus! {

/// Strategy `a` strictly outscores strategy `b` in a direct battle.
pub open spec fn beats(a: [i16; 10], b: [i16; 10]) -> bool {
    battle_points(a@, b@) > battle_points(b@, a@)
}

/// The direct battle of `a` and `b` ends with equal scores.
pub open spec fn ties_with(a: [i16; 10], b: [i16; 10]) -> bool {
    battle_points(a@, b@) == battle_points(b@, a@)
}

/// How many of the first `m` strategies of `p` (other than `k` itself)
/// strategy `k` beats.
pub open spec fn wins_among(p: Seq<[i16; 10]>, k: int, m: int) -> int
    decreases m,
{
    if m <= 0 {
        0
    } else {
        wins_among(p, k, m - 1) + if m - 1 != k && beats(p[k], p[m - 1]) {
            1int
        } else {
            0int
        }
    }
}

/// How many of the first `m` strategies of `p` (other than `k` itself)
/// strategy `k` ties with.
pub open spec fn ties_among(p: Seq<[i16; 10]>, k: int, m: int) -> int
    decreases m,
{
    if m <= 0 {
        0
    } else {
        ties_among(p, k, m - 1) + if m - 1 != k && ties_with(p[k], p[m - 1]) {
            1int
        } else {
            0int
        }
    }
}

/// How many of the first `m` strategies of `p` (other than `k` itself)
/// beat strategy `k`.
pub open spec fn losses_among(p: Seq<[i16; 10]>, k: int, m: int) -> int
    decreases m,
{
    if m <= 0 {
        0
    } else {
        losses_among(p, k, m - 1) + if m - 1 != k && beats(p[m - 1], p[k]) {
            1int
        } else {
            0int
        }
    }
}

/// Strategy `k`'s full win count over the whole population.
pub open spec fn wins_of(p: Seq<[i16; 10]>, k: int) -> int {
    wins_among(p, k, p.len() as int)
}

/// Strategy `k`'s full tie count over the whole population.
pub open spec fn ties_of(p: Seq<[i16; 10]>, k: int) -> int {
    ties_among(p, k, p.len() as int)
}

/// Strategy `k`'s full loss count over the whole population.
pub open spec fn losses_of(p: Seq<[i16; 10]>, k: int) -> int {
    losses_among(p, k, p.len() as int)
}

/// `bs` is exactly strategy `k`'s record over the whole population `p`.
pub open spec fn is_record_of(bs: BattleScore, p: Seq<[i16; 10]>, k: int) -> bool {
    &&& bs.wins == wins_of(p, k)
    &&& bs.ties == ties_of(p, k)
    &&& bs.losses == losses_of(p, k)
}

/// Entry `k` of `r` tallies the battles of strategy `k` against the first
/// `m` strategies of `p`.
pub open spec fn tallied(r: Seq<BattleScore>, p: Seq<[i16; 10]>, k: int, m: int) -> bool {
    &&& r[k].wins == wins_among(p, k, m)
    &&& r[k].ties == ties_among(p, k, m)
    &&& r[k].losses == losses_among(p, k, m)
}

/// No partial count is negative or larger than the number of opponents seen.
pub proof fn lemma_counts_bounded(p: Seq<[i16; 10]>, k: int, m: int)
    requires
        m >= 0,
    ensures
        0 <= wins_among(p, k, m) <= m,
        0 <= ties_among(p, k, m) <= m,
        0 <= losses_among(p, k, m) <= m,
    decreases m,
{
    if m > 0 {
        lemma_counts_bounded(p, k, m - 1);
    }
}

/// Runs a battle for every unordered pair of `players` and returns the
/// record of each entry, aligned with the population's indices.
fn tally_battles(players: &Vec<[i16; 10]>) -> (r: Vec<BattleScore>)
    requires
        players@.len() < 0x1_0000_0000,
    ensures
        r@.len() == players@.len(),
        forall|k: int|
            #![trigger r@[k]]
            0 <= k < players@.len() ==> tallied(r@, players@, k, players@.len() as int),
{
    let n: usize = players.len();
    let mut results: Vec<BattleScore> = Vec::with_capacity(n);
    for idx in 0..n
        invariant
            results@.len() == idx,
            forall|k: int| #![trigger results@[k]] 0 <= k < idx ==> tallied(results@, players@, k, 0),
    {
        results.push(BattleScore::new());
    }

    for i in 0..n
        invariant
            players@.len() == n,
            n < 0x1_0000_0000,
            results@.len() == n,
            forall|k: int|
                #![trigger results@[k]]
                0 <= k < i ==> tallied(results@, players@, k, n as int),
            forall|k: int|
                #![trigger results@[k]]
                i <= k < n ==> tallied(results@, players@, k, i as int),
    {
        let mut j: usize = i + 1;
        while j < n
            invariant
                players@.len() == n,
                n < 0x1_0000_0000,
                results@.len() == n,
                i < j <= n,
                i < n,
                forall|k: int|
                    #![trigger results@[k]]
                    0 <= k < i ==> tallied(results@, players@, k, n as int),
                tallied(results@, players@, i as int, j as int),
                forall|k: int|
                    #![trigger results@[k]]
                    i < k < j ==> tallied(results@, players@, k, i as int + 1),
                forall|k: int|
                    #![trigger results@[k]]
                    j <= k < n ==> tallied(results@, players@, k, i as int),
            decreases n - j,
        {
            proof {
                lemma_counts_bounded(players@, i as int, j as int);
                lemma_counts_bounded(players@, j as int, i as int);
            }
            let (p1_score, p2_score) = battle(players[i], players[j]);
            if p1_score > p2_score {
                let bi = results[i];
                results[i] = BattleScore { wins: bi.wins + 1, ties: bi.ties, losses: bi.losses };
                let bj = results[j];
                results[j] = BattleScore { wins: bj.wins, ties: bj.ties, losses: bj.losses + 1 };
            } else if p2_score > p1_score {
                let bj = results[j];
                results[j] = BattleScore { wins: bj.wins + 1, ties: bj.ties, losses: bj.losses };
                let bi = results[i];
                results[i] = BattleScore { wins: bi.wins, ties: bi.ties, losses: bi.losses + 1 };
            } else {
                let bi = results[i];
                results[i] = BattleScore { wins: bi.wins, ties: bi.ties + 1, losses: bi.losses };
                let bj = results[j];
                results[j] = BattleScore { wins: bj.wins, ties: bj.ties + 1, losses: bj.losses };
            }
            j = j + 1;
        }
    }
    results
}

/// Runs every one-on-one battle of a duplicate-free, non-empty population
/// and pairs each strategy with its record. The output keeps the
/// population's order; callers sort as they see fit. An empty population
/// is a caller error, refused at the call site.
pub fn run_battles_set(players: &Vec<[i16; 10]>) -> (r: Vec<([i16; 10], BattleScore)>)
    requires
        1 <= players@.len() < 0x1_0000_0000,
        forall|i: int, j: int|
            0 <= i < j < players@.len() ==> players@[i] != players@[j],
    ensures
        r@.len() == players@.len(),
        forall|k: int|
            #![trigger r@[k]]
            0 <= k < players@.len() ==> r@[k].0 == players@[k] && is_record_of(
                r@[k].1,
                players@,
                k,
            ),
{
    let scores = tally_battles(players);
    let mut paired: Vec<([i16; 10], BattleScore)> = Vec::with_capacity(players.len());
    for k in 0..players.len()
        invariant
            scores@.len() == players@.len(),
            players@.len() < 0x1_0000_0000,
            forall|q: int|
                #![trigger scores@[q]]
                0 <= q < players@.len() ==> tallied(scores@, players@, q, players@.len() as int),
            paired@.len() == k,
            forall|q: int|
                #![trigger paired@[q]]
                0 <= q < k ==> paired@[q].0 == players@[q] && is_record_of(
                    paired@[q].1,
                    players@,
                    q,
                ),
    {
        paired.push((players[k], scores[k]));
    }
    paired
}

/// The win counts of the first `t` strategies, each counted against the
/// first `m` strategies, summed.
pub open spec fn sum_wins(p: Seq<[i16; 10]>, t: int, m: int) -> int
    decreases t,
{
    if t <= 0 {
        0
    } else {
        sum_wins(p, t - 1, m) + wins_among(p, t - 1, m)
    }
}

/// The tie counts of the first `t` strategies, each counted against the
/// first `m` strategies, summed.
pub open spec fn sum_ties(p: Seq<[i16; 10]>, t: int, m: int) -> int
    decreases t,
{
    if t <= 0 {
        0
    } else {
        sum_ties(p, t - 1, m) + ties_among(p, t - 1, m)
    }
}

/// The loss counts of the first `t` strategies, each counted against the
/// first `m` strategies, summed.
pub open spec fn sum_losses(p: Seq<[i16; 10]>, t: int, m: int) -> int
    decreases t,
{
    if t <= 0 {
        0
    } else {
        sum_losses(p, t - 1, m) + losses_among(p, t - 1, m)
    }
}

/// All wins of one full round-robin over `p`, summed over the population.
pub open spec fn total_wins(p: Seq<[i16; 10]>) -> int {
    sum_wins(p, p.len() as int, p.len() as int)
}

/// All ties of one full round-robin over `p`, summed over the population.
pub open spec fn total_ties(p: Seq<[i16; 10]>) -> int {
    sum_ties(p, p.len() as int, p.len() as int)
}

/// All losses of one full round-robin over `p`, summed over the population.
pub open spec fn total_losses(p: Seq<[i16; 10]>) -> int {
    sum_losses(p, p.len() as int, p.len() as int)
}

/// Each opponent leaves exactly one mark on a strategy's record: a win, a
/// tie, or a loss.
pub proof fn lemma_counts_partition(p: Seq<[i16; 10]>, k: int, m: int)
    requires
        m >= 0,
    ensures
        wins_among(p, k, m) + ties_among(p, k, m) + losses_among(p, k, m) == m - if 0 <= k < m {
            1int
        } else {
            0int
        },
    decreases m,
{
    if m > 0 {
        lemma_counts_partition(p, k, m - 1);
    }
}

/// Summing the per-strategy partition over the first `t` strategies.
proof fn lemma_sum_partition(p: Seq<[i16; 10]>, t: int, n: int)
    requires
        0 <= t <= n,
    ensures
        sum_wins(p, t, n) + sum_ties(p, t, n) + sum_losses(p, t, n) == t * (n - 1),
    decreases t,
{
    if t > 0 {
        lemma_sum_partition(p, t - 1, n);
        lemma_counts_partition(p, t - 1, n);
        assert((t - 1) * (n - 1) + (n - 1) == t * (n - 1)) by (nonlinear_arith);
    } else {
        assert(t * (n - 1) == 0) by (nonlinear_arith)
            requires t == 0;
    }
}

/// Widening every record from `m` to `m + 1` opponents adds, over the
/// first `t` strategies, exactly the battles lost by strategy `m` to them.
proof fn lemma_sum_cross_wins(p: Seq<[i16; 10]>, t: int, m: int)
    requires
        0 <= t <= m,
    ensures
        sum_wins(p, t, m + 1) == sum_wins(p, t, m) + losses_among(p, m, t),
    decreases t,
{
    if t > 0 {
        lemma_sum_cross_wins(p, t - 1, m);
    }
}

/// Widening every record from `m` to `m + 1` opponents adds, over the
/// first `t` strategies, exactly the battles won by strategy `m` against them.
proof fn lemma_sum_cross_losses(p: Seq<[i16; 10]>, t: int, m: int)
    requires
        0 <= t <= m,
    ensures
        sum_losses(p, t, m + 1) == sum_losses(p, t, m) + wins_among(p, m, t),
    decreases t,
{
    if t > 0 {
        lemma_sum_cross_losses(p, t - 1, m);
    }
}

/// Over the triangle of the first `t` strategies, every win is someone
/// else's loss.
proof fn lemma_wins_balance(p: Seq<[i16; 10]>, t: int)
    requires
        t >= 0,
    ensures
        sum_wins(p, t, t) == sum_losses(p, t, t),
    decreases t,
{
    if t > 0 {
        lemma_wins_balance(p, t - 1);
        lemma_sum_cross_wins(p, t - 1, t - 1);
        lemma_sum_cross_losses(p, t - 1, t - 1);
    }
}

/// Law: summed over a whole round-robin, the wins equal the losses, and
/// wins, ties and losses together count every ordered pair exactly once:
/// `n * (n - 1)` marks for a population of `n`.
pub proof fn lemma_round_robin_conservation(p: Seq<[i16; 10]>)
    ensures
        total_wins(p) == total_losses(p),
        total_wins(p) + total_ties(p) + total_losses(p) == p.len() * (p.len() - 1),
{
    lemma_wins_balance(p, p.len() as int);
    lemma_sum_partition(p, p.len() as int, p.len() as int);
}

/// Every strategy of `p`, paired with its full round-robin record, in the
/// population's own order.
pub open spec fn scored_pairs(p: Seq<[i16; 10]>) -> Seq<([i16; 10], BattleScore)> {
    Seq::new(
        p.len(),
        |k: int|
            (
                p[k],
                BattleScore {
                    wins: wins_of(p, k) as u32,
                    ties: ties_of(p, k) as u32,
                    losses: losses_of(p, k) as u32,
                },
            ),
    )
}

/// Places `x` directly before the longest suffix of `s` whose entries all
/// have strictly more wins: the stable insertion step of a sort by wins.
pub open spec fn insert_by_wins(
    s: Seq<([i16; 10], BattleScore)>,
    x: ([i16; 10], BattleScore),
) -> Seq<([i16; 10], BattleScore)>
    decreases s.len(),
{
    if s.len() == 0 {
        seq![x]
    } else if x.1.wins < s.last().1.wins {
        insert_by_wins(s.drop_last(), x).push(s.last())
    } else {
        s.push(x)
    }
}

/// The stable sort of `s` by ascending win count: entries with equal wins
/// keep their original order.
pub open spec fn sort_by_wins(s: Seq<([i16; 10], BattleScore)>) -> Seq<([i16; 10], BattleScore)>
    decreases s.len(),
{
    if s.len() == 0 {
        s
    } else {
        insert_by_wins(sort_by_wins(s.drop_last()), s.last())
    }
}

/// Win counts never decrease from left to right.
pub open spec fn sorted_by_wins(s: Seq<([i16; 10], BattleScore)>) -> bool {
    forall|a: int, b: int| 0 <= a <= b < s.len() ==> (#[trigger] s[a]).1.wins <= (#[trigger] s[b]).1.wins
}

/// Inserting into a sorted sequence keeps it sorted and only adds the new
/// entry to its contents.
pub proof fn lemma_insert_by_wins_sorted(s: Seq<([i16; 10], BattleScore)>, x: ([i16; 10], BattleScore))
    requires
        sorted_by_wins(s),
    ensures
        sorted_by_wins(insert_by_wins(s, x)),
        insert_by_wins(s, x).to_multiset() == s.to_multiset().insert(x),
        insert_by_wins(s, x).len() == s.len() + 1,
    decreases s.len(),
{
    broadcast use vstd::seq_lib::group_to_multiset_ensures;

    if s.len() == 0 {
        assert(seq![x] =~= Seq::<([i16; 10], BattleScore)>::empty().push(x));
        assert(Seq::<([i16; 10], BattleScore)>::empty().to_multiset() =~= Multiset::empty());
    } else if x.1.wins < s.last().1.wins {
        lemma_insert_by_wins_sorted(s.drop_last(), x);
        let t = insert_by_wins(s.drop_last(), x);
        assert forall|a: int, b: int|
            0 <= a <= b < t.push(s.last()).len() implies (#[trigger] t.push(s.last())[a]).1.wins
            <= (#[trigger] t.push(s.last())[b]).1.wins by {
            if b < t.len() {
            } else {
                if a < t.len() {
                    assert(t[a].1.wins <= x.1.wins || exists|c: int|
                        0 <= c < s.len() - 1 && t[a].1.wins <= (#[trigger] s[c]).1.wins) by {
                        lemma_insert_by_wins_contents(s.drop_last(), x, a);
                    }
                }
            }
        }
        assert(s.drop_last().push(s.last()) =~= s);
    } else {
        assert forall|a: int, b: int|
            0 <= a <= b < s.push(x).len() implies (#[trigger] s.push(x)[a]).1.wins
            <= (#[trigger] s.push(x)[b]).1.wins by {
            if b == s.len() && a < s.len() {
                assert(s[a].1.wins <= s[s.len() - 1].1.wins);
            }
        }
    }
}

/// Every entry of an insertion's result is the inserted value or one of
/// the original entries.
pub proof fn lemma_insert_by_wins_contents(
    s: Seq<([i16; 10], BattleScore)>,
    x: ([i16; 10], BattleScore),
    a: int,
)
    requires
        0 <= a < insert_by_wins(s, x).len(),
    ensures
        insert_by_wins(s, x)[a] == x || exists|c: int|
            0 <= c < s.len() && insert_by_wins(s, x)[a] == (#[trigger] s[c]),
    decreases s.len(),
{
    if s.len() == 0 {
    } else if x.1.wins < s.last().1.wins {
        let t = insert_by_wins(s.drop_last(), x);
        if a < t.len() {
            lemma_insert_by_wins_contents(s.drop_last(), x, a);
            if t[a] != x {
                let c = choose|c: int| 0 <= c < s.len() - 1 && t[a] == (#[trigger] s.drop_last()[c]);
                assert(insert_by_wins(s, x)[a] == s[c]);
            }
        } else {
            assert(insert_by_wins(s, x)[a] == s[s.len() - 1]);
        }
    } else {
        if a < s.len() {
            assert(insert_by_wins(s, x)[a] == s[a]);
        }
    }
}

/// Law: sorting by wins yields a sorted sequence with exactly the original
/// entries, each kept the same number of times.
pub proof fn lemma_sort_by_wins_permutes(s: Seq<([i16; 10], BattleScore)>)
    ensures
        sorted_by_wins(sort_by_wins(s)),
        sort_by_wins(s).to_multiset() == s.to_multiset(),
        sort_by_wins(s).len() == s.len(),
    decreases s.len(),
{
    broadcast use vstd::seq_lib::group_to_multiset_ensures;

    if s.len() > 0 {
        lemma_sort_by_wins_permutes(s.drop_last());
        lemma_insert_by_wins_sorted(sort_by_wins(s.drop_last()), s.last());
        assert(s.drop_last().push(s.last()) =~= s);
        assert(s.drop_last().to_multiset().insert(s.last()) =~= s.to_multiset());
    }
}

/// Splitting a sorted sequence at a position where the left neighbour does
/// not out-win `x` and the whole suffix does: that is exactly where the
/// stable insertion puts `x`.
proof fn lemma_insert_by_wins_at(
    s: Seq<([i16; 10], BattleScore)>,
    x: ([i16; 10], BattleScore),
    pos: int,
)
    requires
        0 <= pos <= s.len(),
        forall|b: int| pos <= b < s.len() ==> (#[trigger] s[b]).1.wins > x.1.wins,
        pos > 0 ==> s[pos - 1].1.wins <= x.1.wins,
    ensures
        insert_by_wins(s, x) == s.insert(pos, x),
    decreases s.len(),
{
    if s.len() == 0 {
        assert(seq![x] =~= s.insert(0, x));
    } else if x.1.wins < s.last().1.wins {
        assert(pos < s.len());
        lemma_insert_by_wins_at(s.drop_last(), x, pos);
        assert(s.drop_last().insert(pos, x).push(s.last()) =~= s.insert(pos, x));
    } else {
        assert(pos == s.len());
        assert(s.push(x) =~= s.insert(pos, x));
    }
}

/// Runs every one-on-one battle over a non-empty population and returns
/// it sorted by ascending win count (stable: equal win counts keep the
/// input order), truncated to the first `num_to_return` entries if that
/// is asked for. The winner therefore stands at the highest returned
/// index. An empty population is a caller error, refused at the call
/// site.
pub fn run_battles_slice(players: &Vec<[i16; 10]>, num_to_return: Option<usize>) -> (r: Vec<
    ([i16; 10], BattleScore),
>)
    requires
        1 <= players@.len() < 0x1_0000_0000,
    ensures
        r@ == match num_to_return {
            Some(m) => sort_by_wins(scored_pairs(players@)).take(
                if m <= players@.len() {
                    m as int
                } else {
                    players@.len() as int
                },
            ),
            None => sort_by_wins(scored_pairs(players@)),
        },
{
    let n: usize = players.len();
    let scores = tally_battles(players);
    let mut ranked: Vec<([i16; 10], BattleScore)> = Vec::with_capacity(n);
    for idx in 0..n
        invariant
            players@.len() == n,
            n < 0x1_0000_0000,
            scores@.len() == n,
            forall|k: int|
                #![trigger scores@[k]]
                0 <= k < n ==> tallied(scores@, players@, k, n as int),
            ranked@ == sort_by_wins(scored_pairs(players@).take(idx as int)),
            sorted_by_wins(ranked@),
            ranked@.len() == idx,
    {
        let x: ([i16; 10], BattleScore) = (players[idx], scores[idx]);
        proof {
            lemma_counts_bounded(players@, idx as int, n as int);
            assert(x == scored_pairs(players@)[idx as int]);
        }
        let mut pos: usize = ranked.len();
        while pos > 0 && ranked[pos - 1].1.wins > x.1.wins
            invariant
                pos <= ranked@.len(),
                ranked@.len() == idx,
                forall|b: int| pos <= b < ranked@.len() ==> (#[trigger] ranked@[b]).1.wins > x.1.wins,
            decreases pos,
        {
            pos = pos - 1;
        }
        proof {
            lemma_insert_by_wins_at(ranked@, x, pos as int);
            lemma_insert_by_wins_sorted(ranked@, x);
            assert(scored_pairs(players@).take(idx as int + 1).drop_last() =~= scored_pairs(
                players@,
            ).take(idx as int));
            assert(scored_pairs(players@).take(idx as int + 1).last() == x);
        }
        ranked.insert(pos, x);
    }
    proof {
        assert(scored_pairs(players@).take(n as int) =~= scored_pairs(players@));
    }
    match num_to_return {
        Some(m) => {
            let keep: usize = if m <= n {
                m
            } else {
                n
            };
            ranked.truncate(keep);
            ranked
        },
        None => ranked,
    }
}

} // verus!
