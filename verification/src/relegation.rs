//! The relegation tournament: each round the whole surviving population
//! plays a full round-robin and the entrant with the fewest victory points
//! (two per win, one per tie) is dropped, worst first, until a direct
//! final settles the last pair. The result lists the population from the
//! first strategy relegated to the overall winner.

use vstd::prelude::*;
use vstd::multiset::Multiset;
use vstd::seq_lib::lemma_multiset_commutative;
use vstd::seq_lib::lemma_seq_contains_after_push;
use crate::scoring::{battle, BattleScore};
use crate::round_robin::{beats, is_record_of, run_battles_set, ties_of, wins_of};

verus! {

/// No strategy occurs twice.
pub open spec fn distinct_seq(s: Seq<[i16; 10]>) -> bool {
    forall|i: int, j: int| 0 <= i < j < s.len() ==> s[i] != s[j]
}

/// The first occurrence of every distinct strategy of `s`, in order: the
/// set semantics that merges identical allocations into one entrant.
pub open spec fn dedup_seq(s: Seq<[i16; 10]>) -> Seq<[i16; 10]>
    decreases s.len(),
{
    if s.len() == 0 {
        s
    } else {
        let prefix = dedup_seq(s.drop_last());
        if prefix.contains(s.last()) {
            prefix
        } else {
            prefix.push(s.last())
        }
    }
}

/// Deduplication keeps exactly the distinct strategies, each once, and
/// never grows the population.
pub proof fn lemma_dedup_properties(s: Seq<[i16; 10]>)
    ensures
        distinct_seq(dedup_seq(s)),
        forall|x: [i16; 10]| #[trigger] dedup_seq(s).contains(x) <==> s.contains(x),
        dedup_seq(s).len() <= s.len(),
    decreases s.len(),
{
    broadcast use lemma_seq_contains_after_push;

    if s.len() > 0 {
        lemma_dedup_properties(s.drop_last());
        let prefix = dedup_seq(s.drop_last());
        assert forall|x: [i16; 10]| #[trigger] dedup_seq(s).contains(x) <==> s.contains(x) by {
            assert(s.drop_last().push(s.last()) =~= s);
            assert(s.contains(x) <==> s.drop_last().contains(x) || x == s.last());
        }
        if !prefix.contains(s.last()) {
            assert forall|i: int, j: int|
                0 <= i < j < dedup_seq(s).len() implies dedup_seq(s)[i] != dedup_seq(s)[j] by {
                if j < prefix.len() {
                } else {
                    assert(dedup_seq(s)[i] == prefix[i]);
                    assert(prefix.contains(prefix[i]));
                }
            }
        }
    }
}

/// Strategy `k`'s victory points over population `p`: two per win and one
/// per tie, so that a tie is worth half a win without any fractions.
pub open spec fn victory_points(p: Seq<[i16; 10]>, k: int) -> int {
    2 * wins_of(p, k) + ties_of(p, k)
}

/// The position of the first entrant with the fewest victory points among
/// the first `m` of `p`.
pub open spec fn weakest_upto(p: Seq<[i16; 10]>, m: int) -> int
    decreases m,
{
    if m <= 1 {
        0
    } else {
        let prev = weakest_upto(p, m - 1);
        if victory_points(p, m - 1) < victory_points(p, prev) {
            m - 1
        } else {
            prev
        }
    }
}

/// The position of the first entrant with the fewest victory points among
/// the first `m` of `p`, leaving position `ex` out of consideration.
pub open spec fn weakest_upto_except(p: Seq<[i16; 10]>, m: int, ex: int) -> int
    decreases m,
{
    let base: int = if ex == 0 {
        1
    } else {
        0
    };
    if m <= base + 1 {
        base
    } else {
        let prev = weakest_upto_except(p, m - 1, ex);
        if m - 1 != ex && victory_points(p, m - 1) < victory_points(p, prev) {
            m - 1
        } else {
            prev
        }
    }
}

/// The weakest position is in range, has minimal victory points, and is
/// the earliest position achieving that minimum.
pub proof fn lemma_weakest_upto_props(p: Seq<[i16; 10]>, m: int)
    requires
        m >= 1,
    ensures
        0 <= weakest_upto(p, m) < m,
        forall|j: int|
            0 <= j < m ==> victory_points(p, weakest_upto(p, m)) <= #[trigger] victory_points(p, j),
        forall|j: int|
            0 <= j < weakest_upto(p, m) ==> #[trigger] victory_points(p, j) > victory_points(
                p,
                weakest_upto(p, m),
            ),
    decreases m,
{
    if m > 1 {
        lemma_weakest_upto_props(p, m - 1);
    }
}

/// Same facts for the runner-up search that skips position `ex`.
pub proof fn lemma_weakest_except_props(p: Seq<[i16; 10]>, m: int, ex: int)
    requires
        0 <= ex,
        m >= if ex == 0 {
            2int
        } else {
            1int
        },
    ensures
        0 <= weakest_upto_except(p, m, ex) < m,
        weakest_upto_except(p, m, ex) != ex,
        forall|j: int|
            0 <= j < m && j != ex ==> victory_points(p, weakest_upto_except(p, m, ex))
                <= #[trigger] victory_points(p, j),
        forall|j: int|
            0 <= j < weakest_upto_except(p, m, ex) && j != ex ==> #[trigger] victory_points(p, j)
                > victory_points(p, weakest_upto_except(p, m, ex)),
    decreases m,
{
    let base: int = if ex == 0 {
        1
    } else {
        0
    };
    if m > base + 1 {
        lemma_weakest_except_props(p, m - 1, ex);
    }
}

/// The position relegated from a population of three or more: the first
/// minimum by victory points, unless the runner-up shares its victory
/// points with strictly fewer raw wins, in which case the runner-up goes.
pub open spec fn eliminated_index(p: Seq<[i16; 10]>) -> int {
    let first = weakest_upto(p, p.len() as int);
    let second = weakest_upto_except(p, p.len() as int, first);
    if victory_points(p, first) == victory_points(p, second) && wins_of(p, second) < wins_of(
        p,
        first,
    ) {
        second
    } else {
        first
    }
}

/// The relegated position names an actual entrant.
pub proof fn lemma_eliminated_in_range(p: Seq<[i16; 10]>)
    requires
        p.len() >= 2,
    ensures
        0 <= eliminated_index(p) < p.len(),
{
    lemma_weakest_upto_props(p, p.len() as int);
    lemma_weakest_except_props(p, p.len() as int, weakest_upto(p, p.len() as int));
}

/// The last two survivors settle by one direct battle: the loser first,
/// the winner last, with an exact tie kept in the standing order.
pub open spec fn final_pair_order(p: Seq<[i16; 10]>) -> Seq<[i16; 10]> {
    if beats(p[0], p[1]) {
        seq![p[1], p[0]]
    } else {
        seq![p[0], p[1]]
    }
}

/// The complete relegation order of population `p`, from the first
/// strategy dropped to the overall winner in the last position.
pub open spec fn relegation_order(p: Seq<[i16; 10]>) -> Seq<[i16; 10]>
    decreases p.len(),
    via relegation_order_decreases
{
    if p.len() < 2 {
        p
    } else if p.len() == 2 {
        final_pair_order(p)
    } else {
        seq![p[eliminated_index(p)]] + relegation_order(p.remove(eliminated_index(p)))
    }
}

#[via_fn]
proof fn relegation_order_decreases(p: Seq<[i16; 10]>) {
    if p.len() > 2 {
        lemma_eliminated_in_range(p);
    }
}

/// Law: relegation only reorders the population. Every entrant appears in
/// the result exactly as often as in the input — nothing is dropped,
/// nothing is added — and the length is unchanged.
pub proof fn lemma_relegation_order_permutes(p: Seq<[i16; 10]>)
    ensures
        relegation_order(p).to_multiset() == p.to_multiset(),
        relegation_order(p).len() == p.len(),
    decreases p.len(),
{
    broadcast use vstd::seq_lib::group_to_multiset_ensures;

    if p.len() == 2 {
        assert(p =~= seq![p[0]] + seq![p[1]]);
        assert(seq![p[1], p[0]] =~= seq![p[1]] + seq![p[0]]);
        assert(seq![p[0], p[1]] =~= seq![p[0]] + seq![p[1]]);
        lemma_multiset_commutative(seq![p[0]], seq![p[1]]);
        lemma_multiset_commutative(seq![p[1]], seq![p[0]]);
        assert(seq![p[0]].to_multiset().add(seq![p[1]].to_multiset()) =~= seq![p[1]].to_multiset()
            .add(seq![p[0]].to_multiset()));
    } else if p.len() > 2 {
        lemma_eliminated_in_range(p);
        let e = eliminated_index(p);
        let rest = p.remove(e);
        lemma_relegation_order_permutes(rest);
        lemma_multiset_commutative(seq![p[e]], relegation_order(rest));
        assert(seq![p[e]].to_multiset() =~= Multiset::<[i16; 10]>::empty().insert(p[e]));
        assert(rest.to_multiset() == p.to_multiset().remove(p[e]));
        assert(p.contains(p[e]));
        assert(p.to_multiset().count(p[e]) > 0);
        assert(relegation_order(p).to_multiset() =~= p.to_multiset());
    }
}

/// Ten-battlefield allocations are equal exactly when every battlefield
/// matches.
fn strategies_equal(a: &[i16; 10], b: &[i16; 10]) -> (r: bool)
    ensures
        r <==> *a == *b,
{
    for i in 0..10usize
        invariant
            forall|k: int| 0 <= k < i ==> a@[k] == b@[k],
    {
        if a[i] != b[i] {
            return false;
        }
    }
    proof {
        vstd::array::axiom_array_ext_equal(*a, *b);
        assert(*a =~= *b);
    }
    true
}

/// Whether the population already holds this exact allocation.
fn contains_strategy(v: &Vec<[i16; 10]>, x: &[i16; 10]) -> (r: bool)
    ensures
        r == v@.contains(*x),
{
    let n: usize = v.len();
    for i in 0..n
        invariant
            n == v@.len(),
            forall|k: int| 0 <= k < i ==> v@[k] != *x,
    {
        let candidate: [i16; 10] = v[i];
        if strategies_equal(&candidate, x) {
            proof {
                assert(v@[i as int] == *x);
            }
            return true;
        }
    }
    proof {
        assert(!v@.contains(*x));
    }
    false
}

/// Keeps the first occurrence of every distinct strategy, in order:
/// identical allocations would earn identical records, so they are merged
/// into a single entrant before the tournament starts.
pub fn dedup_strategies(players: &Vec<[i16; 10]>) -> (r: Vec<[i16; 10]>)
    ensures
        r@ == dedup_seq(players@),
{
    let mut result: Vec<[i16; 10]> = Vec::new();
    let n: usize = players.len();
    for k in 0..n
        invariant
            n == players@.len(),
            result@ == dedup_seq(players@.take(k as int)),
    {
        let x: [i16; 10] = players[k];
        proof {
            assert(players@.take(k as int + 1).drop_last() =~= players@.take(k as int));
            assert(players@.take(k as int + 1).last() == x);
        }
        if !contains_strategy(&result, &x) {
            result.push(x);
        }
    }
    proof {
        assert(players@.take(n as int) =~= players@);
    }
    result
}

/// Strategy `k`'s victory points, read off its round-robin record.
fn vp_of(scores: &Vec<([i16; 10], BattleScore)>, k: usize) -> (v: u64)
    requires
        k < scores@.len(),
    ensures
        v == 2 * (scores@[k as int].1.wins as int) + scores@[k as int].1.ties,
{
    2 * (scores[k].1.wins as u64) + (scores[k].1.ties as u64)
}

/// Runs the relegation tournament over `players` (duplicates merged
/// first): while more than two entrants remain, a full round-robin is
/// played and the entrant picked by `eliminated_index` is dropped; the
/// final pair settles by one direct battle. Returns the full standing
/// from the first strategy relegated to the overall winner. The
/// `_verbose` flag is accepted for callers that toggle progress
/// reporting; the library itself never prints.
pub fn tournament(players: &Vec<[i16; 10]>, _verbose: bool) -> (r: Vec<[i16; 10]>)
    requires
        players@.len() < 0x1_0000_0000,
        dedup_seq(players@).len() >= 2,
    ensures
        r@ == relegation_order(dedup_seq(players@)),
        r@.len() == dedup_seq(players@).len(),
        r@.to_multiset() == dedup_seq(players@).to_multiset(),
{
    let ghost d = dedup_seq(players@);
    let mut pl = dedup_strategies(players);
    let mut res: Vec<[i16; 10]> = Vec::with_capacity(pl.len());
    proof {
        lemma_dedup_properties(players@);
        assert(res@ + relegation_order(pl@) =~= relegation_order(d));
    }

    while pl.len() > 2
        invariant
            2 <= pl@.len() < 0x1_0000_0000,
            distinct_seq(pl@),
            res@ + relegation_order(pl@) == relegation_order(d),
        decreases pl@.len(),
    {
        let n: usize = pl.len();
        let scores = run_battles_set(&pl);

        // The first entrant with the fewest victory points.
        let mut first: usize = 0;
        let mut k: usize = 1;
        while k < n
            invariant
                n == pl@.len(),
                scores@.len() == n,
                forall|q: int|
                    #![trigger scores@[q]]
                    0 <= q < n ==> is_record_of(scores@[q].1, pl@, q),
                first < k <= n,
                first as int == weakest_upto(pl@, k as int),
            decreases n - k,
        {
            if vp_of(&scores, k) < vp_of(&scores, first) {
                first = k;
            }
            k = k + 1;
        }

        // The first entrant with the fewest victory points among the rest.
        let start: usize = if first == 0 {
            1
        } else {
            0
        };
        let mut second: usize = start;
        let mut k2: usize = start + 1;
        while k2 < n
            invariant
                n == pl@.len(),
                n >= 3,
                scores@.len() == n,
                forall|q: int|
                    #![trigger scores@[q]]
                    0 <= q < n ==> is_record_of(scores@[q].1, pl@, q),
                first < n,
                (first == 0 ==> start == 1) && (first != 0 ==> start == 0),
                second < k2 <= n,
                second != first,
                second as int == weakest_upto_except(pl@, k2 as int, first as int),
            decreases n - k2,
        {
            if k2 != first && vp_of(&scores, k2) < vp_of(&scores, second) {
                second = k2;
            }
            k2 = k2 + 1;
        }

        let elim: usize = if vp_of(&scores, first) == vp_of(&scores, second)
            && scores[second].1.wins < scores[first].1.wins {
            second
        } else {
            first
        };
        proof {
            assert(elim as int == eliminated_index(pl@));
            lemma_eliminated_in_range(pl@);
        }

        let ghost old_pl = pl@;
        let ghost old_res = res@;
        res.push(pl[elim]);
        pl.remove(elim);
        proof {
            assert(relegation_order(old_pl) == seq![old_pl[elim as int]] + relegation_order(
                old_pl.remove(elim as int),
            ));
            assert(res@ + relegation_order(pl@) =~= old_res + relegation_order(old_pl));
            old_pl.remove_ensures(elim as int);
            assert forall|i: int, j: int| 0 <= i < j < pl@.len() implies pl@[i] != pl@[j] by {
                if i < elim as int {
                    assert(pl@[i] == old_pl[i]);
                } else {
                    assert(pl@[i] == old_pl[i + 1]);
                }
                if j < elim as int {
                    assert(pl@[j] == old_pl[j]);
                } else {
                    assert(pl@[j] == old_pl[j + 1]);
                }
            }
        }
    }

    // Settle the final pair with one direct battle: loser first.
    let ghost final_pl = pl@;
    let ghost old_res = res@;
    let (first_score, second_score) = battle(pl[0], pl[1]);
    if first_score > second_score {
        res.push(pl[1]);
        res.push(pl[0]);
    } else {
        res.push(pl[0]);
        res.push(pl[1]);
    }
    proof {
        assert(relegation_order(final_pl) == final_pair_order(final_pl));
        assert(res@ =~= old_res + final_pair_order(final_pl));
        lemma_relegation_order_permutes(d);
    }
    res
}

} // verus!
