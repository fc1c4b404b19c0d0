//! The single-elimination runner: a rank-ordered, seeded, power-of-two
//! population is halved round by round until one strategy remains.

use vstd::prelude::*;
use vstd::arithmetic::power2::{is_pow2, lemma2_to64, pow2};
use crate::scoring::{battle, battle_points};
use crate::round_robin::run_battles_slice;
use crate::round_robin::lemma_sort_by_wins_permutes;
use crate::round_robin::scored_pairs;
use crate::seeding::{lemma_pow2_le, next_power_of_2_after, seed_players, sort_according_to_inds};
use crate::strategy::{generate_uniform_random_distribution, well_formed_strategy};

verus! {

/// The strategy that leaves a match: the second one only if it strictly
/// outscores the first, so the first entrant advances on an exact tie.
pub open spec fn pair_winner(a: [i16; 10], b: [i16; 10]) -> [i16; 10] {
    if battle_points(b@, a@) > battle_points(a@, b@) {
        b
    } else {
        a
    }
}

/// One bracket round: adjacent pairs battle, winners advance in order.
pub open spec fn winners_round(s: Seq<[i16; 10]>) -> Seq<[i16; 10]> {
    Seq::new(s.len() / 2, |k: int| pair_winner(s[2 * k], s[2 * k + 1]))
}

/// The strategy left standing after the bracket is halved down to one.
pub open spec fn bracket_winner(s: Seq<[i16; 10]>) -> [i16; 10]
    decreases s.len(),
{
    if s.len() <= 1 {
        s[0]
    } else {
        bracket_winner(winners_round(s))
    }
}

/// The bracket winner is always one of the entrants: every round only
/// keeps strategies that were already in the pool.
pub proof fn lemma_bracket_winner_member(s: Seq<[i16; 10]>)
    requires
        s.len() >= 1,
    ensures
        s.contains(bracket_winner(s)),
    decreases s.len(),
{
    if s.len() == 1 {
        assert(s[0] == bracket_winner(s));
        assert(s.contains(s[0]));
    } else {
        lemma_bracket_winner_member(winners_round(s));
        let w = bracket_winner(s);
        let k = choose|k: int| 0 <= k < winners_round(s).len() && winners_round(s)[k] == w;
        assert(winners_round(s)[k] == pair_winner(s[2 * k], s[2 * k + 1]));
        if battle_points(s[2 * k + 1]@, s[2 * k]@) > battle_points(s[2 * k]@, s[2 * k + 1]@) {
            assert(s[2 * k + 1] == w);
        } else {
            assert(s[2 * k] == w);
        }
    }
}

/// Runs a single-elimination tournament over a pool already sorted into
/// bracket order, returning the one overall winner. Ties advance the
/// earlier (higher-seeded) entrant of the pair.
pub fn run_tournament(pool: &Vec<[i16; 10]>) -> (r: Vec<[i16; 10]>)
    requires
        pool@.len() >= 1,
        is_pow2(pool@.len() as int),
    ensures
        r@.len() == 1,
        r@[0] == bracket_winner(pool@),
{
    let mut p: Vec<[i16; 10]> = Vec::with_capacity(pool.len());
    let n: usize = pool.len();
    for k in 0..n
        invariant
            n == pool@.len(),
            p@.len() == k,
            forall|q: int| 0 <= q < k ==> #[trigger] p@[q] == pool@[q],
    {
        p.push(pool[k]);
    }
    proof {
        assert(p@ =~= pool@);
    }

    while p.len() > 1
        invariant
            p@.len() >= 1,
            is_pow2(p@.len() as int),
            bracket_winner(p@) == bracket_winner(pool@),
        decreases p@.len(),
    {
        proof {
            reveal(is_pow2);
        }
        let half: usize = p.len() / 2;
        let mut next_round: Vec<[i16; 10]> = Vec::with_capacity(half);
        for k in 0..half
            invariant
                p@.len() % 2 == 0,
                p@.len() >= 2,
                p@.len() <= usize::MAX,
                half == p@.len() / 2,
                next_round@.len() == k,
                forall|q: int| 0 <= q < k ==> #[trigger] next_round@[q] == winners_round(p@)[q],
        {
            let (first_score, second_score) = battle(p[2 * k], p[2 * k + 1]);
            if second_score > first_score {
                next_round.push(p[2 * k + 1]);
            } else {
                next_round.push(p[2 * k]);
            }
        }
        proof {
            assert(next_round@ =~= winners_round(p@));
            assert(bracket_winner(winners_round(p@)) == bracket_winner(p@));
            reveal(is_pow2);
            assert(is_pow2(next_round@.len() as int));
        }
        p = next_round;
    }
    p
}

/// Builds a random pool of the next power-of-two size at or above
/// `starting_size`, ranks it with one full round-robin, reorders it into
/// bracket order, and plays the bracket down to a single winner. The
/// pool is random, but whatever is drawn, the one returned strategy is a
/// member of it and therefore well formed.
pub fn seventh_battle_for_riddler_nation(starting_size: usize) -> (r: Vec<[i16; 10]>)
    requires
        starting_size <= pow2(31),
    ensures
        r@.len() == 1,
        well_formed_strategy(r@[0]),
{
    proof {
        lemma2_to64();
        lemma_pow2_le(31, 49);
    }
    let pool_size: usize = match next_power_of_2_after(starting_size) {
        Some(sz) => sz,
        None => unreached(),
    };
    proof {
        reveal(is_pow2);
        assert(pool_size < 0x1_0000_0000) by {
            lemma2_to64();
            if pool_size != 2 {
                assert(pool_size / 2 < starting_size);
                assert(pool_size % 2 == 0);
            }
        }
    }
    let seeds = seed_players(pool_size);

    let mut pool: Vec<[i16; 10]> = Vec::with_capacity(pool_size);
    for _k in 0..pool_size
        invariant
            pool@.len() == _k,
            forall|q: int| 0 <= q < _k ==> well_formed_strategy(#[trigger] pool@[q]),
    {
        pool.push(generate_uniform_random_distribution());
    }

    // Play them all against each other; the result is sorted worst first.
    let ranked = run_battles_slice(&pool, None);
    proof {
        lemma_sort_by_wins_permutes(scored_pairs(pool@));
        broadcast use vstd::seq_lib::group_to_multiset_ensures;

        // Sorting permutes the scored pairs, so every ranked entry still
        // carries a strategy of the generated pool.
        assert forall|i: int| 0 <= i < ranked@.len() implies well_formed_strategy(
            (#[trigger] ranked@[i]).0,
        ) by {
            assert(ranked@.contains(ranked@[i]));
            assert(ranked@.to_multiset().count(ranked@[i]) > 0);
            assert(scored_pairs(pool@).to_multiset().count(ranked@[i]) > 0);
            assert(scored_pairs(pool@).contains(ranked@[i]));
            let q = choose|q: int|
                0 <= q < scored_pairs(pool@).len() && scored_pairs(pool@)[q] == ranked@[i];
            assert(scored_pairs(pool@)[q].0 == pool@[q]);
        }
    }
    let mut ranked_strategies: Vec<[i16; 10]> = Vec::with_capacity(pool_size);
    for k in 0..pool_size
        invariant
            ranked@.len() == pool_size,
            forall|i: int|
                0 <= i < ranked@.len() ==> well_formed_strategy((#[trigger] ranked@[i]).0),
            ranked_strategies@.len() == k,
            forall|q: int| 0 <= q < k ==> well_formed_strategy(#[trigger] ranked_strategies@[q]),
    {
        ranked_strategies.push(ranked[k].0);
    }

    // Re-sort them according to the seed order, then run the bracket.
    let seeded_pool = sort_according_to_inds(&ranked_strategies, &seeds);
    let winners = run_tournament(&seeded_pool);
    proof {
        lemma_bracket_winner_member(seeded_pool@);
        let w = bracket_winner(seeded_pool@);
        let idx = choose|idx: int| 0 <= idx < seeded_pool@.len() && seeded_pool@[idx] == w;
        assert(seeded_pool@[idx] == ranked_strategies@[seeds@[idx] as int]);
    }
    winners
}

} // verus!
