//! Bracket seeding: the pairing order for a power-of-two, rank-ordered
//! population, built by recursive doubling so that the two opponents of
//! every match at a level have 1-based ranks summing to that level's
//! constant.

use vstd::prelude::*;
use vstd::arithmetic::power2::{
    is_pow2, is_pow2_equiv, lemma2_to64, lemma2_to64_rest, lemma_pow2_pos,
    lemma_pow2_strictly_increases, lemma_pow2_unfold, pow2,
};

verus! {

/// The floor of the base-2 logarithm.
pub open spec fn lg(n: nat) -> nat
    decreases n,
{
    if n <= 1 {
        0
    } else {
        (1 + lg((n / 2) as nat)) as nat
    }
}

/// `pow2` never shrinks as the exponent grows.
pub proof fn lemma_pow2_le(e1: nat, e2: nat)
    requires
        e1 <= e2,
    ensures
        pow2(e1) <= pow2(e2),
{
    if e1 < e2 {
        lemma_pow2_strictly_increases(e1, e2);
    }
}

/// `lg` is the unique exponent whose power-of-two window holds `x`.
pub proof fn lemma_lg_identifies(x: nat, r: nat)
    requires
        pow2(r) <= x < pow2(r + 1),
    ensures
        lg(x) == r,
    decreases r,
{
    lemma2_to64();
    if r == 0 {
        assert(x == 1);
    } else {
        lemma_pow2_unfold(r);
        lemma_pow2_unfold(r + 1);
        lemma_pow2_pos((r - 1) as nat);
        lemma_pow2_le(1, r);
        assert(pow2((r - 1) as nat) <= x / 2 < pow2(r));
        lemma_lg_identifies((x / 2) as nat, (r - 1) as nat);
    }
}

/// A power of two is recovered exactly from its own logarithm.
pub proof fn lemma_pow2_lg(n: nat)
    requires
        n >= 1,
        is_pow2(n as int),
    ensures
        pow2(lg(n)) == n,
    decreases n,
{
    reveal(is_pow2);
    lemma2_to64();
    if n >= 2 {
        lemma_pow2_lg((n / 2) as nat);
        lemma_pow2_unfold((1 + lg((n / 2) as nat)) as nat);
    }
}

/// Replaces each seed `x` of a level with the pair `x, total - x`: the
/// doubling step that grows the bracket by one round.
pub open spec fn expanded(s: Seq<int>, total: int) -> Seq<int> {
    Seq::new(2 * s.len(), |i: int| if i % 2 == 0 {
        s[i / 2]
    } else {
        total - s[i / 2]
    })
}

/// The 1-based seed order of a bracket with `pow2(e)` entrants, grown
/// from the final's pairing `1, 2` by repeated doubling.
pub open spec fn seed_seq(e: nat) -> Seq<int>
    decreases e,
{
    if e <= 1 {
        seq![1int, 2int]
    } else {
        expanded(seed_seq((e - 1) as nat), pow2(e) as int + 1)
    }
}

/// A level with exponent `e` holds `pow2(e)` seeds.
pub proof fn lemma_seed_seq_len(e: nat)
    requires
        e >= 1,
    ensures
        seed_seq(e).len() == pow2(e),
    decreases e,
{
    lemma2_to64();
    if e > 1 {
        lemma_seed_seq_len((e - 1) as nat);
        lemma_pow2_unfold(e);
    }
}

/// Every seed of level `e` lies in `1..=pow2(e)`.
pub proof fn lemma_seed_seq_bounds(e: nat)
    requires
        e >= 1,
    ensures
        forall|i: int|
            0 <= i < seed_seq(e).len() ==> 1 <= #[trigger] seed_seq(e)[i] && seed_seq(e)[i]
                <= pow2(e),
    decreases e,
{
    lemma2_to64();
    if e > 1 {
        lemma_seed_seq_bounds((e - 1) as nat);
        lemma_seed_seq_len((e - 1) as nat);
        lemma_pow2_unfold(e);
    }
}

/// No seed appears twice at any level.
pub proof fn lemma_seed_seq_distinct(e: nat)
    requires
        e >= 1,
    ensures
        forall|i: int, j: int|
            0 <= i < j < seed_seq(e).len() ==> seed_seq(e)[i] != seed_seq(e)[j],
    decreases e,
{
    if e > 1 {
        lemma_seed_seq_distinct((e - 1) as nat);
        lemma_seed_seq_bounds((e - 1) as nat);
        lemma_seed_seq_len((e - 1) as nat);
        lemma_pow2_unfold(e);
        let s = seed_seq(e);
        let prev = seed_seq((e - 1) as nat);
        let total = pow2(e) as int + 1;
        assert forall|i: int, j: int| 0 <= i < j < s.len() implies s[i] != s[j] by {
            assert(s[i] == if i % 2 == 0 { prev[i / 2] } else { total - prev[i / 2] });
            assert(s[j] == if j % 2 == 0 { prev[j / 2] } else { total - prev[j / 2] });
            assert(1 <= prev[i / 2] <= pow2((e - 1) as nat));
            assert(1 <= prev[j / 2] <= pow2((e - 1) as nat));
            if i % 2 == 0 && j % 2 == 0 {
                assert(i / 2 != j / 2);
            } else if i % 2 != 0 && j % 2 != 0 {
                assert(i / 2 != j / 2);
            }
        }
    }
}

/// Law: at every level of the bracket, the 1-based seeds of each adjacent
/// pair sum to that level's constant, `pow2(e) + 1`.
pub proof fn lemma_seed_pair_sums(e: nat)
    requires
        e >= 1,
    ensures
        forall|k: int|
            0 <= 2 * k + 1 < seed_seq(e).len() ==> #[trigger] seed_seq(e)[2 * k] + seed_seq(e)[2
                * k + 1] == pow2(e) + 1,
{
    lemma2_to64();
    if e > 1 {
        assert forall|k: int|
            0 <= 2 * k + 1 < seed_seq(e).len() implies #[trigger] seed_seq(e)[2 * k] + seed_seq(
            e,
        )[2 * k + 1] == pow2(e) + 1 by {
            assert((2 * k) % 2 == 0 && (2 * k + 1) % 2 == 1 && (2 * k) / 2 == k && (2 * k + 1) / 2
                == k);
        }
    }
}

/// The seed of each pair that a rank-respecting round lets through: the
/// numerically better (smaller) of the two.
pub open spec fn better_halves(s: Seq<int>) -> Seq<int> {
    Seq::new(s.len() / 2, |k: int| if s[2 * k] <= s[2 * k + 1] {
        s[2 * k]
    } else {
        s[2 * k + 1]
    })
}

/// Law: when every match is won by the better rank, one round of the
/// bracket at level `e` leaves exactly the seed order of level `e - 1`.
/// Applied round after round, this is the defining bracket invariant.
pub proof fn lemma_seed_round_reduction(e: nat)
    requires
        e >= 2,
    ensures
        better_halves(seed_seq(e)) == seed_seq((e - 1) as nat),
{
    lemma_seed_seq_len(e);
    lemma_seed_seq_len((e - 1) as nat);
    lemma_seed_seq_bounds((e - 1) as nat);
    lemma_pow2_unfold(e);
    let s = seed_seq(e);
    let prev = seed_seq((e - 1) as nat);
    assert forall|k: int| 0 <= k < better_halves(s).len() implies #[trigger] better_halves(s)[k]
        == prev[k] by {
        assert((2 * k) % 2 == 0 && (2 * k + 1) % 2 == 1 && (2 * k) / 2 == k && (2 * k + 1) / 2
            == k);
        assert(s[2 * k] == prev[k]);
        assert(s[2 * k + 1] == pow2(e) + 1 - prev[k]);
        assert(prev[k] <= pow2((e - 1) as nat));
    }
    assert(better_halves(s) =~= prev);
}

/// `s` after `times` rank-respecting rounds of the bracket.
pub open spec fn reduced(s: Seq<int>, times: nat) -> Seq<int>
    decreases times,
{
    if times == 0 {
        s
    } else {
        better_halves(reduced(s, (times - 1) as nat))
    }
}

/// Law: build a bracket from the full seed order of level `e` and let the
/// better rank win every match. After any number `l` of rounds the
/// survivors stand in the seed order of level `e - l`, so the 1-based
/// ranks of every remaining pair sum to that round's constant,
/// `pow2(e - l) + 1`.
pub proof fn lemma_seed_every_round(e: nat, l: nat)
    requires
        1 <= e,
        l <= e - 1,
    ensures
        reduced(seed_seq(e), l) == seed_seq((e - l) as nat),
        forall|k: int|
            0 <= 2 * k + 1 < reduced(seed_seq(e), l).len() ==> #[trigger] reduced(seed_seq(e), l)[2
                * k] + reduced(seed_seq(e), l)[2 * k + 1] == pow2((e - l) as nat) + 1,
    decreases l,
{
    if l > 0 {
        lemma_seed_every_round(e, (l - 1) as nat);
        lemma_seed_round_reduction((e - l + 1) as nat);
    }
    lemma_seed_pair_sums((e - l) as nat);
}

/// The floor of the base-2 logarithm, by repeated doubling.
pub fn log_2(x: usize) -> (r: u32)
    requires
        x >= 1,
    ensures
        pow2(r as nat) <= x < pow2(r as nat + 1),
        r == lg(x as nat),
        r <= 63,
{
    let mut r: u32 = 0;
    let mut p: usize = 1;
    proof {
        lemma2_to64();
    }
    while x / 2 >= p
        invariant
            x >= 1,
            1 <= p,
            p == pow2(r as nat),
            p <= x,
            r <= 63,
        decreases x - p,
    {
        proof {
            lemma_pow2_unfold(r as nat + 1);
            lemma2_to64();
            if r as nat + 1 >= 64 {
                if r as nat + 1 > 64 {
                    lemma_pow2_strictly_increases(64, r as nat + 1);
                }
                assert(pow2(r as nat + 1) >= pow2(64));
                assert(false);
            }
        }
        p = p * 2;
        r = r + 1;
    }
    proof {
        lemma_pow2_unfold(r as nat + 1);
        lemma_lg_identifies(x as nat, r as nat);
    }
    r
}

/// The 0-based bracket pairing order for `n_players` rank-sorted entrants
/// (best first). Entry pairs `(r[2k], r[2k + 1])` meet in the first round;
/// their 1-based ranks sum to `n_players + 1`, and so on up the bracket.
pub fn seed_players(n_players: usize) -> (r: Vec<usize>)
    requires
        n_players >= 2,
        is_pow2(n_players as int),
    ensures
        r@.len() == n_players,
        forall|i: int|
            0 <= i < r@.len() ==> (#[trigger] r@[i]) + 1 == seed_seq(lg(n_players as nat))[i],
        forall|i: int| 0 <= i < r@.len() ==> (#[trigger] r@[i]) < n_players,
        forall|i: int, j: int| 0 <= i < j < r@.len() ==> r@[i] != r@[j],
{
    let n_rounds: u32 = log_2(n_players);
    proof {
        lemma_pow2_lg(n_players as nat);
        lemma_lg_identifies(n_players as nat, lg(n_players as nat));
        lemma2_to64();
        assert(pow2(n_rounds as nat) == n_players);
        assert(n_rounds >= 1) by {
            if n_rounds == 0 {
                assert(pow2(0) == 1);
            }
        }
    }

    let mut seeds: Vec<usize> = Vec::with_capacity(n_players);
    seeds.push(1);
    seeds.push(2);

    let mut r: u32 = 2;
    while r <= n_rounds
        invariant
            2 <= r <= n_rounds + 1,
            1 <= n_rounds <= 63,
            pow2(n_rounds as nat) == n_players,
            n_players >= 2,
            seeds@.len() == pow2((r - 1) as nat),
            forall|i: int|
                0 <= i < seeds@.len() ==> seeds@[i] == seed_seq((r - 1) as nat)[i],
        decreases n_rounds + 1 - r,
    {
        proof {
            lemma_seed_seq_len((r - 1) as nat);
            lemma_seed_seq_bounds((r - 1) as nat);
            lemma_pow2_unfold(r as nat);
            lemma_pow2_le(r as nat, n_rounds as nat);
        }
        let level_size: usize = seeds.len() * 2;
        let desired_sum: usize = level_size + 1;
        let mut next_level: Vec<usize> = Vec::with_capacity(level_size);
        let current_len: usize = seeds.len();
        for k in 0..current_len
            invariant
                current_len == seeds@.len(),
                seeds@.len() == pow2((r - 1) as nat),
                level_size == pow2(r as nat),
                level_size == 2 * seeds@.len(),
                desired_sum == level_size + 1,
                forall|i: int|
                    0 <= i < seeds@.len() ==> seeds@[i] == seed_seq((r - 1) as nat)[i],
                next_level@.len() == 2 * k,
                forall|i: int|
                    0 <= i < next_level@.len() ==> next_level@[i] == expanded(
                        seed_seq((r - 1) as nat),
                        desired_sum as int,
                    )[i],
                r >= 2,
        {
            proof {
                lemma_seed_seq_len((r - 1) as nat);
                lemma_seed_seq_bounds((r - 1) as nat);
                assert(seeds@[k as int] == seed_seq((r - 1) as nat)[k as int]);
                assert(1 <= seed_seq((r - 1) as nat)[k as int] <= pow2((r - 1) as nat));
                assert((2 * k) % 2 == 0 && (2 * k + 1) % 2 == 1 && (2 * k as int) / 2 == k
                    && (2 * k as int + 1) / 2 == k);
            }
            let x: usize = seeds[k];
            next_level.push(x);
            next_level.push(desired_sum - x);
        }
        proof {
            lemma_seed_seq_len(r as nat);
            assert(seed_seq(r as nat) == expanded(
                seed_seq((r - 1) as nat),
                pow2(r as nat) as int + 1,
            ));
        }
        seeds = next_level;
        r = r + 1;
    }

    proof {
        assert((r - 1) as nat == n_rounds as nat);
        lemma_seed_seq_len(n_rounds as nat);
        lemma_seed_seq_bounds(n_rounds as nat);
        lemma_seed_seq_distinct(n_rounds as nat);
    }

    let mut result: Vec<usize> = Vec::with_capacity(seeds.len());
    let total_len: usize = seeds.len();
    for k in 0..total_len
        invariant
            total_len == seeds@.len(),
            seeds@.len() == n_players,
            pow2(n_rounds as nat) == n_players,
            seed_seq(n_rounds as nat).len() == n_players,
            forall|i: int|
                0 <= i < seeds@.len() ==> seeds@[i] == seed_seq(n_rounds as nat)[i],
            forall|i: int|
                0 <= i < seed_seq(n_rounds as nat).len() ==> 1 <= #[trigger] seed_seq(
                    n_rounds as nat,
                )[i] && seed_seq(n_rounds as nat)[i] <= pow2(n_rounds as nat),
            result@.len() == k,
            forall|i: int|
                0 <= i < result@.len() ==> (#[trigger] result@[i]) + 1 == seed_seq(
                    n_rounds as nat,
                )[i],
    {
        result.push(seeds[k] - 1);
    }
    proof {
        assert(lg(n_players as nat) == n_rounds as nat);
    }
    result
}

/// The smallest power of two that is at least `x` (and at least 2), or
/// `None` past the search ceiling of `pow2(49)`, matching a bracket size
/// scan over rounds 1 to 49. On a target whose `usize` holds `pow2(49)`
/// — any 64-bit machine — every `x` is accepted; a narrower target must
/// keep `x` within its largest representable power of two, past which
/// the search itself could not be run.
pub fn next_power_of_2_after(x: usize) -> (r: Option<usize>)
    requires
        x <= usize::MAX / 2 + 1 || pow2(49) <= usize::MAX,
    ensures
        match r {
            Some(v) => is_pow2(v as int) && v >= x && v >= 2 && (v == 2 || v / 2 < x) && x <= pow2(
                49,
            ),
            None => x > pow2(49),
        },
{
    let mut p: u32 = 1;
    let mut pw: usize = 2;
    proof {
        lemma2_to64();
        lemma2_to64_rest();
    }
    while pw < x && p < 49
        invariant
            1 <= p <= 49,
            pw == pow2(p as nat),
            p == 1 || pow2((p - 1) as nat) < x,
            x <= usize::MAX / 2 + 1 || pow2(49) <= usize::MAX,
        decreases 49 - p,
    {
        proof {
            lemma_pow2_unfold(p as nat + 1);
            lemma_pow2_le(p as nat + 1, 49);
            lemma2_to64_rest();
        }
        pw = pw * 2;
        p = p + 1;
    }
    proof {
        lemma2_to64();
        lemma2_to64_rest();
        lemma_pow2_le(p as nat, 49);
        lemma_pow2_unfold(p as nat);
        assert(is_pow2(pow2(p as nat) as int)) by {
            is_pow2_equiv(pow2(p as nat) as int);
            vstd::arithmetic::power2::lemma_pow2(p as nat);
            assert(vstd::arithmetic::power::pow(2, p as nat) == pow2(p as nat) as int);
        }
    }
    if pw >= x {
        Some(pw)
    } else {
        None
    }
}

/// Reorders `items` by a previously computed permutation of indices:
/// entry `k` of the result is `items[inds[k]]`.
pub fn sort_according_to_inds<T: Copy>(items: &Vec<T>, inds: &Vec<usize>) -> (r: Vec<T>)
    requires
        forall|i: int| 0 <= i < inds@.len() ==> (#[trigger] inds@[i]) < items@.len(),
    ensures
        r@.len() == inds@.len(),
        forall|i: int| 0 <= i < r@.len() ==> #[trigger] r@[i] == items@[inds@[i] as int],
{
    let mut result: Vec<T> = Vec::with_capacity(inds.len());
    let n: usize = inds.len();
    for k in 0..n
        invariant
            n == inds@.len(),
            forall|i: int| 0 <= i < inds@.len() ==> (#[trigger] inds@[i]) < items@.len(),
            result@.len() == k,
            forall|i: int| 0 <= i < result@.len() ==> #[trigger] result@[i] == items@[inds@[i] as int],
    {
        result.push(items[inds[k]]);
    }
    result
}

} // verus!
