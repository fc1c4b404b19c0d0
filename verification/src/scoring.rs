//! The battle scorer: the pairwise comparison at the bottom of every
//! tournament format, and the per-strategy win/tie/loss record.

use vstd::prelude::*;

verus! {

/// Half-points that the left side earns on one battlefield of weight `w`:
/// the full doubled weight for a strictly larger allocation, half of that
/// (i.e. the weight itself) for an exact tie, nothing for a loss.
pub open spec fn field_points(x: i16, y: i16, w: int) -> int {
    if x > y {
        2 * w
    } else if x < y {
        0
    } else {
        w
    }
}

/// Half-points that side `a` earns against side `b` over the first `n`
/// battlefields; battlefield `i` (0-based) has weight `i + 1`.
pub open spec fn score_upto(a: Seq<i16>, b: Seq<i16>, n: int) -> int
    decreases n,
{
    if n <= 0 {
        0
    } else {
        score_upto(a, b, n - 1) + field_points(a[n - 1], b[n - 1], n)
    }
}

/// Half-points that strategy `a` earns against strategy `b` over all ten
/// battlefields.
pub open spec fn battle_points(a: Seq<i16>, b: Seq<i16>) -> int {
    score_upto(a, b, 10)
}

/// The two sides of any partial battle share `1 + 2 + ... + n` points,
/// i.e. `n * (n + 1)` half-points: each battlefield's weight goes wholly
/// to the winner or is split on a tie.
pub proof fn lemma_score_upto_total(a: Seq<i16>, b: Seq<i16>, n: int)
    requires
        n >= 0,
    ensures
        score_upto(a, b, n) + score_upto(b, a, n) == n * (n + 1),
    decreases n,
{
    if n > 0 {
        lemma_score_upto_total(a, b, n - 1);
        assert(field_points(a[n - 1], b[n - 1], n) + field_points(b[n - 1], a[n - 1], n)
            == 2 * n);
        assert((n - 1) * n + 2 * n == n * (n + 1)) by (nonlinear_arith);
    } else {
        assert(n * (n + 1) == 0) by (nonlinear_arith)
            requires n == 0;
    }
}

/// Neither side's score is negative, and neither exceeds the whole pot.
pub proof fn lemma_score_upto_bounds(a: Seq<i16>, b: Seq<i16>, n: int)
    requires
        n >= 0,
    ensures
        0 <= score_upto(a, b, n) <= n * (n + 1),
    decreases n,
{
    if n > 0 {
        lemma_score_upto_bounds(a, b, n - 1);
        lemma_score_upto_bounds(b, a, n - 1);
        lemma_score_upto_total(a, b, n);
        lemma_score_upto_total(b, a, n);
    }
}

/// Law: the two sides of a battle always share the full pot of 110
/// half-points (55 points), whatever the strategies hold.
pub proof fn lemma_battle_points_sum(a: Seq<i16>, b: Seq<i16>)
    ensures
        battle_points(a, b) + battle_points(b, a) == 110,
{
    lemma_score_upto_total(a, b, 10);
}

/// Every battlefield of a self-battle is a tie, worth the plain weight,
/// so each side takes exactly half of the `n * (n + 1)` half-point pot.
pub proof fn lemma_score_upto_self(a: Seq<i16>, n: int)
    requires
        n >= 0,
    ensures
        2 * score_upto(a, a, n) == n * (n + 1),
    decreases n,
{
    if n > 0 {
        lemma_score_upto_self(a, n - 1);
        assert(score_upto(a, a, n) == score_upto(a, a, n - 1) + n);
        assert((n - 1) * n + 2 * n == n * (n + 1)) by (nonlinear_arith);
    } else {
        assert(n * (n + 1) == 0) by (nonlinear_arith)
            requires n == 0;
    }
}

/// Law: a strategy battled against itself scores 55 half-points
/// (27.5 points) on each side.
pub proof fn lemma_battle_points_self(a: Seq<i16>)
    ensures
        battle_points(a, a) == 55,
{
    lemma_score_upto_self(a, 10);
}

/// Compares two ten-battlefield allocations. Returns the half-points of
/// each side; a strictly larger allocation takes a battlefield's doubled
/// weight, an exact tie gives each side the weight itself.
pub fn battle(p1: [i16; 10], p2: [i16; 10]) -> (r: (u32, u32))
    ensures
        r.0 == battle_points(p1@, p2@),
        r.1 == battle_points(p2@, p1@),
        r.0 + r.1 == 110,
{
    let mut p1_score: u32 = 0;
    let mut p2_score: u32 = 0;
    for castle_num in 0..10usize
        invariant
            p1_score == score_upto(p1@, p2@, castle_num as int),
            p2_score == score_upto(p2@, p1@, castle_num as int),
    {
        proof {
            lemma_score_upto_bounds(p1@, p2@, castle_num as int);
            lemma_score_upto_bounds(p2@, p1@, castle_num as int);
            assert((castle_num as int) * (castle_num as int + 1) <= 90) by (nonlinear_arith)
                requires castle_num < 10;
        }
        let weight: u32 = (castle_num as u32) + 1;
        if p1[castle_num] > p2[castle_num] {
            p1_score = p1_score + 2 * weight;
        } else if p1[castle_num] < p2[castle_num] {
            p2_score = p2_score + 2 * weight;
        } else {
            p1_score = p1_score + weight;
            p2_score = p2_score + weight;
        }
    }
    proof {
        lemma_battle_points_sum(p1@, p2@);
    }
    (p1_score, p2_score)
}

/// One strategy's record over a single round-robin pass.
#[derive(Debug, Hash, Clone, Copy, PartialEq, Eq, Structural)]
pub struct BattleScore {
    pub wins: u32,
    pub ties: u32,
    pub losses: u32,
}

impl BattleScore {
    /// A fresh record with nothing tallied yet.
    pub fn new() -> (r: Self)
        ensures
            r.wins == 0,
            r.ties == 0,
            r.losses == 0,
    {
        BattleScore { wins: 0, losses: 0, ties: 0 }
    }
}

} // verus!
