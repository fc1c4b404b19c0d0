//! Strategies and their split-point form.
//!
//! A strategy is ten non-negative troop counts summing to 100. It is
//! generated and stored through its *split points*: nine values in
//! `0..=100` in ascending order; the gaps between consecutive split points
//! (plus the two outer gaps to 0 and 100) are the troop counts.

use vstd::prelude::*;
use rand::Rng;

verus! {

/// The sum of the first `n` entries of a troop vector.
pub open spec fn sum_upto(s: Seq<i16>, n: int) -> int
    decreases n,
{
    if n <= 0 {
        0
    } else {
        sum_upto(s, n - 1) + s[n - 1]
    }
}

/// The whole troop count of a ten-entry strategy.
pub open spec fn total_troops(s: Seq<i16>) -> int {
    sum_upto(s, 10)
}

/// Every entry lies in `0..=100`.
pub open spec fn within_troop_range(s: Seq<i16>) -> bool {
    forall|i: int| 0 <= i < s.len() ==> 0 <= #[trigger] s[i] && s[i] <= 100
}

/// The entries never decrease from left to right.
pub open spec fn sorted_ascending(s: Seq<i16>) -> bool {
    forall|i: int, j: int| 0 <= i <= j < s.len() ==> s[i] <= s[j]
}

/// A well-formed strategy: ten non-negative troop counts that sum to
/// exactly 100.
pub open spec fn well_formed_strategy(d: [i16; 10]) -> bool {
    (forall|i: int| 0 <= i < 10 ==> d@[i] >= 0) && total_troops(d@) == 100
}

/// The split-point form of a troop vector: prefix sums, except that the
/// last split point is measured down from the full 100 troops.
pub open spec fn to_split_points(d: Seq<i16>) -> Seq<i16> {
    Seq::new(9, |i: int| if i < 8 {
        sum_upto(d, i + 1) as i16
    } else {
        (100 - d[9]) as i16
    })
}

/// The troop vector described by nine split points: the first split point,
/// the gaps between consecutive ones, and the gap from the last one to 100.
pub open spec fn to_distances(sp: Seq<i16>) -> Seq<i16> {
    Seq::new(10, |i: int| if i == 0 {
        sp[0]
    } else if i < 9 {
        (sp[i] - sp[i - 1]) as i16
    } else {
        (100 - sp[8]) as i16
    })
}

/// Partial sums only grow when all entries are non-negative.
proof fn lemma_sum_upto_monotone(s: Seq<i16>, m: int, n: int)
    requires
        0 <= m <= n,
        forall|i: int| 0 <= i < n ==> s[i] >= 0,
    ensures
        sum_upto(s, m) <= sum_upto(s, n),
    decreases n,
{
    if n > m {
        lemma_sum_upto_monotone(s, m, n - 1);
    }
}

/// Summing the gaps of a split-point form telescopes back to a split point.
proof fn lemma_distances_prefix(sp: Seq<i16>, n: int)
    requires
        sp.len() == 9,
        within_troop_range(sp),
        1 <= n <= 9,
    ensures
        sum_upto(to_distances(sp), n) == sp[n - 1],
    decreases n,
{
    if n > 1 {
        lemma_distances_prefix(sp, n - 1);
    } else {
        assert(sum_upto(to_distances(sp), 0) == 0);
    }
}

/// Converts nine split points to the ten gaps between them (and between
/// them and the ends of the 0..=100 troop line). The result always sums to
/// 100, and is a well-formed strategy whenever the split points are sorted.
pub fn split_points_to_array(split_points: &[i16; 9]) -> (r: [i16; 10])
    requires
        within_troop_range(split_points@),
    ensures
        r@ == to_distances(split_points@),
        total_troops(r@) == 100,
        sorted_ascending(split_points@) ==> well_formed_strategy(r),
{
    let first_val: i16 = split_points[0];
    let last_val: i16 = 100 - split_points[8];

    let mut result: [i16; 10] = [0; 10];
    result.set(0, first_val);
    result.set(9, last_val);
    for i in 0..8usize
        invariant
            result@.len() == 10,
            result@[0] == split_points@[0],
            result@[9] == 100 - split_points@[8],
            forall|k: int| 1 <= k <= i ==> result@[k] == split_points@[k] - split_points@[k - 1],
            within_troop_range(split_points@),
    {
        result.set(i + 1, split_points[i + 1] - split_points[i]);
    }

    proof {
        assert(result@ =~= to_distances(split_points@));
        lemma_distances_prefix(split_points@, 9);
        assert(total_troops(result@) == sum_upto(result@, 9) + result@[9]);
    }
    result
}

/// Every entry of a non-negative vector totalling 100 lies in `0..=100`.
proof fn lemma_entries_bounded(d: Seq<i16>, i: int)
    requires
        d.len() == 10,
        forall|k: int| 0 <= k < 10 ==> d[k] >= 0,
        total_troops(d) == 100,
        0 <= i < 10,
    ensures
        d[i] <= 100,
{
    lemma_sum_upto_monotone(d, i + 1, 10);
    lemma_sum_upto_monotone(d, 0, i);
}

/// Converts a strategy to its split-point form: running prefix sums, with
/// the last split point measured down from 100.
pub fn array_to_split_points(distribution: [i16; 10]) -> (r: [i16; 9])
    requires
        forall|k: int| 0 <= k < 10 ==> distribution@[k] >= 0,
        total_troops(distribution@) == 100,
    ensures
        r@ == to_split_points(distribution@),
{
    let mut split_points: [i16; 9] = [0; 9];
    for idx in 0..10usize
        invariant
            split_points@.len() == 9,
            forall|k: int| 0 <= k < idx && k < 8 ==> split_points@[k] == sum_upto(
                distribution@,
                k + 1,
            ),
            idx == 10 ==> split_points@[8] == 100 - distribution@[9],
            forall|k: int| 0 <= k < 10 ==> distribution@[k] >= 0,
            total_troops(distribution@) == 100,
    {
        proof {
            lemma_entries_bounded(distribution@, idx as int);
            lemma_sum_upto_monotone(distribution@, idx + 1, 10);
            lemma_sum_upto_monotone(distribution@, 0, idx as int);
        }
        if idx == 0 {
            split_points.set(idx, distribution[idx]);
        } else if idx == 9 {
            split_points.set(idx - 1, 100 - distribution[idx]);
        } else {
            let prev: i16 = split_points[idx - 1];
            split_points.set(idx, prev + distribution[idx]);
        }
    }
    proof {
        assert(split_points@ =~= to_split_points(distribution@));
    }
    split_points
}

/// Law: a well-formed strategy, taken to its split-point form and back,
/// is exactly the original strategy.
pub proof fn lemma_strategy_round_trip(d: Seq<i16>)
    requires
        d.len() == 10,
        forall|k: int| 0 <= k < 10 ==> d[k] >= 0,
        total_troops(d) == 100,
    ensures
        to_distances(to_split_points(d)) == d,
{
    let sp = to_split_points(d);
    assert forall|i: int| 0 <= i < 9 implies 0 <= #[trigger] sp[i] && sp[i] <= 100 by {
        lemma_entries_bounded(d, 9);
        if i < 8 {
            lemma_sum_upto_monotone(d, 0, i + 1);
            lemma_sum_upto_monotone(d, i + 1, 10);
        }
    }
    assert forall|i: int| 0 <= i < 10 implies to_distances(sp)[i] == d[i] by {
        lemma_entries_bounded(d, 9);
        if i == 0 {
            assert(sum_upto(d, 0) == 0);
            assert(sum_upto(d, 1) == d[0]);
            lemma_sum_upto_monotone(d, 1, 10);
        } else if i < 9 {
            lemma_sum_upto_monotone(d, 0, i);
            lemma_sum_upto_monotone(d, 0, i + 1);
            lemma_sum_upto_monotone(d, i, 10);
            lemma_sum_upto_monotone(d, i + 1, 10);
            assert(sum_upto(d, i + 1) == sum_upto(d, i) + d[i]);
            if i == 8 {
                assert(sum_upto(d, 10) == sum_upto(d, 9) + d[9]);
            }
        } else {
            assert(sum_upto(d, 10) == sum_upto(d, 9) + d[9]);
        }
    }
    assert(to_distances(sp) =~= d);
}

/// Law: nine split points in `0..=100`, taken to their troop vector and
/// back, are exactly the original split points.
pub proof fn lemma_split_points_round_trip(sp: Seq<i16>)
    requires
        sp.len() == 9,
        within_troop_range(sp),
    ensures
        to_split_points(to_distances(sp)) == sp,
{
    let d = to_distances(sp);
    assert forall|i: int| 0 <= i < 9 implies to_split_points(d)[i] == sp[i] by {
        if i < 8 {
            lemma_distances_prefix(sp, i + 1);
        }
    }
    assert(to_split_points(d) =~= sp);
}

/// Declares rand's `ThreadRng` so a handle to it can be created and
/// passed between the trusted draws below; Verus sees nothing inside it.
#[verifier::external_type_specification]
#[verifier::external_body]
pub struct ExThreadRng(rand::rngs::ThreadRng);

/// Relies on rand::thread_rng: a handle to the thread-local random
/// generator, used for every draw below.
#[verifier::external_body]
fn fresh_rng() -> rand::rngs::ThreadRng {
    rand::thread_rng()
}

/// Relies on rand::Rng::gen_range over the non-empty range 0..=100: the
/// draw lies within that range, and the call does not panic.
#[verifier::external_body]
fn draw_split_point(rng: &mut rand::rngs::ThreadRng) -> (r: i16)
    ensures
        0 <= r <= 100,
{
    rng.gen_range(0..=100)
}

/// Draws nine split points uniformly from `0..=100` and sorts them.
/// Nothing more can be promised of random draws than their range.
pub fn gen_uniform_random_split_points() -> (r: [i16; 9])
    ensures
        within_troop_range(r@),
        sorted_ascending(r@),
{
    let mut rng = fresh_rng();
    let mut split_points: [i16; 9] = [0; 9];

    for i in 0..9usize
        invariant
            split_points@.len() == 9,
            within_troop_range(split_points@),
    {
        split_points.set(i, draw_split_point(&mut rng));
    }

    // Insertion sort, so that the numbers are in ascending order.
    for i in 1..9usize
        invariant
            split_points@.len() == 9,
            within_troop_range(split_points@),
            forall|a: int, b: int| 0 <= a <= b < i ==> split_points@[a] <= split_points@[b],
    {
        let mut j: usize = i;
        while j > 0 && split_points[j - 1] > split_points[j]
            invariant
                0 <= j <= i < 9,
                split_points@.len() == 9,
                within_troop_range(split_points@),
                forall|a: int, b: int|
                    0 <= a <= b <= i && a != j && b != j ==> split_points@[a] <= split_points@[b],
                forall|b: int| j < b <= i ==> split_points@[j as int] <= split_points@[b],
            decreases j,
        {
            let tmp: i16 = split_points[j - 1];
            split_points.set(j - 1, split_points[j]);
            split_points.set(j, tmp);
            j = j - 1;
        }
    }
    split_points
}

/// Creates a random strategy: ten non-negative troop counts that sum to
/// exactly 100, drawn by uniform stick-breaking over the split points.
pub fn generate_uniform_random_distribution() -> (r: [i16; 10])
    ensures
        well_formed_strategy(r),
{
    split_points_to_array(&gen_uniform_random_split_points())
}

} // verus!
