use blotto::{
    array_to_split_points, battle, gen_uniform_random_split_points,
    generate_uniform_random_distribution, run_battles_slice, run_battles_set,
    split_points_to_array,
};

#[test]
fn test_split_to_array_round_trip() {
    // We'll test that converting a split point array to an array of distances and back
    // to a split point array is the same as the original array.
    // We do this 10_000 times, to make sure that the randomness is working.
    for _ in 0..10000 {
        let split_points = gen_uniform_random_split_points();
        let distances = split_points_to_array(&split_points);
        let split_points_back = array_to_split_points(distances);
        assert_eq!(split_points, split_points_back);
    }
}

#[test]
fn test_run_battles() {
    let p1: [i16; 10] = [10, 10, 10, 10, 10, 10, 10, 10, 10, 10];
    let p2: [i16; 10] = [100, 0, 0, 0, 0, 0, 0, 0, 0, 0];
    let p3: [i16; 10] = [90, 0, 0, 0, 0, 0, 0, 0, 0, 10];

    let players = vec![p1, p2, p3];
    let got: Vec<[i16; 10]> = run_battles_slice(&players, None)
        .iter()
        .map(|(troops, _)| *troops)
        .collect();
    let want = vec![p2, p3, p1];
    assert_eq!(want, got);
}

// Scores come back in half-points: the two sides always share the full
// 110 half-points, i.e. 55 points.
#[test]
fn battle_shares_the_full_pot() {
    let p1: [i16; 10] = [10, 10, 10, 10, 10, 10, 10, 10, 10, 10];
    let p2: [i16; 10] = [11, 9, 10, 10, 10, 10, 10, 10, 10, 10];
    let (s1, s2) = battle(p1, p2);
    // p2 takes battlefield 1, p1 takes battlefield 2, the rest split.
    assert_eq!((s1, s2), (56, 54));
    assert_eq!(s1 + s2, 110);

    let p3: [i16; 10] = [0, 1, 2, 3, 4, 16, 17, 18, 19, 20];
    let (s1, s2) = battle(p1, p3);
    assert_eq!(s1 + s2, 110);
}

// A strategy against itself splits every battlefield: 55 half-points
// (27.5 points) each.
#[test]
fn battle_against_itself_is_even() {
    let p: [i16; 10] = [5, 0, 15, 10, 10, 10, 10, 10, 10, 20];
    assert_eq!(battle(p, p), (55, 55));
    assert_eq!(55 as f64 / 2.0, 27.5);
}

// Over a whole round-robin the wins equal the losses, and every ordered
// pair leaves exactly one mark: n * (n - 1) in all.
#[test]
fn round_robin_conserves_wins_and_losses() {
    let players = vec![
        [10, 10, 10, 10, 10, 10, 10, 10, 10, 10],
        [100, 0, 0, 0, 0, 0, 0, 0, 0, 0],
        [90, 0, 0, 0, 0, 0, 0, 0, 0, 10],
        [0, 0, 0, 0, 0, 0, 0, 0, 0, 100],
        [1, 0, 0, 1, 0, 0, 0, 0, 0, 98],
    ];
    let records = run_battles_set(&players);
    assert_eq!(records.len(), players.len());
    let n = players.len() as u64;
    let total_wins: u64 = records.iter().map(|(_, bs)| bs.wins as u64).sum();
    let total_ties: u64 = records.iter().map(|(_, bs)| bs.ties as u64).sum();
    let total_losses: u64 = records.iter().map(|(_, bs)| bs.losses as u64).sum();
    assert_eq!(total_wins, total_losses);
    assert_eq!(total_wins + total_ties + total_losses, n * (n - 1));
    for (strategy, bs) in &records {
        assert!(players.contains(strategy));
        assert_eq!(bs.wins + bs.ties + bs.losses, players.len() as u32 - 1);
    }
}

// The worst-to-best sort is stable and ascending by wins.
#[test]
fn run_battles_slice_sorts_ascending_by_wins() {
    let players = vec![
        [0, 0, 0, 0, 0, 0, 0, 0, 0, 100],
        [10, 10, 10, 10, 10, 10, 10, 10, 10, 10],
        [100, 0, 0, 0, 0, 0, 0, 0, 0, 0],
        [90, 0, 0, 0, 0, 0, 0, 0, 0, 10],
    ];
    let ranked = run_battles_slice(&players, None);
    for pair in ranked.windows(2) {
        assert!(pair[0].1.wins <= pair[1].1.wins);
    }
    let top = run_battles_slice(&players, Some(2));
    assert_eq!(top.len(), 2);
    assert_eq!(&ranked[..2], &top[..]);
    let all = run_battles_slice(&players, Some(100));
    assert_eq!(all, ranked);
}

// A single entrant is the smallest population the engine accepts: it has
// nobody to battle and an all-zero record.
#[test]
fn round_robin_of_one_has_an_empty_record() {
    let p: [i16; 10] = [10, 10, 10, 10, 10, 10, 10, 10, 10, 10];
    let records = run_battles_set(&vec![p]);
    assert_eq!(records.len(), 1);
    assert_eq!(records[0].0, p);
    assert_eq!(
        (records[0].1.wins, records[0].1.ties, records[0].1.losses),
        (0, 0, 0)
    );
    let ranked = run_battles_slice(&vec![p], None);
    assert_eq!(ranked.len(), 1);
    assert_eq!(ranked[0].0, p);
}

// The random generator produces a well-formed strategy: ten counts in
// 0..=100 summing to exactly 100, from sorted split points in 0..=100.
#[test]
fn generated_distributions_are_well_formed() {
    for _ in 0..1000 {
        let sp = gen_uniform_random_split_points();
        for w in sp.windows(2) {
            assert!(w[0] <= w[1]);
        }
        for v in sp {
            assert!((0..=100).contains(&v));
        }
        let d = generate_uniform_random_distribution();
        assert_eq!(d.iter().map(|&t| t as i32).sum::<i32>(), 100);
        for v in d {
            assert!((0..=100).contains(&v));
        }
    }
}
