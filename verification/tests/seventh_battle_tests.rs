use blotto::{
    log_2, next_power_of_2_after, run_tournament, seed_players,
    seventh_battle_for_riddler_nation, sort_according_to_inds,
};

#[test]
fn test_log_2() {
    let x = 32;
    assert_eq!(5, log_2(x));
}

#[test]
fn test_seed_players() {
    // For 4, expect to get:
    let want = vec![0, 3, 1, 2];
    let got = seed_players(4);
    assert_eq!(want, got);

    // For 8, expect:
    let want = vec![0, 7, 3, 4, 1, 6, 2, 5];
    let got = seed_players(8);
    assert_eq!(want, got);
}

#[test]
fn test_next_power_of_2_after() {
    let inputs = vec![(1, 2), (2, 2), (3, 4), (9, 16), (240, 256), (900, 1024)];
    for (input, want) in inputs {
        assert_eq!(Some(want), next_power_of_2_after(input));
    }
}

#[test]
fn test_sort_according_to_inds() {
    let v = vec![4, 3, 2, 1];
    let inds = vec![3, 2, 1, 0];
    assert_eq!(vec![1, 2, 3, 4], sort_according_to_inds(&v, &inds));
}

#[test]
fn test_tournament_1() {
    let p1: [i16; 10] = [10, 10, 10, 10, 10, 10, 10, 10, 10, 10];
    let p2: [i16; 10] = [0, 10, 10, 10, 10, 10, 10, 10, 10, 20];
    let players = vec![p1, p2];
    let got = run_tournament(&players);
    let want = vec![p2];
    assert_eq!(want, got);
}

#[test]
fn test_tournament_2() {
    let p1: [i16; 10] = [0, 10, 10, 10, 10, 10, 10, 10, 10, 20];
    let p2: [i16; 10] = [10, 10, 10, 10, 10, 10, 10, 10, 10, 10];
    let p3: [i16; 10] = [19, 18, 17, 16, 15, 5, 4, 3, 2, 1];
    let p4: [i16; 10] = [20, 19, 18, 17, 16, 4, 3, 2, 1, 0];
    let players = vec![p1, p4, p3, p2];
    let got = run_tournament(&players);
    let want = vec![p1];
    assert_eq!(want, got);
}

// Past the search ceiling of 2^49 there is no bracket size to offer.
#[test]
fn next_power_of_2_after_gives_up_past_the_ceiling() {
    assert_eq!(None, next_power_of_2_after((1usize << 49) + 1));
    assert_eq!(Some(1usize << 49), next_power_of_2_after(1usize << 49));
}

// On an exact tie the first (better-seeded) entrant of the pair advances.
#[test]
fn bracket_tie_advances_the_first_entrant() {
    // a and b split the pot 55:55: a takes battlefields 1 and 4, b takes
    // 2 and 3 (the same weight), and everything else is shared.
    let a: [i16; 10] = [1, 0, 0, 1, 0, 0, 0, 0, 0, 98];
    let b: [i16; 10] = [0, 1, 1, 0, 0, 0, 0, 0, 0, 98];
    assert_eq!(run_tournament(&vec![a, b]), vec![a]);
    assert_eq!(run_tournament(&vec![b, a]), vec![b]);
}

// At every bracket level the 1-based ranks of each pair sum to the
// level constant; for the first round of 16 that is 17.
#[test]
fn seed_pairs_sum_to_the_level_constant() {
    let seeds = seed_players(16);
    assert_eq!(seeds.len(), 16);
    for pair in seeds.chunks(2) {
        assert_eq!((pair[0] + 1) + (pair[1] + 1), 17);
    }
    let mut sorted = seeds.clone();
    sorted.sort();
    let identity: Vec<usize> = (0..16).collect();
    assert_eq!(sorted, identity);
}

// A full random run produces exactly one winner, itself a well-formed
// strategy.
#[test]
fn seventh_battle_produces_one_winner() {
    let winners = seventh_battle_for_riddler_nation(5);
    assert_eq!(winners.len(), 1);
    assert_eq!(winners[0].iter().map(|&t| t as i32).sum::<i32>(), 100);
}
