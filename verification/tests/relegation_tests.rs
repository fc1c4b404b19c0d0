use blotto::{dedup_strategies, tournament};

// A strategy that strictly dominates the field finishes last in the
// returned order (i.e. best), and the order is a complete reordering of
// the input: length three, no duplicates, no omissions.
#[test]
fn relegation_ranks_a_dominant_strategy_best() {
    let all_on_last: [i16; 10] = [0, 0, 0, 0, 0, 0, 0, 0, 0, 100];
    let all_on_first: [i16; 10] = [100, 0, 0, 0, 0, 0, 0, 0, 0, 0];
    let all_on_second: [i16; 10] = [0, 100, 0, 0, 0, 0, 0, 0, 0, 0];
    let players = vec![all_on_first, all_on_second, all_on_last];

    let order = tournament(&players, false);

    assert_eq!(order.len(), 3);
    assert_eq!(*order.last().unwrap(), all_on_last);
    for p in &players {
        assert_eq!(order.iter().filter(|&q| q == p).count(), 1);
    }
}

// Identical allocations are merged into a single entrant before play.
#[test]
fn relegation_merges_duplicate_strategies() {
    let a: [i16; 10] = [10, 10, 10, 10, 10, 10, 10, 10, 10, 10];
    let b: [i16; 10] = [0, 0, 0, 0, 0, 0, 0, 0, 0, 100];
    let order = tournament(&vec![a, b, a, b, a], false);
    assert_eq!(order.len(), 2);
    assert!(order.contains(&a) && order.contains(&b));
}

#[test]
fn dedup_keeps_first_occurrences_in_order() {
    let a: [i16; 10] = [10, 10, 10, 10, 10, 10, 10, 10, 10, 10];
    let b: [i16; 10] = [0, 0, 0, 0, 0, 0, 0, 0, 0, 100];
    let c: [i16; 10] = [100, 0, 0, 0, 0, 0, 0, 0, 0, 0];
    assert_eq!(dedup_strategies(&vec![b, a, b, c, a]), vec![b, a, c]);
    assert_eq!(dedup_strategies(&vec![a]), vec![a]);
    assert_eq!(dedup_strategies(&Vec::new()), Vec::<[i16; 10]>::new());
}

// When the two weakest entrants share the fewest victory points but not
// their raw win counts, the one with fewer wins is relegated first, even
// though it stands later in the population order.
#[test]
fn relegation_breaks_vp_ties_by_fewer_wins() {
    let p0: [i16; 10] = [5, 2, 27, 26, 4, 3, 4, 4, 12, 13];
    let p1: [i16; 10] = [26, 5, 1, 3, 9, 6, 32, 11, 4, 3];
    let p2: [i16; 10] = [11, 1, 14, 18, 1, 42, 0, 2, 4, 7];
    let p3: [i16; 10] = [14, 0, 6, 5, 1, 3, 34, 15, 21, 1];
    // p0 and p2 both hold two victory points, but p0 has one win to p2's
    // none: p2 goes first.
    let order = tournament(&vec![p0, p1, p2, p3], false);
    assert_eq!(order, vec![p2, p0, p1, p3]);
}

// When the two weakest entrants share both victory points and raw wins,
// the earlier one in the (deduplicated) population order is relegated
// first.
#[test]
fn relegation_breaks_full_ties_by_population_order() {
    // a and b tie with each other and both lose to the dominant entrant,
    // so they share one tie and one loss apiece.
    let a: [i16; 10] = [1, 0, 0, 1, 0, 0, 0, 0, 0, 98];
    let b: [i16; 10] = [0, 1, 1, 0, 0, 0, 0, 0, 0, 98];
    let c: [i16; 10] = [0, 0, 0, 0, 0, 0, 0, 0, 0, 100];

    assert_eq!(tournament(&vec![a, b, c], false), vec![a, b, c]);
    assert_eq!(tournament(&vec![b, a, c], false), vec![b, a, c]);
}
