use std::collections::BTreeMap;

use phragmen::{do_equalize, equalize, equalize_round, Support, SupportMap};

fn support(total: u128, others: Vec<(u64, u128)>) -> Support {
    Support { own: 0, total, others }
}

fn two_candidates() -> SupportMap {
    let mut supports: SupportMap = BTreeMap::new();
    supports.insert(1, support(50, vec![(100, 20), (5, 30)]));
    supports.insert(2, support(20, vec![(100, 10), (6, 10)]));
    supports
}

#[test]
fn do_equalize_spreads_least_supported_first() {
    let mut supports = two_candidates();
    let mut edges = vec![(1u64, 20u128), (2u64, 10u128)];
    let diff = do_equalize(&100, 30, &mut edges, &mut supports, 0);
    assert_eq!(diff, 30);
    assert_eq!(edges, vec![(2, 25), (1, 5)]);
    assert_eq!(supports[&1].total, 35);
    assert_eq!(supports[&1].others, vec![(5, 30), (100, 5)]);
    assert_eq!(supports[&2].total, 35);
    assert_eq!(supports[&2].others, vec![(6, 10), (100, 25)]);
}

#[test]
fn do_equalize_within_tolerance_changes_nothing() {
    let mut supports = two_candidates();
    let mut edges = vec![(1u64, 20u128), (2u64, 10u128)];
    let diff = do_equalize(&100, 30, &mut edges, &mut supports, 100);
    assert_eq!(diff, 30);
    assert_eq!(edges, vec![(1, 20), (2, 10)]);
    assert_eq!(supports[&1].total, 50);
    assert_eq!(supports[&2].total, 20);
    assert_eq!(supports[&2].others, vec![(100, 10), (6, 10)]);
}

#[test]
fn do_equalize_without_edges_returns_zero() {
    let mut supports = two_candidates();
    let mut edges: Vec<(u64, u128)> = vec![];
    assert_eq!(do_equalize(&100, 30, &mut edges, &mut supports, 0), 0);
    assert_eq!(supports[&1].total, 50);
    assert_eq!(supports[&2].total, 20);
}

#[test]
fn do_equalize_without_backing_uses_budget_as_difference() {
    // the voter's edges carry no stake: its difference is its whole budget
    let mut supports = two_candidates();
    let mut edges = vec![(1u64, 0u128), (2u64, 0u128)];
    let diff = do_equalize(&7, 40, &mut edges, &mut supports, 1000);
    assert_eq!(diff, 40);
    // keyed by totals 50 and 20: candidate 2 first; cumulative 20, then 50 * 1 - 20 = 30 <= 40
    // so cumulative 70; excess 110, split 2, share 55
    assert_eq!(edges, vec![(2, 35), (1, 5)]);
    assert_eq!(supports[&2].total, 55);
    assert_eq!(supports[&1].total, 55);
}

#[test]
fn do_equalize_ignores_unsupported_candidates() {
    let mut supports = two_candidates();
    let mut edges = vec![(9u64, 10u128), (2u64, 10u128)];
    let diff = do_equalize(&100, 30, &mut edges, &mut supports, 0);
    // backed: only candidate 2 (total 20); spread 0, unspent 10
    assert_eq!(diff, 10);
    // candidate 9 has no support: key 0, comes first, is skipped in the walk and the hand-out
    // candidate 2 after taking back: total 10, idx 1: 10 - 0 <= 30, cumulative 10
    // excess 40, split 2, share 20: candidate 2 gets 10
    assert_eq!(edges, vec![(9, 0), (2, 10)]);
    assert_eq!(supports[&2].total, 20);
    assert_eq!(supports[&2].others, vec![(6, 10), (100, 10)]);
    assert!(!supports.contains_key(&9));
}

#[test]
fn equalize_runs_until_within_tolerance() {
    let mut supports = two_candidates();
    let assignments = vec![(100u64, vec![(1u64, 20u128), (2u64, 10u128)])];
    equalize(assignments, &mut supports, 1, 10, |_| 30);
    assert_eq!(supports[&1].total, 35);
    assert_eq!(supports[&2].total, 35);
    assert_eq!(supports[&1].others, vec![(5, 30), (100, 5)]);
    assert_eq!(supports[&2].others, vec![(6, 10), (100, 25)]);
}

#[test]
fn equalize_without_iterations_changes_nothing() {
    let mut supports = two_candidates();
    let assignments = vec![(100u64, vec![(1u64, 20u128), (2u64, 10u128)])];
    equalize(assignments, &mut supports, 0, 0, |_: &u64| -> u64 { panic!("no pass runs") });
    assert_eq!(supports[&1].total, 50);
    assert_eq!(supports[&2].total, 20);
}

#[test]
fn equalize_keeps_candidates() {
    let mut supports = two_candidates();
    let assignments = vec![
        (100u64, vec![(1u64, 20u128), (2u64, 10u128)]),
        (5u64, vec![(1u64, 30u128)]),
        (6u64, vec![(2u64, 10u128), (3u64, 5u128)]),
    ];
    equalize(assignments, &mut supports, 0, 3, |v: &u64| if *v == 6 { 10 } else { 30 });
    let keys: Vec<u64> = supports.keys().cloned().collect();
    assert_eq!(keys, vec![1, 2]);
}

#[test]
fn equalize_leaves_unnamed_candidates_alone() {
    let mut supports = two_candidates();
    supports.insert(3, support(77, vec![(8, 77)]));
    let assignments = vec![(100u64, vec![(1u64, 20u128), (2u64, 10u128)])];
    equalize(assignments, &mut supports, 0, 4, |_| 30);
    assert_eq!(supports[&3].total, 77);
    assert_eq!(supports[&3].others, vec![(8, 77)]);
    assert_eq!(supports[&1].total, 35);
    assert_eq!(supports[&2].total, 35);
}

#[test]
fn do_equalize_keeps_the_voters_candidates() {
    let mut supports = two_candidates();
    let mut edges = vec![(2u64, 3u128), (1u64, 1u128), (2u64, 4u128)];
    do_equalize(&100, 9, &mut edges, &mut supports, 0);
    let mut whos: Vec<u64> = edges.iter().map(|e| e.0).collect();
    whos.sort();
    assert_eq!(whos, vec![1, 2, 2]);
}

#[test]
fn do_equalize_fills_the_least_supported_first() {
    let mut supports: SupportMap = BTreeMap::new();
    supports.insert(1, Support { own: 0, total: 0, others: vec![] });
    supports.insert(2, Support { own: 100, total: 100, others: vec![] });
    supports.insert(3, Support { own: 1000, total: 1000, others: vec![] });
    let mut edges = vec![(1u64, 0u128), (2u64, 0u128), (3u64, 0u128)];
    let diff = do_equalize(&7, 10, &mut edges, &mut supports, 0);
    assert_eq!(diff, 10);
    assert_eq!(edges, vec![(1, 10), (2, 0), (3, 0)]);
    assert_eq!(supports[&1].total, 10);
    assert_eq!(supports[&1].others, vec![(7, 10)]);
    assert_eq!(supports[&2].total, 100);
    assert!(supports[&2].others.is_empty());
    assert_eq!(supports[&3].total, 1000);
    assert!(supports[&3].others.is_empty());
}

#[test]
fn do_equalize_lifts_all_to_one_level() {
    // taken back: 1 -> 10, 2 -> 20, 3 -> 40; budget 50 lifts all three to (50 + 70) / 3 = 40
    let mut supports: SupportMap = BTreeMap::new();
    supports.insert(1, Support { own: 10, total: 15, others: vec![(7, 5)] });
    supports.insert(2, Support { own: 20, total: 20, others: vec![] });
    supports.insert(3, Support { own: 40, total: 40, others: vec![] });
    let mut edges = vec![(3u64, 0u128), (1u64, 5u128), (2u64, 0u128)];
    do_equalize(&7, 50, &mut edges, &mut supports, 0);
    assert_eq!(edges, vec![(1, 30), (2, 20), (3, 0)]);
    assert_eq!(supports[&1].total, 40);
    assert_eq!(supports[&1].others, vec![(7, 30)]);
    assert_eq!(supports[&2].total, 40);
    assert_eq!(supports[&3].total, 40);
    assert_eq!(supports[&3].others, vec![(7, 0)]);
}

#[test]
fn equalize_round_reports_the_greatest_difference() {
    let mut supports = two_candidates();
    let mut assignments = vec![(100u64, vec![(1u64, 20u128), (2u64, 10u128)])];
    let max = equalize_round(&mut assignments, &vec![30], &mut supports, 0);
    assert_eq!(max, 30);
    assert_eq!(assignments[0].1, vec![(2, 25), (1, 5)]);
}

fn consistent(supports: &SupportMap) -> bool {
    supports
        .values()
        .all(|s| s.total == s.own + s.others.iter().map(|e| e.1).sum::<u128>())
}

fn three_candidates() -> SupportMap {
    // taken back from voter 7: candidate 1 at 0, candidate 2 at 4, candidate 3 at 100
    let mut supports: SupportMap = BTreeMap::new();
    supports.insert(1, Support { own: 0, total: 3, others: vec![(7, 3)] });
    supports.insert(2, Support { own: 4, total: 6, others: vec![(7, 2)] });
    supports.insert(3, Support { own: 90, total: 105, others: vec![(8, 10), (7, 5)] });
    supports
}

#[test]
fn do_equalize_stops_at_the_first_candidate_it_cannot_lift() {
    let mut supports = three_candidates();
    let mut edges = vec![(3u64, 5u128), (1u64, 3u128), (2u64, 2u128)];
    do_equalize(&7, 10, &mut edges, &mut supports, 0);
    // lifting 0 and 4 to 4 costs 4; lifting them to 100 costs 196 > 10: two ways, level 14 / 2
    assert_eq!(edges, vec![(1, 7), (2, 3), (3, 0)]);
    assert_eq!(supports[&1].total, 7);
    assert_eq!(supports[&2].total, 7);
    assert_eq!(supports[&3].total, 100);
    assert_eq!(supports[&3].others, vec![(8, 10)]);
    assert_eq!(edges.iter().map(|e| e.1).sum::<u128>(), 10);
}

#[test]
fn do_equalize_leaves_the_remainder_of_the_split_unspent() {
    let mut supports = three_candidates();
    let mut edges = vec![(3u64, 5u128), (1u64, 3u128), (2u64, 2u128)];
    do_equalize(&7, 11, &mut edges, &mut supports, 0);
    // level 15 / 2 = 7: 11 - 15 % 2 = 10 handed out
    assert_eq!(edges, vec![(1, 7), (2, 3), (3, 0)]);
    assert_eq!(edges.iter().map(|e| e.1).sum::<u128>(), 10);
}

#[test]
fn do_equalize_returns_a_permutation_in_order_of_taken_back_support() {
    let mut supports = three_candidates();
    let mut edges = vec![(3u64, 5u128), (2u64, 2u128), (1u64, 3u128)];
    do_equalize(&7, 1000, &mut edges, &mut supports, 0);
    let mut got: Vec<u64> = edges.iter().map(|e| e.0).collect();
    assert_eq!(got, vec![1, 2, 3]);
    got.sort();
    assert_eq!(got, vec![1, 2, 3]);
    // everything can be lifted: level (1000 + 104) / 3 = 368, remainder 0
    assert_eq!(edges, vec![(1, 368), (2, 364), (3, 268)]);
    assert_eq!(edges.iter().map(|e| e.1).sum::<u128>(), 1000);
}

#[test]
fn do_equalize_keeps_supports_consistent() {
    let mut supports = three_candidates();
    assert!(consistent(&supports));
    let mut edges = vec![(3u64, 5u128), (1u64, 3u128), (2u64, 2u128)];
    do_equalize(&7, 10, &mut edges, &mut supports, 0);
    assert!(consistent(&supports));
    for (c, w) in &edges {
        let mine: u128 = supports[c].others.iter().filter(|e| e.0 == 7).map(|e| e.1).sum();
        assert_eq!(mine, *w);
    }
}

#[test]
fn equalize_keeps_supports_consistent() {
    let mut supports = three_candidates();
    let assignments = vec![(7u64, vec![(3u64, 5u128), (1u64, 3u128), (2u64, 2u128)]), (8u64, vec![(3u64, 10u128)])];
    equalize(assignments, &mut supports, 0, 3, |_: &u64| 10u64);
    assert!(consistent(&supports));
}

#[test]
fn do_equalize_with_saturating_supports_stays_within_budget() {
    let half = 1u128 << 127;
    let mut supports: SupportMap = BTreeMap::new();
    supports.insert(1, support(half, vec![]));
    supports.insert(2, support(half, vec![]));
    supports.insert(3, support(u128::MAX - 1, vec![]));
    let mut edges = vec![(1u64, 0u128), (2u64, 0u128), (3u64, 0u128)];
    let diff = do_equalize(&7, 10, &mut edges, &mut supports, 0);
    assert_eq!(diff, 10);
    // the sums saturate: the split of u128::MAX three ways lies below every support
    assert_eq!(edges.iter().map(|e| e.1).sum::<u128>(), 0);
    assert_eq!(edges[2], (3, 0));
    assert_eq!(supports[&1].total, half);
    assert_eq!(supports[&2].total, half);
    assert_eq!(supports[&3].total, u128::MAX - 1);
}

#[test]
fn equalize_keeps_each_voter_within_its_stake() {
    let mut supports = three_candidates();
    let assignments = vec![(7u64, vec![(3u64, 5u128), (1u64, 3u128), (2u64, 2u128)]), (8u64, vec![(3u64, 10u128)])];
    equalize(assignments, &mut supports, 0, 4, |_: &u64| 10u64);
    for voter in [7u64, 8u64] {
        let committed: u128 = supports
            .values()
            .map(|s| s.others.iter().filter(|e| e.0 == voter).map(|e| e.1).sum::<u128>())
            .sum();
        assert!(committed <= 10);
    }
}
