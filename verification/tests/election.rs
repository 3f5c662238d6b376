use phragmen::{elect, elect_staked, PerU128, PhragmenResult, ACCURACY};

fn stake_of(x: &u64) -> u64 {
    if *x >= 10 {
        *x
    } else {
        0
    }
}

#[test]
fn self_vote_filters_candidates_without_stake() {
    let r = elect(1, 1, vec![10, 20, 5], vec![(30, vec![10, 5])], stake_of, true).unwrap();
    assert_eq!(r.winners, vec![10]);
    assert_eq!(r.assignments, vec![(30, vec![(10, ACCURACY)])]);
}

#[test]
fn too_few_standing_candidates_give_none() {
    // with self-voting only 10 and 20 stand
    assert!(elect(1, 3, vec![10, 20, 5], vec![(30, vec![10, 5])], stake_of, true).is_none());
    // without, all three stand
    assert!(elect(1, 3, vec![10, 20, 5], vec![(30, vec![10, 5])], stake_of, false).is_some());
    assert!(elect(1, 4, vec![10, 20, 5], vec![(30, vec![10, 5])], stake_of, false).is_none());
}

#[test]
fn elects_at_most_the_standing_candidates() {
    let r = elect(5, 0, vec![10, 20, 5], vec![(30, vec![10, 5])], stake_of, true).unwrap();
    assert_eq!(r.winners, vec![10, 20]);
    assert_eq!(r.assignments, vec![(30, vec![(10, ACCURACY)])]);
}

#[test]
fn no_candidates_elect_nobody() {
    let r = elect(3, 0, vec![], vec![(30, vec![10])], stake_of, false).unwrap();
    assert!(r.winners.is_empty());
    assert!(r.assignments.is_empty());
}

#[test]
fn shares_add_up_to_accuracy() {
    let candidates = vec![1, 2, 3, 4];
    let voters = vec![
        (10, vec![1, 2, 3]),
        (20, vec![1, 3]),
        (30, vec![2, 3, 4]),
        (40, vec![4, 1]),
        (50, vec![2, 7]),
    ];
    let PhragmenResult { winners, assignments } =
        elect(3, 1, candidates, voters.clone(), stake_of, false).unwrap();
    assert_eq!(winners.len(), 3);
    assert!(!assignments.is_empty());
    for (voter, shares) in &assignments {
        assert!(!shares.is_empty());
        let sum: u128 = shares.iter().map(|s| s.1).sum();
        assert_eq!(sum, ACCURACY, "voter {}", voter);
        let votes = &voters.iter().find(|v| v.0 == *voter).unwrap().1;
        for (c, _) in shares {
            assert!(winners.contains(c));
            assert!(votes.contains(c));
            assert_ne!(c, voter);
        }
    }
}

#[test]
fn staked_election_matches() {
    let a = elect(2, 2, vec![1, 2, 3], vec![(10, vec![1, 2]), (20, vec![1, 3]), (30, vec![2, 3])], stake_of, false)
        .unwrap();
    let b = elect_staked(
        2,
        2,
        vec![(1, 0), (2, 0), (3, 0)],
        vec![(10, 10, vec![1, 2]), (20, 20, vec![1, 3]), (30, 30, vec![2, 3])],
        false,
    )
    .unwrap();
    assert_eq!(a.winners, b.winners);
    assert_eq!(a.assignments, b.assignments);
    assert_eq!(b.winners, vec![3, 2]);
}

#[test]
fn votes_for_unknown_candidates_are_ignored() {
    let r = elect_staked(1, 1, vec![(1, 0)], vec![(10, 10, vec![8, 1, 9])], false).unwrap();
    assert_eq!(r.winners, vec![1]);
    assert_eq!(r.assignments, vec![(10, vec![(1, ACCURACY)])]);
}

#[test]
fn duplicate_votes_share_the_voter() {
    // a voter that votes twice for the same candidate is loaded once; the second edge takes no
    // load and its share is topped up by the remainder
    let r = elect_staked(1, 1, vec![(1, 0)], vec![(10, 10, vec![1, 1])], false).unwrap();
    assert_eq!(r.winners, vec![1]);
    assert_eq!(r.assignments.len(), 1);
    let shares = &r.assignments[0].1;
    assert_eq!(shares.len(), 2);
    assert_eq!(shares[0].1 + shares[1].1, ACCURACY);
}

#[test]
fn per_u128_fractions() {
    assert_eq!(PerU128::zero().parts(), 0);
    assert!(PerU128::zero().is_zero());
    assert_eq!(PerU128::one().parts(), u128::MAX);
    assert_eq!(PerU128::from_parts(7).parts(), 7);
    assert_eq!(PerU128::from_xth(0).parts(), u128::MAX);
    assert_eq!(PerU128::from_xth(1).parts(), u128::MAX);
    assert_eq!(PerU128::from_xth(4).parts(), u128::MAX / 4);
}
