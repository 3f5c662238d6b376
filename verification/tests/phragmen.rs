use std::collections::BTreeMap;

use phragmen::{elect, PhragmenResult, ACCURACY};

/// Same length, and every expected element is found in the actual list.
fn assert_eq_unordered<T: PartialEq + std::fmt::Debug>(actual: &[T], expected: &[T]) {
    assert_eq!(actual.len(), expected.len(), "{:?} vs {:?}", actual, expected);
    for e in expected {
        assert!(actual.contains(e), "{:?} not in {:?}", e, actual);
    }
}

fn stake_of(x: &u64) -> u64 {
    if *x >= 10 {
        *x
    } else {
        0
    }
}

#[derive(Default, Debug)]
struct FloatCandidate {
    who: u64,
    score: f64,
    approval_stake: f64,
    elected: bool,
}

#[derive(Default, Debug)]
struct FloatVoter {
    who: u64,
    edges: Vec<FloatEdge>,
    budget: f64,
    load: f64,
}

#[derive(Default, Debug)]
struct FloatEdge {
    who: u64,
    load: f64,
    candidate_index: usize,
}

#[derive(Debug)]
struct FloatResult {
    winners: Vec<u64>,
    assignments: Vec<(u64, Vec<(u64, f64)>)>,
}

fn to_float(x: u64) -> f64 {
    x as f64
}

/// The same election in floating point, as a reference for the fixed-point one.
fn elect_poc(
    candidate_count: usize,
    minimum_candidate_count: usize,
    initial_candidates: Vec<u64>,
    initial_voters: Vec<(u64, Vec<u64>)>,
    stake: fn(&u64) -> u64,
    self_vote: bool,
) -> Option<FloatResult> {
    let mut elected_candidates: Vec<u64>;
    let mut assigned: Vec<(u64, Vec<(u64, f64)>)>;
    let mut c_idx_cache = BTreeMap::<u64, usize>::new();
    let mut voters: Vec<FloatVoter> = Vec::new();
    let mut candidates: Vec<FloatCandidate> = Vec::new();
    for who in initial_candidates {
        if self_vote {
            let s = to_float(stake(&who));
            if s != 0f64 {
                let i = candidates.len();
                voters.push(FloatVoter {
                    who,
                    edges: vec![FloatEdge { who, candidate_index: i, ..Default::default() }],
                    budget: s,
                    load: 0f64,
                });
                c_idx_cache.insert(who, i);
                candidates.push(FloatCandidate { who, approval_stake: s, ..Default::default() });
            }
        } else {
            c_idx_cache.insert(who, candidates.len());
            candidates.push(FloatCandidate { who, ..Default::default() });
        }
    }
    if candidates.len() < minimum_candidate_count {
        return None;
    }
    for (who, votes) in initial_voters {
        let voter_stake = to_float(stake(&who));
        let mut edges: Vec<FloatEdge> = Vec::new();
        for v in votes {
            if let Some(idx) = c_idx_cache.get(&v) {
                candidates[*idx].approval_stake = candidates[*idx].approval_stake + voter_stake;
                edges.push(FloatEdge { who: v, candidate_index: *idx, ..Default::default() });
            }
        }
        voters.push(FloatVoter { who, edges, budget: voter_stake, load: 0f64 });
    }
    let to_elect = candidate_count.min(candidates.len());
    elected_candidates = Vec::new();
    assigned = Vec::new();
    for _round in 0..to_elect {
        for c in &mut candidates {
            if !c.elected {
                c.score = 1.0 / c.approval_stake;
            }
        }
        for n in &voters {
            for e in &n.edges {
                let c = &mut candidates[e.candidate_index];
                if !c.elected && !(c.approval_stake == 0f64) {
                    c.score += n.budget * n.load / c.approval_stake;
                }
            }
        }
        let mut best: Option<usize> = None;
        for (i, c) in candidates.iter().enumerate() {
            if !c.elected {
                match best {
                    None => best = Some(i),
                    Some(b) => {
                        if c.score < candidates[b].score {
                            best = Some(i)
                        }
                    }
                }
            }
        }
        if let Some(w) = best {
            candidates[w].elected = true;
            let winner_who = candidates[w].who;
            let winner_score = candidates[w].score;
            for n in &mut voters {
                for e in &mut n.edges {
                    if e.who == winner_who {
                        e.load = winner_score - n.load;
                        n.load = winner_score;
                    }
                }
            }
            elected_candidates.push(winner_who);
        } else {
            break;
        }
    }
    for n in &mut voters {
        let mut assignment = (n.who, vec![]);
        for e in &mut n.edges {
            if let Some(c) = elected_candidates.iter().cloned().find(|c| *c == e.who) {
                if c != n.who {
                    let ratio = e.load / n.load;
                    assignment.1.push((e.who, ratio));
                }
            }
        }
        assigned.push(assignment);
    }
    Some(FloatResult { winners: elected_candidates, assignments: assigned })
}

#[test]
fn float_poc_works() {
    let candidates = vec![1, 2, 3];
    let voters = vec![(10, vec![1, 2]), (20, vec![1, 3]), (30, vec![2, 3])];
    let FloatResult { winners, assignments } =
        elect_poc(2, 2, candidates, voters, stake_of, false).unwrap();

    assert_eq_unordered(&winners, &[2, 3]);
    assert_eq_unordered(
        &assignments,
        &[(10, vec![(2, 1.0)]), (20, vec![(3, 1.0)]), (30, vec![(2, 0.5), (3, 0.5)])],
    );
}

#[test]
fn phragmen_works() {
    let candidates = vec![1, 2, 3];
    let voters = vec![(10, vec![1, 2]), (20, vec![1, 3]), (30, vec![2, 3])];
    let PhragmenResult { winners, assignments } =
        elect(2, 2, candidates, voters, stake_of, false).unwrap();

    assert_eq_unordered(&winners, &[2, 3]);
    assert_eq_unordered(
        &assignments,
        &[
            (10, vec![(2, ACCURACY)]),
            (20, vec![(3, ACCURACY)]),
            (30, vec![(2, ACCURACY / 2), (3, ACCURACY / 2)]),
        ],
    );
}
