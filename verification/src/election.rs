//! Sequential Phragmén election.

use std::collections::BTreeMap;
use vstd::prelude::*;
use crate::arith::{sat_add, saturating_mul, ExtendedBalance, SCALE_FACTOR};
use crate::election_lemmas::{
    lemma_index_of, lemma_load_sum_elem, lemma_round, lemma_start_invariant,
    lemma_vote_weight_bound,
};
use crate::election_spec::{
    add_voters, as_elected, assignments_of, cast_votes, edge_ok, edge_scores, elect_outcome, grown,
    index_of, initial_voters, load_sum, min_unelected, normalize, prepared, round,
    round_invariant, rounds, scored, settle_edges, settle_voter, settle_voters,
    standing_candidates, to_elect, unloaded, vote_weight, voter_models, voter_ok, voter_scores,
    well_formed, with_approval, with_score, Election,
};
use crate::per_u128::{xth, PerU128};
use crate::shares::{normalize_shares, voter_shares};
use crate::types::{
    assignments_view, AccountId, Candidate, Edge, PhragmenAssignment, PhragmenResult, Voter,
    VoterModel,
};

verus! {

/// The views of voters handed in with their stakes.
pub open spec fn staked_voters_view(s: Seq<(AccountId, u64, Vec<AccountId>)>) -> Seq<
    (AccountId, u64, Seq<AccountId>),
> {
    s.map_values(|x: (AccountId, u64, Vec<AccountId>)| (x.0, x.1, x.2@))
}

/// `m` maps each identifier to the index under which the candidate is found.
pub open spec fn indexes(m: Map<AccountId, usize>, cands: Seq<Candidate>) -> bool {
    forall|w: AccountId|
        #![trigger m.contains_key(w)]
        #![trigger index_of(cands, w)]
        (m.contains_key(w) <==> index_of(cands, w) is Some) && (m.contains_key(w) ==> index_of(
            cands,
            w,
        ) == Some(m[w] as int))
}

/// Collects the candidates, and with self-voting each candidate's vote for itself.
fn collect_candidates(staked: &Vec<(AccountId, u64)>, self_vote: bool) -> (r: (
    Vec<Candidate>,
    Vec<Voter>,
    BTreeMap<AccountId, usize>,
))
    ensures
        r.0@ == standing_candidates(staked@, self_vote),
        voter_models(r.1@) == initial_voters(r.0@, self_vote),
        indexes(r.2@, r.0@),
        well_formed(r.0@, voter_models(r.1@)),
        forall|i: int| 0 <= i < r.1@.len() ==> unloaded(#[trigger] r.1@[i]@),
        forall|k: int| 0 <= k < r.0@.len() ==> !(#[trigger] r.0@[k]).elected,
{
    let mut candidates: Vec<Candidate> = Vec::new();
    let mut voters: Vec<Voter> = Vec::new();
    let mut cache: BTreeMap<AccountId, usize> = BTreeMap::new();
    let n = staked.len();
    for i in 0..n
        invariant
            n == staked@.len(),
            candidates@ == standing_candidates(staked@.take(i as int), self_vote),
            voter_models(voters@) == initial_voters(candidates@, self_vote),
            indexes(cache@, candidates@),
            well_formed(candidates@, voter_models(voters@)),
            forall|i: int| 0 <= i < voters@.len() ==> unloaded(#[trigger] voters@[i]@),
            forall|k: int|
                0 <= k < candidates@.len() ==> !(#[trigger] candidates@[k]).elected
                    && candidates@[k].approval_stake <= u64::MAX,
    {
        proof {
            assert(staked@.take(i + 1).drop_last() =~= staked@.take(i as int));
        }
        let (who, stake) = staked[i];
        if !self_vote || stake != 0 {
            let idx = candidates.len();
            let approval: ExtendedBalance = if self_vote {
                stake as u128
            } else {
                0
            };
            let ghost before = candidates@;
            let ghost vbefore = voter_models(voters@);
            candidates.push(
                Candidate { who, score: PerU128::zero(), approval_stake: approval, elected: false },
            );
            if self_vote {
                let mut edges: Vec<Edge> = Vec::new();
                edges.push(Edge { who, load: PerU128::zero(), candidate_index: idx });
                let ghost e = edges@;
                voters.push(Voter { who, edges, budget: approval, load: PerU128::zero() });
                proof {
                    assert(e =~= seq![Edge { who, load: PerU128(0), candidate_index: idx }]);
                    assert(edge_ok(candidates@, approval, e[0]));
                    assert(voter_models(voters@) =~= vbefore.push(voters@.last()@));
                    assert(voter_models(voters@) =~= initial_voters(candidates@, self_vote));
                }
            }
            cache.insert(who, idx);
            proof {
                assert forall|i: int| 0 <= i < voters@.len() implies #[trigger] voter_ok(
                    candidates@,
                    voter_models(voters@)[i],
                ) by {
                    let n = voter_models(voters@)[i];
                    if i < vbefore.len() {
                        assert(voter_ok(before, n));
                        assert forall|j: int| 0 <= j < n.edges.len() implies #[trigger] edge_ok(
                            candidates@,
                            n.budget,
                            n.edges[j],
                        ) by {
                            assert(edge_ok(before, n.budget, n.edges[j]));
                        }
                    }
                }
                assert(candidates@.drop_last() =~= before);
                assert forall|w: AccountId|
                    #![trigger cache@.contains_key(w)]
                    #![trigger index_of(candidates@, w)]
                    (cache@.contains_key(w) <==> index_of(candidates@, w) is Some) && (
                    cache@.contains_key(w) ==> index_of(candidates@, w) == Some(cache@[w] as int)) by {
                    if w != who {
                        assert(index_of(candidates@, w) == index_of(before, w));
                    }
                }
            }
        }
    }
    proof {
        assert(staked@.take(n as int) =~= staked@);
    }
    (candidates, voters, cache)
}

/// Adds every voter in order, backing the candidates it votes for with its stake.
fn add_all_voters(
    candidates: &mut Vec<Candidate>,
    voters: &mut Vec<Voter>,
    cache: &BTreeMap<AccountId, usize>,
    staked_voters: &Vec<(AccountId, u64, Vec<AccountId>)>,
    Ghost(base): Ghost<Seq<Candidate>>,
)
    requires
        indexes(cache@, base),
        grown(base, old(candidates)@),
        well_formed(old(candidates)@, voter_models(old(voters)@)),
        forall|i: int| 0 <= i < old(voters)@.len() ==> unloaded(#[trigger] old(voters)@[i]@),
    ensures
        (final(candidates)@, voter_models(final(voters)@)) == add_voters(
            base,
            old(candidates)@,
            voter_models(old(voters)@),
            staked_voters_view(staked_voters@),
        ),
        grown(base, final(candidates)@),
        well_formed(final(candidates)@, voter_models(final(voters)@)),
        forall|i: int| 0 <= i < final(voters)@.len() ==> unloaded(#[trigger] final(voters)@[i]@),
        forall|k: int|
            0 <= k < final(candidates)@.len() ==> (#[trigger] final(candidates)@[k]).elected == old(
                candidates,
            )@[k].elected,
{
    let ghost c_in = candidates@;
    let ghost v_in = voter_models(voters@);
    let ghost sv = staked_voters_view(staked_voters@);
    let n = staked_voters.len();
    for i in 0..n
        invariant
            n == staked_voters@.len(),
            sv == staked_voters_view(staked_voters@),
            indexes(cache@, base),
            grown(base, candidates@),
            (candidates@, voter_models(voters@)) == add_voters(base, c_in, v_in, sv.take(i as int)),
            well_formed(candidates@, voter_models(voters@)),
            forall|i: int| 0 <= i < voters@.len() ==> unloaded(#[trigger] voters@[i]@),
            forall|k: int|
                0 <= k < candidates@.len() ==> (#[trigger] candidates@[k]).elected == c_in[k].elected,
    {
        proof {
            assert(sv.take(i + 1).drop_last() =~= sv.take(i as int));
        }
        let who = staked_voters[i].0;
        let stake = staked_voters[i].1;
        let votes = &staked_voters[i].2;
        let budget: ExtendedBalance = stake as u128;
        let mut edges: Vec<Edge> = Vec::new();
        let ghost c0 = candidates@;
        let ghost vm0 = voter_models(voters@);
        let m = votes.len();
        for j in 0..m
            invariant
                m == votes@.len(),
                budget == stake as u128,
                indexes(cache@, base),
                grown(base, candidates@),
                grown(c0, candidates@),
                (candidates@, edges@) == cast_votes(base, c0, budget, votes@.take(j as int)),
                forall|k: int| 0 <= k < edges@.len() ==> #[trigger] edge_ok(candidates@, budget, edges@[k]),
                forall|k: int| 0 <= k < edges@.len() ==> (#[trigger] edges@[k]).load.0 == 0,
                forall|k: int|
                    0 <= k < candidates@.len() ==> (#[trigger] candidates@[k]).elected == c0[k].elected,
        {
            proof {
                assert(votes@.take(j + 1).drop_last() =~= votes@.take(j as int));
            }
            let v = votes[j];
            match cache.get(&v) {
                Some(idx) => {
                    let idx = *idx;
                    proof {
                        lemma_index_of(base, v);
                    }
                    let c = candidates[idx];
                    let ghost cb = candidates@;
                    candidates[idx] = Candidate {
                        who: c.who,
                        score: c.score,
                        approval_stake: c.approval_stake.saturating_add(budget),
                        elected: c.elected,
                    };
                    edges.push(Edge { who: v, load: PerU128::zero(), candidate_index: idx });
                    proof {
                        assert(candidates@ =~= cb.update(
                            idx as int,
                            with_approval(cb[idx as int], sat_add(cb[idx as int].approval_stake, budget as int)),
                        ));
                        assert(grown(base, candidates@));
                        assert forall|k: int| 0 <= k < edges@.len() implies #[trigger] edge_ok(
                            candidates@,
                            budget,
                            edges@[k],
                        ) by {
                            if k < edges@.len() - 1 {
                                assert(edge_ok(cb, budget, edges@[k]));
                            }
                        }
                    }
                },
                None => {},
            }
        }
        proof {
            assert(votes@.take(m as int) =~= votes@);
            assert(sv[i as int].2 == votes@);
        }
        let ghost cb = candidates@;
        let ghost eb = edges@;
        voters.push(Voter { who, edges, budget, load: PerU128::zero() });
        proof {
            assert(voter_models(voters@) =~= vm0.push(VoterModel { who, edges: eb, budget, load: 0 }));
            assert forall|i: int| 0 <= i < voters@.len() implies #[trigger] voter_ok(
                candidates@,
                voter_models(voters@)[i],
            ) by {
                let nv = voter_models(voters@)[i];
                if i < vm0.len() {
                    assert(voter_ok(c0, nv));
                    assert forall|j: int| 0 <= j < nv.edges.len() implies #[trigger] edge_ok(
                        candidates@,
                        nv.budget,
                        nv.edges[j],
                    ) by {
                        assert(edge_ok(c0, nv.budget, nv.edges[j]));
                        let ci = nv.edges[j].candidate_index as int;
                        assert(candidates@[ci].who == c0[ci].who);
                    }
                }
            }
        }
    }
    proof {
        assert(sv.take(n as int) =~= sv);
    }
}

/// The score of candidate `k` after the first loading pass has seen `vs` and, of the voter
/// being seen, `edges`.
spec fn partial_score(c0: Seq<Candidate>, k: int, vs: Seq<VoterModel>, n: VoterModel, edges: Seq<Edge>) -> Candidate {
    if c0[k].elected {
        c0[k]
    } else {
        with_score(
            c0[k],
            edge_scores(
                voter_scores(xth(c0[k].approval_stake), k, c0[k].approval_stake, vs),
                k,
                c0[k].approval_stake,
                n.budget,
                n.load,
                edges,
            ),
        )
    }
}

/// Scores every unelected candidate for this round.
fn compute_scores(candidates: &mut Vec<Candidate>, voters: &Vec<Voter>)
    requires
        well_formed(old(candidates)@, voter_models(voters@)),
    ensures
        final(candidates)@ == scored(old(candidates)@, voter_models(voters@)),
{
    let ghost c0 = candidates@;
    let ghost vm = voter_models(voters@);
    let n = candidates.len();
    for i in 0..n
        invariant
            n == c0.len(),
            candidates@.len() == n,
            forall|k: int|
                0 <= k < i ==> #[trigger] candidates@[k] == (if c0[k].elected {
                    c0[k]
                } else {
                    with_score(c0[k], xth(c0[k].approval_stake))
                }),
            forall|k: int| i <= k < n ==> #[trigger] candidates@[k] == c0[k],
    {
        if !candidates[i].elected {
            let c = candidates[i];
            candidates[i] = Candidate {
                who: c.who,
                score: PerU128::from_xth(c.approval_stake),
                approval_stake: c.approval_stake,
                elected: false,
            };
        }
    }
    let nv = voters.len();
    for vi in 0..nv
        invariant
            n == c0.len(),
            candidates@.len() == n,
            nv == vm.len(),
            vm == voter_models(voters@),
            well_formed(c0, vm),
            forall|k: int|
                0 <= k < n ==> #[trigger] candidates@[k] == (if c0[k].elected {
                    c0[k]
                } else {
                    with_score(
                        c0[k],
                        voter_scores(xth(c0[k].approval_stake), k, c0[k].approval_stake, vm.take(vi as int)),
                    )
                }),
    {
        let budget = voters[vi].budget;
        let load = voters[vi].load.parts();
        let ne = voters[vi].edges.len();
        let ghost vmn = vm[vi as int];
        proof {
            assert(voter_ok(c0, vmn));
        }
        for ei in 0..ne
            invariant
                n == c0.len(),
                candidates@.len() == n,
                nv == vm.len(),
                0 <= vi < nv,
                vm == voter_models(voters@),
                vmn == vm[vi as int],
                voter_ok(c0, vmn),
                budget == vmn.budget,
                load == vmn.load,
                ne == vmn.edges.len(),
                forall|k: int|
                    0 <= k < n ==> #[trigger] candidates@[k] == partial_score(
                        c0,
                        k,
                        vm.take(vi as int),
                        vmn,
                        vmn.edges.take(ei as int),
                    ),
        {
            let e = voters[vi].edges[ei];
            let ci = e.candidate_index;
            proof {
                assert(vmn.edges[ei as int] == e);
                assert(edge_ok(c0, budget, e));
                assert(vmn.edges.take(ei + 1).drop_last() =~= vmn.edges.take(ei as int));
                assert(candidates@[ci as int] == partial_score(c0, ci as int, vm.take(vi as int), vmn, vmn.edges.take(ei as int)));
            }
            let c = candidates[ci];
            if !c.elected && c.approval_stake != 0 {
                proof {
                    lemma_vote_weight_bound(budget, c.approval_stake, load);
                }
                let temp = saturating_mul(budget, SCALE_FACTOR) / c.approval_stake * (load
                    / SCALE_FACTOR);
                let ghost cb = candidates@;
                candidates[ci] = Candidate {
                    who: c.who,
                    score: PerU128::from_parts(c.score.parts().saturating_add(temp)),
                    approval_stake: c.approval_stake,
                    elected: c.elected,
                };
                proof {
                    assert(temp == vote_weight(budget, c.approval_stake, load));
                    assert forall|k: int| 0 <= k < n implies #[trigger] candidates@[k]
                        == partial_score(c0, k, vm.take(vi as int), vmn, vmn.edges.take(ei + 1)) by {
                        if k != ci {
                            assert(cb[k] == partial_score(c0, k, vm.take(vi as int), vmn, vmn.edges.take(ei as int)));
                        }
                    }
                }
            } else {
                proof {
                    assert forall|k: int| 0 <= k < n implies #[trigger] candidates@[k]
                        == partial_score(c0, k, vm.take(vi as int), vmn, vmn.edges.take(ei + 1)) by {
                        assert(candidates@[k] == partial_score(c0, k, vm.take(vi as int), vmn, vmn.edges.take(ei as int)));
                    }
                }
            }
        }
        proof {
            assert(vmn.edges.take(ne as int) =~= vmn.edges);
            assert(vm.take(vi + 1).drop_last() =~= vm.take(vi as int));
            assert forall|k: int| 0 <= k < n implies #[trigger] candidates@[k] == (if c0[k].elected {
                c0[k]
            } else {
                with_score(
                    c0[k],
                    voter_scores(xth(c0[k].approval_stake), k, c0[k].approval_stake, vm.take(vi + 1)),
                )
            }) by {
                assert(candidates@[k] == partial_score(c0, k, vm.take(vi as int), vmn, vmn.edges.take(ne as int)));
            }
        }
    }
    proof {
        assert(vm.take(nv as int) =~= vm);
        assert(candidates@ =~= scored(c0, vm));
    }
}

/// An index found as least is in bounds and unelected, and is found while some candidate
/// stands.
proof fn lemma_min_unelected_bounds(cands: Seq<Candidate>)
    ensures
        min_unelected(cands) matches Some(w) ==> 0 <= w < cands.len() && !cands[w].elected,
    decreases cands.len(),
{
    if cands.len() > 0 {
        lemma_min_unelected_bounds(cands.drop_last());
        if let Some(w) = min_unelected(cands.drop_last()) {
            assert(cands.drop_last()[w] == cands[w]);
        }
    }
}

/// Finds the first unelected candidate of least score.
fn find_winner(candidates: &Vec<Candidate>) -> (r: Option<usize>)
    ensures
        match min_unelected(candidates@) {
            None => r is None,
            Some(w) => r == Some(w as usize),
        },
{
    let mut best: Option<usize> = None;
    let n = candidates.len();
    for i in 0..n
        invariant
            n == candidates@.len(),
            match min_unelected(candidates@.take(i as int)) {
                None => best is None,
                Some(w) => best == Some(w as usize) && 0 <= w < i,
            },
    {
        proof {
            assert(candidates@.take(i + 1).drop_last() =~= candidates@.take(i as int));
            lemma_min_unelected_bounds(candidates@.take(i as int));
        }
        if !candidates[i].elected {
            match best {
                None => {
                    best = Some(i);
                },
                Some(b) => {
                    if candidates[i].score.parts() < candidates[b].score.parts() {
                        best = Some(i);
                    }
                },
            }
        }
    }
    proof {
        assert(candidates@.take(n as int) =~= candidates@);
    }
    best
}

/// Settles one voter's loads after the election of `who` with `score`.
fn settle_voter_loads(v: &mut Voter, who: AccountId, score: u128)
    requires
        old(v).load.0 <= score,
    ensures
        final(v)@ == settle_voter(old(v)@, who, score),
{
    let ghost v0 = v@;
    let ne = v.edges.len();
    for j in 0..ne
        invariant
            ne == v0.edges.len(),
            v.edges@.len() == ne,
            v.who == v0.who,
            v.budget == v0.budget,
            settle_edges(v0.edges.take(j as int), who, score, v0.load) == (
                v.edges@.take(j as int),
                v.load.0,
            ),
            forall|k: int| j <= k < ne ==> #[trigger] v.edges@[k] == v0.edges[k],
            v.load.0 <= score,
    {
        proof {
            assert(v0.edges.take(j + 1).drop_last() =~= v0.edges.take(j as int));
        }
        let ghost eb = v.edges@;
        if v.edges[j].who == who {
            let e = v.edges[j];
            let l = v.load.parts();
            v.edges[j] = Edge {
                who: e.who,
                load: PerU128::from_parts(score - l),
                candidate_index: e.candidate_index,
            };
            v.load = PerU128::from_parts(score);
        }
        proof {
            assert(v.edges@.take(j + 1) =~= v.edges@.take(j as int).push(v.edges@[j as int]));
            assert(v.edges@.take(j as int) =~= eb.take(j as int));
        }
    }
    proof {
        assert(v0.edges.take(ne as int) =~= v0.edges);
        assert(v.edges@.take(ne as int) =~= v.edges@);
    }
}

/// Settles every voter's loads after the election of `who` with `score`.
fn settle_all(voters: &mut Vec<Voter>, who: AccountId, score: u128)
    requires
        forall|i: int| 0 <= i < old(voters)@.len() ==> (#[trigger] old(voters)@[i]).load.0 <= score,
    ensures
        voter_models(final(voters)@) == settle_voters(voter_models(old(voters)@), who, score),
{
    let ghost vm0 = voter_models(voters@);
    let n = voters.len();
    for i in 0..n
        invariant
            n == vm0.len(),
            voters@.len() == n,
            forall|k: int| 0 <= k < i ==> (#[trigger] voters@[k])@ == settle_voter(vm0[k], who, score),
            forall|k: int| i <= k < n ==> (#[trigger] voters@[k])@ == vm0[k],
            forall|k: int| i <= k < n ==> (#[trigger] voters@[k]).load.0 <= score,
    {
        settle_voter_loads(&mut voters[i], who, score);
    }
    proof {
        assert(voter_models(voters@) =~= settle_voters(vm0, who, score));
    }
}

/// The assignments of all voters with at least one share in the winners.
fn build_assignments(voters: &Vec<Voter>, winners: &Vec<AccountId>) -> (r: Vec<
    (AccountId, Vec<PhragmenAssignment>),
>)
    requires
        forall|i: int|
            0 <= i < voters@.len() ==> load_sum((#[trigger] voters@[i]).edges@) <= voters@[i].load.0,
    ensures
        assignments_view(r@) == assignments_of(voter_models(voters@), winners@),
{
    let ghost vm = voter_models(voters@);
    let mut assigned: Vec<(AccountId, Vec<PhragmenAssignment>)> = Vec::new();
    let n = voters.len();
    for i in 0..n
        invariant
            n == vm.len(),
            vm == voter_models(voters@),
            forall|i: int|
                0 <= i < voters@.len() ==> load_sum((#[trigger] voters@[i]).edges@) <= voters@[i].load.0,
            assignments_view(assigned@) == assignments_of(vm.take(i as int), winners@),
    {
        proof {
            assert(vm.take(i + 1).drop_last() =~= vm.take(i as int));
        }
        let who = voters[i].who;
        let load = voters[i].load.parts();
        proof {
            assert forall|j: int| 0 <= j < voters@[i as int].edges@.len() implies (#[trigger] voters@[i as int].edges@[j]).load.0
                <= load by {
                lemma_load_sum_elem(voters@[i as int].edges@, j);
            }
        }
        let mut shares = voter_shares(who, load, &voters[i].edges, winners);
        if shares.len() > 0 {
            let ghost raw = shares@;
            normalize_shares(&mut shares);
            let ghost before = assigned@;
            assigned.push((who, shares));
            proof {
                assert(assignments_view(assigned@) =~= assignments_view(before).push((who, normalize(raw))));
            }
        }
    }
    proof {
        assert(vm.take(n as int) =~= vm);
    }
    assigned
}

/// Performs an election with the stake of every candidate and voter given beside it.
///
/// Returns `None` when fewer candidates stand than `minimum_candidate_count`; with
/// `self_vote`, only the candidates with a stake of their own stand, each voting for itself
/// with that stake. Else the winners in the order of their election, at most
/// `candidate_count` of them, and the share of each voter in each winner it backs.
pub fn elect_staked(
    candidate_count: usize,
    minimum_candidate_count: usize,
    staked_candidates: Vec<(AccountId, u64)>,
    staked_voters: Vec<(AccountId, u64, Vec<AccountId>)>,
    self_vote: bool,
) -> (r: Option<PhragmenResult>)
    ensures
        match elect_outcome(
            candidate_count,
            minimum_candidate_count,
            staked_candidates@,
            staked_voters_view(staked_voters@),
            self_vote,
        ) {
            None => r is None,
            Some(o) => r is Some && r.unwrap()@ == o,
        },
{
    let (mut candidates, mut voters, cache) = collect_candidates(&staked_candidates, self_vote);
    if candidates.len() < minimum_candidate_count {
        return None;
    }
    let ghost base = candidates@;
    add_all_voters(&mut candidates, &mut voters, &cache, &staked_voters, Ghost(base));
    let ghost start = prepared(staked_candidates@, staked_voters_view(staked_voters@), self_vote);
    let rounds_to_run: usize = if candidate_count <= candidates.len() {
        candidate_count
    } else {
        candidates.len()
    };
    let mut winners: Vec<AccountId> = Vec::new();
    proof {
        assert(start == Election { cands: candidates@, voters: voter_models(voters@), winners: winners@ });
        assert forall|i: int| 0 <= i < start.voters.len() implies unloaded(#[trigger] start.voters[i]) by {
            assert(unloaded(voters@[i]@));
        }
        assert forall|k: int| 0 <= k < candidates@.len() implies !(#[trigger] candidates@[k]).elected by {
            assert(!base[k].elected);
        }
        lemma_start_invariant(start);
    }
    let mut done: usize = 0;
    while done < rounds_to_run
        invariant
            done <= rounds_to_run,
            rounds_to_run == to_elect(candidate_count, start.cands.len()),
            rounds_to_run <= candidates@.len(),
            (Election { cands: candidates@, voters: voter_models(voters@), winners: winners@ }) == rounds(start, done as nat),
            round_invariant(rounds(start, done as nat)),
            winners@.len() == done,
            candidates@.len() == start.cands.len(),
        ensures
            done == rounds_to_run,
        decreases rounds_to_run - done,
    {
        let ghost s = Election { cands: candidates@, voters: voter_models(voters@), winners: winners@ };
        proof {
            lemma_round(s);
        }
        compute_scores(&mut candidates, &voters);
        let found = find_winner(&candidates);
        proof {
            lemma_min_unelected_bounds(candidates@);
        }
        match found {
            Some(w) => {
                let ghost cs = candidates@;
                proof {
                    assert(cs == scored(s.cands, s.voters));
                    match min_unelected(cs) {
                        Some(w2) => {
                            assert(found == Some(w2 as usize));
                            assert(0 <= w2 < cs.len());
                            assert(cs.len() == candidates.len());
                        },
                        None => {
                            assert(found is None);
                        },
                    }
                    assert(min_unelected(cs) == Some(w as int));
                }
                let c = candidates[w];
                candidates[w] = Candidate {
                    who: c.who,
                    score: c.score,
                    approval_stake: c.approval_stake,
                    elected: true,
                };
                proof {
                    assert(c == cs[w as int]);
                    assert forall|i: int| 0 <= i < voters@.len() implies (#[trigger] voters@[i]).load.0 <= c.score.0 by {
                        assert(s.voters[i] == voters@[i]@);
                        assert(s.voters[i].load <= cs[w as int].score.0);
                    }
                }
                settle_all(&mut voters, c.who, c.score.parts());
                winners.push(c.who);
                proof {
                    assert(candidates@ =~= scored(s.cands, s.voters).update(w as int, as_elected(c)));
                    assert(Election { cands: candidates@, voters: voter_models(voters@), winners: winners@ } == round(s));
                }
            },
            None => {
                break;
            },
        }
        done = done + 1;
    }
    let ghost fin = rounds(start, done as nat);
    proof {
        assert forall|i: int| 0 <= i < voters@.len() implies load_sum((#[trigger] voters@[i]).edges@) <= voters@[i].load.0 by {
            assert(fin.voters[i] == voters@[i]@);
        }
    }
    let assignments = build_assignments(&voters, &winners);
    Some(PhragmenResult { winners, assignments })
}

/// The stakes `sc` are what `stake_of` gave for the candidates with self-voting; without, none
/// are asked for.
pub open spec fn candidate_stakes_given<F: Fn(&AccountId) -> u64>(
    stake_of: F,
    candidates: Seq<AccountId>,
    self_vote: bool,
    sc: Seq<(AccountId, u64)>,
) -> bool {
    &&& sc.len() == candidates.len()
    &&& forall|i: int|
        0 <= i < sc.len() ==> (#[trigger] sc[i]).0 == candidates[i] && (if self_vote {
            call_ensures(stake_of, (&candidates[i],), sc[i].1)
        } else {
            sc[i].1 == 0
        })
}

/// The stakes `sv` are what `stake_of` gave for the voters.
pub open spec fn voter_stakes_given<F: Fn(&AccountId) -> u64>(
    stake_of: F,
    voters: Seq<(AccountId, Vec<AccountId>)>,
    sv: Seq<(AccountId, u64, Seq<AccountId>)>,
) -> bool {
    &&& sv.len() == voters.len()
    &&& forall|i: int|
        0 <= i < sv.len() ==> (#[trigger] sv[i]).0 == voters[i].0 && sv[i].2 == voters[i].1@
            && call_ensures(stake_of, (&voters[i].0,), sv[i].1)
}

/// The number of candidates that stand.
fn count_standing(staked: &Vec<(AccountId, u64)>, self_vote: bool) -> (r: usize)
    ensures
        r == standing_candidates(staked@, self_vote).len(),
{
    let mut count: usize = 0;
    let n = staked.len();
    for i in 0..n
        invariant
            n == staked@.len(),
            count == standing_candidates(staked@.take(i as int), self_vote).len(),
            count <= i,
    {
        proof {
            assert(staked@.take(i + 1).drop_last() =~= staked@.take(i as int));
        }
        if !self_vote || staked[i].1 != 0 {
            count = count + 1;
        }
    }
    proof {
        assert(staked@.take(n as int) =~= staked@);
    }
    count
}

/// Perform election based on Phragmén algorithm.
///
/// Returns the set of winners and their detailed support ratio from each voter if enough
/// candidates are provided; `None` otherwise.
///
/// * `candidate_count`: number of candidates to elect.
/// * `minimum_candidate_count`: minimum number of candidates to elect. If less candidates
///   exist, `None` is returned.
/// * `initial_candidates`: candidates list to be elected from.
/// * `initial_voters`: voters list.
/// * `stake_of`: the stake of a particular candidate or voter, as votes.
/// * `self_vote`: if true, then each candidate will automatically vote for themselves with a
///   weight indicated by their stake, and candidates are filtered by having some stake of their
///   own.
///
/// The stakes are asked for once each: for the candidates with self-voting only, and for the
/// voters only when enough candidates stand. What the election does with them is
/// [`elect_staked`].
pub fn elect<F: Fn(&AccountId) -> u64>(
    candidate_count: usize,
    minimum_candidate_count: usize,
    initial_candidates: Vec<AccountId>,
    initial_voters: Vec<(AccountId, Vec<AccountId>)>,
    stake_of: F,
    self_vote: bool,
) -> (r: Option<PhragmenResult>)
    requires
        forall|a: &AccountId| call_requires(stake_of, (a,)),
    ensures
        exists|sc: Seq<(AccountId, u64)>|
            {
                &&& candidate_stakes_given(stake_of, initial_candidates@, self_vote, sc)
                &&& if standing_candidates(sc, self_vote).len() < minimum_candidate_count {
                    r is None
                } else {
                    exists|sv: Seq<(AccountId, u64, Seq<AccountId>)>|
                        {
                            &&& voter_stakes_given(stake_of, initial_voters@, sv)
                            &&& r is Some
                            &&& elect_outcome(candidate_count, minimum_candidate_count, sc, sv, self_vote)
                                == Some(r.unwrap()@)
                        }
                }
            },
{
    let mut staked_candidates: Vec<(AccountId, u64)> = Vec::new();
    let n = initial_candidates.len();
    for i in 0..n
        invariant
            n == initial_candidates@.len(),
            forall|a: &AccountId| call_requires(stake_of, (a,)),
            staked_candidates@.len() == i,
            forall|k: int|
                0 <= k < i ==> (#[trigger] staked_candidates@[k]).0 == initial_candidates@[k] && (
                if self_vote {
                    call_ensures(stake_of, (&initial_candidates@[k],), staked_candidates@[k].1)
                } else {
                    staked_candidates@[k].1 == 0
                }),
    {
        let who = initial_candidates[i];
        let stake = if self_vote {
            stake_of(&who)
        } else {
            0
        };
        staked_candidates.push((who, stake));
    }
    if count_standing(&staked_candidates, self_vote) < minimum_candidate_count {
        proof {
            assert(candidate_stakes_given(stake_of, initial_candidates@, self_vote, staked_candidates@));
        }
        return None;
    }
    let mut staked_voters: Vec<(AccountId, u64, Vec<AccountId>)> = Vec::new();
    let m = initial_voters.len();
    for i in 0..m
        invariant
            m == initial_voters@.len(),
            forall|a: &AccountId| call_requires(stake_of, (a,)),
            staked_voters@.len() == i,
            forall|k: int|
                0 <= k < i ==> (#[trigger] staked_voters@[k]).0 == initial_voters@[k].0
                    && staked_voters@[k].2@ == initial_voters@[k].1@ && call_ensures(
                    stake_of,
                    (&initial_voters@[k].0,),
                    staked_voters@[k].1,
                ),
    {
        let who = initial_voters[i].0;
        let stake = stake_of(&who);
        let mut votes: Vec<AccountId> = Vec::new();
        let nv = initial_voters[i].1.len();
        for j in 0..nv
            invariant
                m == initial_voters@.len(),
                0 <= i < m,
                nv == initial_voters@[i as int].1@.len(),
                votes@ == initial_voters@[i as int].1@.take(j as int),
        {
            votes.push(initial_voters[i].1[j]);
            proof {
                assert(initial_voters@[i as int].1@.take(j + 1) =~= initial_voters@[i as int].1@.take(j as int).push(initial_voters@[i as int].1@[j as int]));
            }
        }
        proof {
            assert(initial_voters@[i as int].1@.take(nv as int) =~= initial_voters@[i as int].1@);
        }
        staked_voters.push((who, stake, votes));
    }
    let ghost sc = staked_candidates@;
    let ghost sv = staked_voters_view(staked_voters@);
    let r = elect_staked(candidate_count, minimum_candidate_count, staked_candidates, staked_voters, self_vote);
    proof {
        assert(candidate_stakes_given(stake_of, initial_candidates@, self_vote, sc));
        assert(voter_stakes_given(stake_of, initial_voters@, sv));
    }
    r
}

} // verus!
