//! The election as mathematics: each phase of sequential Phragmén as a spec function.

use vstd::prelude::*;
use crate::arith::{sat_add, sat_mul, ACCURACY, SCALE_FACTOR};
use crate::per_u128::{xth, PerU128};
use crate::types::{AccountId, Candidate, Edge, Outcome, PhragmenAssignment, Voter, VoterModel};

verus! {

/// The models of a list of voters.
pub open spec fn voter_models(v: Seq<Voter>) -> Seq<VoterModel> {
    v.map_values(|x: Voter| x@)
}

/// A candidate with its approval stake replaced.
pub open spec fn with_approval(c: Candidate, a: u128) -> Candidate {
    Candidate { who: c.who, score: c.score, approval_stake: a, elected: c.elected }
}

/// A candidate with its score replaced.
pub open spec fn with_score(c: Candidate, s: u128) -> Candidate {
    Candidate { who: c.who, score: PerU128(s), approval_stake: c.approval_stake, elected: c.elected }
}

/// A candidate marked as elected.
pub open spec fn as_elected(c: Candidate) -> Candidate {
    Candidate { who: c.who, score: c.score, approval_stake: c.approval_stake, elected: true }
}

/// The candidates that stand: with self-voting, those with a stake of their own (backed by it);
/// without, all of them with no approval yet.
pub open spec fn standing_candidates(staked: Seq<(AccountId, u64)>, self_vote: bool) -> Seq<
    Candidate,
>
    decreases staked.len(),
{
    if staked.len() == 0 {
        seq![]
    } else {
        let prev = standing_candidates(staked.drop_last(), self_vote);
        let who = staked.last().0;
        let stake = staked.last().1;
        if self_vote && stake == 0 {
            prev
        } else {
            prev.push(
                Candidate {
                    who,
                    score: PerU128(0),
                    approval_stake: if self_vote {
                        stake as u128
                    } else {
                        0
                    },
                    elected: false,
                },
            )
        }
    }
}

/// The voter standing for a self-voting candidate at index `i`.
pub open spec fn self_voter(c: Candidate, i: int) -> VoterModel {
    VoterModel {
        who: c.who,
        edges: seq![Edge { who: c.who, load: PerU128(0), candidate_index: i as usize }],
        budget: c.approval_stake,
        load: 0,
    }
}

/// The voters that exist before the real voters are added.
pub open spec fn initial_voters(cands: Seq<Candidate>, self_vote: bool) -> Seq<VoterModel> {
    if self_vote {
        Seq::new(cands.len(), |i: int| self_voter(cands[i], i))
    } else {
        Seq::empty()
    }
}

/// The index under which a candidate is found: the last one with that identifier.
pub open spec fn index_of(cands: Seq<Candidate>, who: AccountId) -> Option<int>
    decreases cands.len(),
{
    if cands.len() == 0 {
        None
    } else if cands.last().who == who {
        Some(cands.len() - 1)
    } else {
        index_of(cands.drop_last(), who)
    }
}

/// One voter's votes, in order: each vote for a known candidate adds the stake to its approval
/// and becomes an edge; a vote for an unknown candidate is ignored.
pub open spec fn cast_votes(
    base: Seq<Candidate>,
    cands: Seq<Candidate>,
    stake: u128,
    votes: Seq<AccountId>,
) -> (Seq<Candidate>, Seq<Edge>)
    decreases votes.len(),
{
    if votes.len() == 0 {
        (cands, seq![])
    } else {
        let prev = cast_votes(base, cands, stake, votes.drop_last());
        let v = votes.last();
        match index_of(base, v) {
            Some(i) => (
                prev.0.update(i, with_approval(prev.0[i], sat_add(prev.0[i].approval_stake, stake as int))),
                prev.1.push(Edge { who: v, load: PerU128(0), candidate_index: i as usize }),
            ),
            None => prev,
        }
    }
}

/// All voters, in order, each with the stake that was found for it.
pub open spec fn add_voters(
    base: Seq<Candidate>,
    cands: Seq<Candidate>,
    voters: Seq<VoterModel>,
    staked: Seq<(AccountId, u64, Seq<AccountId>)>,
) -> (Seq<Candidate>, Seq<VoterModel>)
    decreases staked.len(),
{
    if staked.len() == 0 {
        (cands, voters)
    } else {
        let prev = add_voters(base, cands, voters, staked.drop_last());
        let who = staked.last().0;
        let stake = staked.last().1;
        let cast = cast_votes(base, prev.0, stake as u128, staked.last().2);
        (cast.0, prev.1.push(VoterModel { who, edges: cast.1, budget: stake as u128, load: 0 }))
    }
}

/// The score that a voter's load adds to a candidate it backs, in fixed point shifted by
/// `SCALE_FACTOR`.
pub open spec fn vote_weight(budget: u128, approval: u128, load: u128) -> int {
    (sat_mul(budget, SCALE_FACTOR) / approval) as int * (load / SCALE_FACTOR) as int
}

/// Score contributions of one voter's edges, in order, to the candidate at index `ci`.
pub open spec fn edge_scores(
    s: u128,
    ci: int,
    approval: u128,
    budget: u128,
    load: u128,
    edges: Seq<Edge>,
) -> u128
    decreases edges.len(),
{
    if edges.len() == 0 {
        s
    } else {
        let prev = edge_scores(s, ci, approval, budget, load, edges.drop_last());
        if edges.last().candidate_index == ci && approval != 0 {
            sat_add(prev, vote_weight(budget, approval, load))
        } else {
            prev
        }
    }
}

/// Score contributions of all voters, in order, to the candidate at index `ci`.
pub open spec fn voter_scores(s: u128, ci: int, approval: u128, voters: Seq<VoterModel>) -> u128
    decreases voters.len(),
{
    if voters.len() == 0 {
        s
    } else {
        let n = voters.last();
        edge_scores(
            voter_scores(s, ci, approval, voters.drop_last()),
            ci,
            approval,
            n.budget,
            n.load,
            n.edges,
        )
    }
}

/// The score of the unelected candidate `c` (at index `ci`) in a round: one over its approval,
/// plus what the loads of its voters add.
pub open spec fn round_score(c: Candidate, ci: int, voters: Seq<VoterModel>) -> u128 {
    voter_scores(xth(c.approval_stake), ci, c.approval_stake, voters)
}

/// The candidates with the scores of this round.
pub open spec fn scored(cands: Seq<Candidate>, voters: Seq<VoterModel>) -> Seq<Candidate> {
    Seq::new(
        cands.len(),
        |i: int|
            if cands[i].elected {
                cands[i]
            } else {
                with_score(cands[i], round_score(cands[i], i, voters))
            },
    )
}

/// The first unelected candidate of least score.
pub open spec fn min_unelected(cands: Seq<Candidate>) -> Option<int>
    decreases cands.len(),
{
    if cands.len() == 0 {
        None
    } else {
        let prev = min_unelected(cands.drop_last());
        let i = cands.len() - 1;
        if cands[i].elected {
            prev
        } else {
            match prev {
                None => Some(i),
                Some(j) => if cands[i].score.0 < cands[j].score.0 {
                    Some(i)
                } else {
                    Some(j)
                },
            }
        }
    }
}

/// A voter's edges after the candidate `who` was elected with `score`: the first edge to it
/// takes the rise of the voter's load, the voter's load becomes the score.
pub open spec fn settle_edges(edges: Seq<Edge>, who: AccountId, score: u128, load: u128) -> (
    Seq<Edge>,
    u128,
)
    decreases edges.len(),
{
    if edges.len() == 0 {
        (seq![], load)
    } else {
        let prev = settle_edges(edges.drop_last(), who, score, load);
        let e = edges.last();
        if e.who == who {
            (
                prev.0.push(
                    Edge {
                        who: e.who,
                        load: PerU128((score - prev.1) as u128),
                        candidate_index: e.candidate_index,
                    },
                ),
                score,
            )
        } else {
            (prev.0.push(e), prev.1)
        }
    }
}

/// A voter after the candidate `who` was elected with `score`.
pub open spec fn settle_voter(n: VoterModel, who: AccountId, score: u128) -> VoterModel {
    let s = settle_edges(n.edges, who, score, n.load);
    VoterModel { who: n.who, edges: s.0, budget: n.budget, load: s.1 }
}

/// All voters after the candidate `who` was elected with `score`.
pub open spec fn settle_voters(voters: Seq<VoterModel>, who: AccountId, score: u128) -> Seq<
    VoterModel,
> {
    Seq::new(voters.len(), |i: int| settle_voter(voters[i], who, score))
}

/// The state of an election between rounds.
pub struct Election {
    pub cands: Seq<Candidate>,
    pub voters: Seq<VoterModel>,
    pub winners: Seq<AccountId>,
}

/// One round: score, elect the least score, settle the voters' loads.
pub open spec fn round(s: Election) -> Election {
    let cs = scored(s.cands, s.voters);
    match min_unelected(cs) {
        None => Election { cands: cs, voters: s.voters, winners: s.winners },
        Some(w) => Election {
            cands: cs.update(w, as_elected(cs[w])),
            voters: settle_voters(s.voters, cs[w].who, cs[w].score.0),
            winners: s.winners.push(cs[w].who),
        },
    }
}

/// `k` rounds.
pub open spec fn rounds(s: Election, k: nat) -> Election
    decreases k,
{
    if k == 0 {
        s
    } else {
        round(rounds(s, (k - 1) as nat))
    }
}

/// The share, in parts of `ACCURACY`, of a voter with `voter_load` that one edge of `edge_load`
/// stands for.
pub open spec fn ratio(voter_load: u128, edge_load: u128) -> u128 {
    let d: u128 = if voter_load == 0 {
        1
    } else {
        voter_load
    };
    if voter_load == edge_load {
        ACCURACY
    } else if ACCURACY * edge_load <= u128::MAX {
        ((ACCURACY * edge_load) / (d as int)) as u128
    } else {
        edge_load / (d / ACCURACY)
    }
}

/// The shares of a voter in the elected candidates it backs, other than itself.
pub open spec fn raw_shares(
    who: AccountId,
    load: u128,
    edges: Seq<Edge>,
    winners: Seq<AccountId>,
) -> Seq<PhragmenAssignment>
    decreases edges.len(),
{
    if edges.len() == 0 {
        seq![]
    } else {
        let prev = raw_shares(who, load, edges.drop_last(), winners);
        let e = edges.last();
        if winners.contains(e.who) && e.who != who {
            prev.push((e.who, ratio(load, e.load.0)))
        } else {
            prev
        }
    }
}

/// The sum of the shares.
pub open spec fn share_sum(s: Seq<PhragmenAssignment>) -> int
    decreases s.len(),
{
    if s.len() == 0 {
        0
    } else {
        share_sum(s.drop_last()) + s.last().1
    }
}

/// The shares with what is left of `ACCURACY` spread over them: evenly, then one part each
/// to the first ones for the remainder.
pub open spec fn normalize(s: Seq<PhragmenAssignment>) -> Seq<PhragmenAssignment> {
    let sum = share_sum(s);
    let diff: int = if sum <= ACCURACY {
        ACCURACY - sum
    } else {
        0
    };
    let per = diff / (s.len() as int);
    let rem = diff - per * s.len();
    Seq::new(
        s.len(),
        |i: int|
            {
                let a = if per > 0 {
                    sat_add(s[i].1, per)
                } else {
                    s[i].1
                };
                (s[i].0, if i < rem {
                    sat_add(a, 1)
                } else {
                    a
                })
            },
    )
}

/// The assignments of all voters with at least one share.
pub open spec fn assignments_of(voters: Seq<VoterModel>, winners: Seq<AccountId>) -> Seq<
    (AccountId, Seq<PhragmenAssignment>),
>
    decreases voters.len(),
{
    if voters.len() == 0 {
        seq![]
    } else {
        let prev = assignments_of(voters.drop_last(), winners);
        let n = voters.last();
        let sh = raw_shares(n.who, n.load, n.edges, winners);
        if sh.len() > 0 {
            prev.push((n.who, normalize(sh)))
        } else {
            prev
        }
    }
}

/// The number of rounds: as many as asked for, at most as many as there are candidates.
pub open spec fn to_elect(candidate_count: usize, n: nat) -> nat {
    if candidate_count <= n {
        candidate_count as nat
    } else {
        n
    }
}

/// The state before the first round.
pub open spec fn prepared(
    staked_candidates: Seq<(AccountId, u64)>,
    staked_voters: Seq<(AccountId, u64, Seq<AccountId>)>,
    self_vote: bool,
) -> Election {
    let cands = standing_candidates(staked_candidates, self_vote);
    let added = add_voters(cands, cands, initial_voters(cands, self_vote), staked_voters);
    Election { cands: added.0, voters: added.1, winners: seq![] }
}

/// The result of an election: `None` when fewer candidates stand than the minimum.
pub open spec fn elect_outcome(
    candidate_count: usize,
    minimum_candidate_count: usize,
    staked_candidates: Seq<(AccountId, u64)>,
    staked_voters: Seq<(AccountId, u64, Seq<AccountId>)>,
    self_vote: bool,
) -> Option<Outcome> {
    let cands = standing_candidates(staked_candidates, self_vote);
    if cands.len() < minimum_candidate_count {
        None
    } else {
        let start = prepared(staked_candidates, staked_voters, self_vote);
        let fin = rounds(start, to_elect(candidate_count, start.cands.len()));
        Some(
            Outcome {
                winners: fin.winners,
                assignments: assignments_of(fin.voters, fin.winners),
            },
        )
    }
}

} // verus!

verus! {

/// The edge points at a candidate of that identifier whose approval covers `budget`.
pub open spec fn edge_ok(cands: Seq<Candidate>, budget: u128, e: Edge) -> bool {
    &&& e.candidate_index < cands.len()
    &&& budget <= cands[e.candidate_index as int].approval_stake
    &&& e.who == cands[e.candidate_index as int].who
}

/// Every edge of a voter is sound.
pub open spec fn voter_ok(cands: Seq<Candidate>, n: VoterModel) -> bool {
    &&& n.budget <= u64::MAX
    &&& forall|j: int| 0 <= j < n.edges.len() ==> #[trigger] edge_ok(cands, n.budget, n.edges[j])
}

/// Every voter is sound with respect to the candidates.
pub open spec fn well_formed(cands: Seq<Candidate>, voters: Seq<VoterModel>) -> bool {
    forall|i: int| 0 <= i < voters.len() ==> #[trigger] voter_ok(cands, voters[i])
}

/// The candidates `c2` have the identifiers of `c1` and at least their approvals.
pub open spec fn grown(c1: Seq<Candidate>, c2: Seq<Candidate>) -> bool {
    &&& c1.len() == c2.len()
    &&& forall|k: int|
        0 <= k < c1.len() ==> #[trigger] c2[k].who == c1[k].who && c1[k].approval_stake
            <= c2[k].approval_stake
}

/// A voter that has not been loaded yet.
pub open spec fn unloaded(n: VoterModel) -> bool {
    &&& n.load == 0
    &&& forall|j: int| 0 <= j < n.edges.len() ==> (#[trigger] n.edges[j]).load.0 == 0
}

} // verus!

verus! {

/// The number of elected candidates.
pub open spec fn count_elected(cands: Seq<Candidate>) -> nat
    decreases cands.len(),
{
    if cands.len() == 0 {
        0
    } else {
        count_elected(cands.drop_last()) + if cands.last().elected {
            1nat
        } else {
            0nat
        }
    }
}

/// The sum of the loads of edges.
pub open spec fn load_sum(edges: Seq<Edge>) -> int
    decreases edges.len(),
{
    if edges.len() == 0 {
        0
    } else {
        load_sum(edges.drop_last()) + edges.last().load.0
    }
}

/// What holds of the election between rounds: the voters are sound, one candidate was
/// elected per winner, no voter's load exceeds the score any unelected candidate would get now,
/// and the loads of a voter's edges add up to no more than its own load.
pub open spec fn round_invariant(s: Election) -> bool {
    &&& well_formed(s.cands, s.voters)
    &&& count_elected(s.cands) == s.winners.len()
    &&& forall|c: int, i: int|
        #![trigger round_score(s.cands[c], c, s.voters), s.voters[i]]
        0 <= c < s.cands.len() && !s.cands[c].elected && 0 <= i < s.voters.len() ==> s.voters[i].load
            <= round_score(s.cands[c], c, s.voters)
    &&& forall|i: int|
        0 <= i < s.voters.len() ==> load_sum((#[trigger] s.voters[i]).edges) <= s.voters[i].load
}

} // verus!

verus! {

/// No two candidates share an identifier.
pub open spec fn distinct_whos(cands: Seq<Candidate>) -> bool {
    forall|a: int, b: int|
        0 <= a < cands.len() && 0 <= b < cands.len() && a != b ==> #[trigger] cands[a].who
            != #[trigger] cands[b].who
}

/// The `k`-th winner is the identifier of an elected candidate.
pub open spec fn winner_elected(s: Election, k: int) -> bool {
    exists|c: int| 0 <= c < s.cands.len() && (#[trigger] s.cands[c]).elected && s.cands[c].who == s.winners[k]
}

/// Each voter backing a winner carries some load; each winner is an elected candidate; and
/// with distinct candidates no winner is elected twice.
pub open spec fn winners_invariant(s: Election) -> bool {
    &&& forall|i: int, j: int|
        0 <= i < s.voters.len() && 0 <= j < s.voters[i].edges.len() && s.winners.contains(
            (#[trigger] s.voters[i].edges[j]).who,
        ) ==> s.voters[i].load >= 1
    &&& forall|k: int| 0 <= k < s.winners.len() ==> #[trigger] winner_elected(s, k)
    &&& distinct_whos(s.cands) ==> s.winners.no_duplicates()
}

} // verus!
