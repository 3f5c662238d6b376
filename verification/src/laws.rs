//! What holds of every election and every equalisation.

use vstd::prelude::*;
use crate::arith::ACCURACY;
use crate::election_lemmas::{lemma_prepared, lemma_rounds};
use crate::election_spec::{
    add_voters, assignments_of, cast_votes, distinct_whos, elect_outcome, initial_voters,
    min_unelected, prepared, raw_shares, rounds, scored, settle_edges, settle_voters, share_sum,
    standing_candidates, to_elect, winner_elected, winners_invariant, Election,
};
use crate::shares::lemma_assignments;
use crate::types::{AccountId, Candidate, Edge, PhragmenAssignment, SupportModel, VoterModel};
use crate::arith::{sat_add, sat_mul, sat_sub};
use crate::equalize_spec::{
    cumulate, equalize_pass, equalize_run, prefix_keys, redistribute, sorted_taken_back, unassign,
    unkeyed, water_filled, weight_sum,
};

verus! {

/// A candidate of that identifier stands.
pub open spec fn stands(cands: Seq<Candidate>, who: AccountId) -> bool {
    exists|c: int| 0 <= c < cands.len() && (#[trigger] cands[c]).who == who
}

/// The final state of an election that takes place, and the facts about it.
proof fn lemma_outcome(
    candidate_count: usize,
    minimum_candidate_count: usize,
    staked_candidates: Seq<(AccountId, u64)>,
    staked_voters: Seq<(AccountId, u64, Seq<AccountId>)>,
    self_vote: bool,
)
    requires
        staked_candidates.len() <= usize::MAX,
    ensures
        ({
            let start = prepared(staked_candidates, staked_voters, self_vote);
            let fin = rounds(start, to_elect(candidate_count, start.cands.len()));
            &&& crate::election_spec::round_invariant(fin)
            &&& winners_invariant(fin)
            &&& fin.winners.len() == to_elect(candidate_count, start.cands.len())
            &&& start.cands.len() == standing_candidates(staked_candidates, self_vote).len()
            &&& fin.cands.len() == start.cands.len()
            &&& forall|c: int|
                0 <= c < fin.cands.len() ==> (#[trigger] fin.cands[c]).who == standing_candidates(
                    staked_candidates,
                    self_vote,
                )[c].who
        }),
{
    lemma_prepared(staked_candidates, staked_voters, self_vote);
    let start = prepared(staked_candidates, staked_voters, self_vote);
    let k = to_elect(candidate_count, start.cands.len());
    assert(winners_invariant(start));
    lemma_rounds(start, k);
    let fin = rounds(start, k);
    assert forall|c: int| 0 <= c < fin.cands.len() implies (#[trigger] fin.cands[c]).who
        == standing_candidates(staked_candidates, self_vote)[c].who by {
        assert(fin.cands[c].who == start.cands[c].who);
    }
}

/// No stake goes to waste: every voter that backs a winner other than itself is assigned
/// shares in winners other than itself, never none, and they add up to exactly `ACCURACY`.
pub proof fn law_shares_sum_to_accuracy(
    candidate_count: usize,
    minimum_candidate_count: usize,
    staked_candidates: Seq<(AccountId, u64)>,
    staked_voters: Seq<(AccountId, u64, Seq<AccountId>)>,
    self_vote: bool,
)
    requires
        staked_candidates.len() <= usize::MAX,
    ensures
        elect_outcome(candidate_count, minimum_candidate_count, staked_candidates, staked_voters, self_vote)
            matches Some(o) ==> forall|k: int|
            0 <= k < o.assignments.len() ==> {
                let a = #[trigger] o.assignments[k];
                &&& a.1.len() > 0
                &&& share_sum(a.1) == ACCURACY
                &&& forall|j: int|
                    0 <= j < a.1.len() ==> o.winners.contains((#[trigger] a.1[j]).0) && a.1[j].0 != a.0
            },
{
    lemma_outcome(candidate_count, minimum_candidate_count, staked_candidates, staked_voters, self_vote);
    let start = prepared(staked_candidates, staked_voters, self_vote);
    let fin = rounds(start, to_elect(candidate_count, start.cands.len()));
    lemma_assignments(fin.voters, fin.winners);
}

/// The election takes place exactly when at least `minimum_candidate_count` candidates stand;
/// it then elects as many as asked for, at most all that stand, each of them a standing
/// candidate, and none twice when the standing candidates are distinct.
pub proof fn law_winners(
    candidate_count: usize,
    minimum_candidate_count: usize,
    staked_candidates: Seq<(AccountId, u64)>,
    staked_voters: Seq<(AccountId, u64, Seq<AccountId>)>,
    self_vote: bool,
)
    requires
        staked_candidates.len() <= usize::MAX,
    ensures
        ({
            let standing = standing_candidates(staked_candidates, self_vote);
            let r = elect_outcome(
                candidate_count,
                minimum_candidate_count,
                staked_candidates,
                staked_voters,
                self_vote,
            );
            &&& r is None <==> standing.len() < minimum_candidate_count
            &&& r matches Some(o) ==> {
                &&& o.winners.len() == if candidate_count <= standing.len() {
                    candidate_count as int
                } else {
                    standing.len() as int
                }
                &&& forall|k: int| 0 <= k < o.winners.len() ==> #[trigger] stands(standing, o.winners[k])
                &&& distinct_whos(standing) ==> o.winners.no_duplicates()
            }
        }),
{
    lemma_outcome(candidate_count, minimum_candidate_count, staked_candidates, staked_voters, self_vote);
    let standing = standing_candidates(staked_candidates, self_vote);
    let start = prepared(staked_candidates, staked_voters, self_vote);
    let fin = rounds(start, to_elect(candidate_count, start.cands.len()));
    if standing.len() >= minimum_candidate_count {
        assert forall|k: int| 0 <= k < fin.winners.len() implies #[trigger] stands(standing, fin.winners[k]) by {
            assert(winner_elected(fin, k));
            let c = choose|c: int|
                0 <= c < fin.cands.len() && (#[trigger] fin.cands[c]).elected && fin.cands[c].who == fin.winners[k];
            assert(standing[c].who == fin.winners[k]);
        }
        if distinct_whos(standing) {
            assert(distinct_whos(fin.cands)) by {
                assert forall|a: int, b: int|
                    0 <= a < fin.cands.len() && 0 <= b < fin.cands.len() && a != b implies #[trigger] fin.cands[a].who
                    != #[trigger] fin.cands[b].who by {
                    assert(standing[a].who != standing[b].who);
                }
            }
        }
    }
}


/// Taking a voter's stake back keeps the set of supported candidates.
pub proof fn lemma_unassign_dom(voter: AccountId, edges: Seq<PhragmenAssignment>, sup: Map<AccountId, SupportModel>)
    ensures
        unassign(voter, edges, sup).1.dom() == sup.dom(),
    decreases edges.len(),
{
    if edges.len() > 0 {
        lemma_unassign_dom(voter, edges.drop_last(), sup);
        let p = unassign(voter, edges.drop_last(), sup);
        assert(unassign(voter, edges, sup).1.dom() =~= p.1.dom());
    }
}

/// Handing stake out keeps the set of supported candidates.
pub proof fn lemma_redistribute_dom(
    voter: AccountId,
    edges: Seq<PhragmenAssignment>,
    sup: Map<AccountId, SupportModel>,
    share: u128,
    last_stake: u128,
    n: int,
)
    ensures
        redistribute(voter, edges, sup, share, last_stake, n).1.dom() == sup.dom(),
    decreases n,
{
    if n > 0 {
        lemma_redistribute_dom(voter, edges, sup, share, last_stake, n - 1);
        let p = redistribute(voter, edges, sup, share, last_stake, n - 1);
        assert(redistribute(voter, edges, sup, share, last_stake, n).1.dom() =~= p.1.dom());
    }
}

/// A pass over the first `n` voters keeps the set of supported candidates.
proof fn lemma_pass_dom(
    assignments: Seq<(AccountId, Seq<PhragmenAssignment>)>,
    budgets: Seq<u64>,
    sup: Map<AccountId, SupportModel>,
    tolerance: u128,
    n: int,
)
    ensures
        equalize_pass(assignments, budgets, sup, tolerance, n).1.dom() == sup.dom(),
    decreases n,
{
    if n > 0 {
        lemma_pass_dom(assignments, budgets, sup, tolerance, n - 1);
        let p = equalize_pass(assignments, budgets, sup, tolerance, n - 1);
        let a = p.0[n - 1];
        let budget = budgets[n - 1] as u128;
        let edges = a.1;
        let un = unassign(a.0, edges, p.1);
        lemma_unassign_dom(a.0, edges, p.1);
        let sk = sorted_taken_back(a.0, edges, p.1);
        let sorted = unkeyed(sk);
        let cu = cumulate(sorted, un.1, budget, sorted.len() as int);
        let last_stake = sorted[cu.1].1;
        let split = cu.1 + 1;
        let excess = sat_sub(sat_add(budget, cu.0 as int), sat_mul(last_stake, split as u128));
        lemma_redistribute_dom(a.0, sorted, un.1, excess / (split as u128), last_stake, split);
    }
}

/// Equalisation never adds a candidate to the supports nor takes one away.
pub proof fn law_equalize_keeps_candidates(
    assignments: Seq<(AccountId, Seq<PhragmenAssignment>)>,
    stakes: Seq<Seq<u64>>,
    supports: Map<AccountId, SupportModel>,
    tolerance: u128,
)
    ensures
        equalize_run(assignments, stakes, supports, tolerance).1.dom() == supports.dom(),
    decreases stakes.len(),
{
    if stakes.len() > 0 {
        law_equalize_keeps_candidates(assignments, stakes.drop_last(), supports, tolerance);
        let p = equalize_run(assignments, stakes.drop_last(), supports, tolerance);
        lemma_pass_dom(p.0, stakes.last(), p.1, tolerance, p.0.len() as int);
    }
}


/// A candidate of that identifier is handed in with a stake of its own.
pub open spec fn has_own_stake(staked: Seq<(AccountId, u64)>, who: AccountId) -> bool {
    exists|i: int| 0 <= i < staked.len() && (#[trigger] staked[i]).0 == who && staked[i].1 != 0
}

/// With self-voting, every standing candidate was handed in with a stake of its own.
proof fn lemma_self_vote_standing(staked: Seq<(AccountId, u64)>)
    ensures
        forall|c: int|
            0 <= c < standing_candidates(staked, true).len() ==> has_own_stake(
                staked,
                (#[trigger] standing_candidates(staked, true)[c]).who,
            ),
    decreases staked.len(),
{
    if staked.len() > 0 {
        let d = staked.drop_last();
        lemma_self_vote_standing(d);
        let p = standing_candidates(d, true);
        let s = standing_candidates(staked, true);
        assert forall|c: int| 0 <= c < s.len() implies has_own_stake(staked, (#[trigger] s[c]).who) by {
            if c < p.len() {
                assert(s[c] == p[c]);
                assert(has_own_stake(d, p[c].who));
                let i = choose|i: int| 0 <= i < d.len() && (#[trigger] d[i]).0 == p[c].who && d[i].1 != 0;
                assert(staked[i] == d[i]);
            } else {
                assert(staked[staked.len() - 1] == staked.last());
            }
        }
    }
}

/// With self-voting, every winner was handed in with a stake of its own.
pub proof fn law_self_vote_winners_have_stake(
    candidate_count: usize,
    minimum_candidate_count: usize,
    staked_candidates: Seq<(AccountId, u64)>,
    staked_voters: Seq<(AccountId, u64, Seq<AccountId>)>,
)
    requires
        staked_candidates.len() <= usize::MAX,
    ensures
        elect_outcome(candidate_count, minimum_candidate_count, staked_candidates, staked_voters, true)
            matches Some(o) ==> forall|k: int|
            0 <= k < o.winners.len() ==> has_own_stake(staked_candidates, #[trigger] o.winners[k]),
{
    law_winners(candidate_count, minimum_candidate_count, staked_candidates, staked_voters, true);
    lemma_self_vote_standing(staked_candidates);
    let standing = standing_candidates(staked_candidates, true);
    if let Some(o) = elect_outcome(candidate_count, minimum_candidate_count, staked_candidates, staked_voters, true) {
        assert forall|k: int| 0 <= k < o.winners.len() implies has_own_stake(staked_candidates, #[trigger] o.winners[k]) by {
            assert(stands(standing, o.winners[k]));
            let c = choose|c: int| 0 <= c < standing.len() && (#[trigger] standing[c]).who == o.winners[k];
            assert(has_own_stake(staked_candidates, standing[c].who));
        }
    }
}


/// Every edge of `edges` goes to a candidate that the `i`-th voter voted for.
pub open spec fn voted_for(sv: Seq<(AccountId, u64, Seq<AccountId>)>, i: int, edges: Seq<Edge>) -> bool {
    forall|j: int| 0 <= j < edges.len() ==> sv[i].2.contains(#[trigger] edges[j].who)
}

/// A voter either only backs itself (a candidate's vote for itself), or is one of the voters
/// handed in and backs only candidates it voted for.
pub open spec fn voter_origin(n: VoterModel, sv: Seq<(AccountId, u64, Seq<AccountId>)>) -> bool {
    ||| forall|j: int| 0 <= j < n.edges.len() ==> (#[trigger] n.edges[j]).who == n.who
    ||| exists|i: int| 0 <= i < sv.len() && sv[i].0 == n.who && #[trigger] voted_for(sv, i, n.edges)
}

/// The assignment belongs to a voter handed in, and is only in candidates it voted for.
pub open spec fn assigned_as_voted(
    sv: Seq<(AccountId, u64, Seq<AccountId>)>,
    a: (AccountId, Seq<PhragmenAssignment>),
) -> bool {
    exists|i: int|
        0 <= i < sv.len() && sv[i].0 == a.0 && forall|j: int|
            0 <= j < a.1.len() ==> #[trigger] sv[i].2.contains(a.1[j].0)
}

/// Each edge cast goes to a candidate voted for.
proof fn lemma_cast_votes_whos(base: Seq<Candidate>, cands: Seq<Candidate>, stake: u128, votes: Seq<AccountId>)
    ensures
        forall|j: int|
            0 <= j < cast_votes(base, cands, stake, votes).1.len() ==> votes.contains(
                (#[trigger] cast_votes(base, cands, stake, votes).1[j]).who,
            ),
    decreases votes.len(),
{
    if votes.len() > 0 {
        let d = votes.drop_last();
        lemma_cast_votes_whos(base, cands, stake, d);
        let p = cast_votes(base, cands, stake, d);
        let r = cast_votes(base, cands, stake, votes);
        assert forall|j: int| 0 <= j < r.1.len() implies votes.contains((#[trigger] r.1[j]).who) by {
            if j < p.1.len() {
                assert(r.1[j] == p.1[j]);
                let k = choose|k: int| 0 <= k < d.len() && d[k] == p.1[j].who;
                assert(votes[k] == d[k]);
            } else {
                assert(votes[votes.len() - 1] == votes.last());
            }
        }
    }
}

/// The voters added come from the voters handed in.
proof fn lemma_add_voters_origin(
    base: Seq<Candidate>,
    cands: Seq<Candidate>,
    voters: Seq<VoterModel>,
    staked: Seq<(AccountId, u64, Seq<AccountId>)>,
    all: Seq<(AccountId, u64, Seq<AccountId>)>,
)
    requires
        staked.len() <= all.len(),
        forall|i: int| 0 <= i < staked.len() ==> #[trigger] staked[i] == all[i],
        forall|t: int| 0 <= t < voters.len() ==> voter_origin(#[trigger] voters[t], all),
    ensures
        forall|t: int|
            0 <= t < add_voters(base, cands, voters, staked).1.len() ==> voter_origin(
                #[trigger] add_voters(base, cands, voters, staked).1[t],
                all,
            ),
    decreases staked.len(),
{
    if staked.len() > 0 {
        let d = staked.drop_last();
        assert forall|i: int| 0 <= i < d.len() implies #[trigger] d[i] == all[i] by {
            assert(d[i] == staked[i]);
        }
        lemma_add_voters_origin(base, cands, voters, d, all);
        let p = add_voters(base, cands, voters, d);
        let last = staked.last();
        lemma_cast_votes_whos(base, p.0, last.1 as u128, last.2);
        let r = add_voters(base, cands, voters, staked);
        let i = staked.len() - 1;
        assert(staked[i] == all[i]);
        assert forall|t: int| 0 <= t < r.1.len() implies voter_origin(#[trigger] r.1[t], all) by {
            if t < p.1.len() {
                assert(r.1[t] == p.1[t]);
            } else {
                assert(voted_for(all, i, r.1[t].edges));
            }
        }
    }
}

/// The rounds keep where each voter comes from.
proof fn lemma_rounds_origin(start: Election, k: nat, all: Seq<(AccountId, u64, Seq<AccountId>)>)
    requires
        forall|t: int| 0 <= t < start.voters.len() ==> voter_origin(#[trigger] start.voters[t], all),
    ensures
        forall|t: int|
            0 <= t < rounds(start, k).voters.len() ==> voter_origin(#[trigger] rounds(start, k).voters[t], all),
    decreases k,
{
    if k > 0 {
        lemma_rounds_origin(start, (k - 1) as nat, all);
        let s = rounds(start, (k - 1) as nat);
        let cs = scored(s.cands, s.voters);
        if let Some(w) = min_unelected(cs) {
            let who = cs[w].who;
            let ws = cs[w].score.0;
            let nv = settle_voters(s.voters, who, ws);
            assert forall|t: int| 0 <= t < nv.len() implies voter_origin(#[trigger] nv[t], all) by {
                let n = s.voters[t];
                let r = settle_edges(n.edges, who, ws, n.load);
                lemma_settle_whos(n.edges, who, ws, n.load);
                assert(voter_origin(n, all));
                if forall|j: int| 0 <= j < n.edges.len() ==> (#[trigger] n.edges[j]).who == n.who {
                    assert forall|j: int| 0 <= j < nv[t].edges.len() implies (#[trigger] nv[t].edges[j]).who
                        == nv[t].who by {
                        assert(r.0[j].who == n.edges[j].who);
                    }
                } else {
                    let i = choose|i: int| 0 <= i < all.len() && all[i].0 == n.who && #[trigger] voted_for(all, i, n.edges);
                    assert forall|j: int| 0 <= j < nv[t].edges.len() implies all[i].2.contains(#[trigger] nv[t].edges[j].who) by {
                        assert(r.0[j].who == n.edges[j].who);
                        assert(all[i].2.contains(n.edges[j].who));
                    }
                    assert(voted_for(all, i, nv[t].edges));
                }
            }
        }
    }
}

/// Settling keeps the edges and their identifiers.
proof fn lemma_settle_whos(edges: Seq<Edge>, who: AccountId, score: u128, load: u128)
    ensures
        settle_edges(edges, who, score, load).0.len() == edges.len(),
        forall|j: int|
            0 <= j < edges.len() ==> (#[trigger] settle_edges(edges, who, score, load).0[j]).who
                == edges[j].who,
    decreases edges.len(),
{
    if edges.len() > 0 {
        lemma_settle_whos(edges.drop_last(), who, score, load);
        let p = settle_edges(edges.drop_last(), who, score, load);
        let r = settle_edges(edges, who, score, load);
        assert forall|j: int| 0 <= j < edges.len() implies (#[trigger] r.0[j]).who == edges[j].who by {
            if j < p.0.len() {
                assert(r.0[j] == p.0[j]);
                assert(edges.drop_last()[j] == edges[j]);
            }
        }
    }
}

/// Some edge goes to `c`.
pub open spec fn has_edge_to(edges: Seq<Edge>, c: AccountId) -> bool {
    exists|j: int| 0 <= j < edges.len() && (#[trigger] edges[j]).who == c
}

/// Each share taken is in the candidate of one of the voter's edges.
proof fn lemma_raw_from_edges(who: AccountId, load: u128, edges: Seq<Edge>, winners: Seq<AccountId>)
    ensures
        forall|k: int|
            0 <= k < raw_shares(who, load, edges, winners).len() ==> #[trigger] has_edge_to(
                edges,
                raw_shares(who, load, edges, winners)[k].0,
            ),
    decreases edges.len(),
{
    if edges.len() > 0 {
        let d = edges.drop_last();
        lemma_raw_from_edges(who, load, d, winners);
        let p = raw_shares(who, load, d, winners);
        let r = raw_shares(who, load, edges, winners);
        assert forall|k: int| 0 <= k < r.len() implies #[trigger] has_edge_to(edges, r[k].0) by {
            if k < p.len() {
                assert(r[k] == p[k]);
                assert(has_edge_to(d, p[k].0));
                let j = choose|j: int| 0 <= j < d.len() && (#[trigger] d[j]).who == p[k].0;
                assert(edges[j] == d[j]);
            } else {
                assert(edges[edges.len() - 1] == edges.last());
            }
        }
    }
}

/// The assignments come from the voters handed in, each only in candidates it voted for.
proof fn lemma_assignments_origin(
    voters: Seq<VoterModel>,
    winners: Seq<AccountId>,
    all: Seq<(AccountId, u64, Seq<AccountId>)>,
)
    requires
        forall|t: int| 0 <= t < voters.len() ==> voter_origin(#[trigger] voters[t], all),
    ensures
        forall|k: int|
            0 <= k < assignments_of(voters, winners).len() ==> assigned_as_voted(
                all,
                #[trigger] assignments_of(voters, winners)[k],
            ),
    decreases voters.len(),
{
    if voters.len() > 0 {
        let d = voters.drop_last();
        assert forall|t: int| 0 <= t < d.len() implies voter_origin(#[trigger] d[t], all) by {
            assert(d[t] == voters[t]);
        }
        lemma_assignments_origin(d, winners, all);
        let n = voters.last();
        assert(n == voters[voters.len() - 1]);
        let p = assignments_of(d, winners);
        let r = assignments_of(voters, winners);
        let sh = raw_shares(n.who, n.load, n.edges, winners);
        if sh.len() > 0 {
            lemma_raw_from_edges(n.who, n.load, n.edges, winners);
            crate::shares::lemma_raw_targets(n.who, n.load, n.edges, winners);
            assert(has_edge_to(n.edges, sh[0].0));
            let j0 = choose|j: int| 0 <= j < n.edges.len() && (#[trigger] n.edges[j]).who == sh[0].0;
            assert(sh[0].0 != n.who);
            assert(!(forall|j: int| 0 <= j < n.edges.len() ==> (#[trigger] n.edges[j]).who == n.who));
            let i = choose|i: int| 0 <= i < all.len() && all[i].0 == n.who && #[trigger] voted_for(all, i, n.edges);
            let a = r[r.len() - 1];
            crate::shares::lemma_normalize_keys(sh);
            assert forall|j: int| 0 <= j < a.1.len() implies #[trigger] all[i].2.contains(a.1[j].0) by {
                assert(a.1[j].0 == sh[j].0);
                assert(has_edge_to(n.edges, sh[j].0));
                let e = choose|e: int| 0 <= e < n.edges.len() && (#[trigger] n.edges[e]).who == sh[j].0;
                assert(all[i].2.contains(n.edges[e].who));
            }
            assert(assigned_as_voted(all, a));
        }
        assert forall|k: int| 0 <= k < r.len() implies assigned_as_voted(all, #[trigger] r[k]) by {
            if k < p.len() {
                assert(r[k] == p[k]);
            }
        }
    }
}

/// A voter is only ever assigned to candidates it voted for, and every assignment belongs to a
/// voter handed in.
pub proof fn law_assigned_as_voted(
    candidate_count: usize,
    minimum_candidate_count: usize,
    staked_candidates: Seq<(AccountId, u64)>,
    staked_voters: Seq<(AccountId, u64, Seq<AccountId>)>,
    self_vote: bool,
)
    ensures
        elect_outcome(candidate_count, minimum_candidate_count, staked_candidates, staked_voters, self_vote)
            matches Some(o) ==> forall|k: int|
            0 <= k < o.assignments.len() ==> assigned_as_voted(staked_voters, #[trigger] o.assignments[k]),
{
    let base = standing_candidates(staked_candidates, self_vote);
    let iv = initial_voters(base, self_vote);
    assert forall|t: int| 0 <= t < iv.len() implies voter_origin(#[trigger] iv[t], staked_voters) by {
        assert forall|j: int| 0 <= j < iv[t].edges.len() implies (#[trigger] iv[t].edges[j]).who == iv[t].who by {
            assert(j == 0);
        }
    }
    lemma_add_voters_origin(base, base, iv, staked_voters, staked_voters);
    let start = prepared(staked_candidates, staked_voters, self_vote);
    let k = to_elect(candidate_count, start.cands.len());
    lemma_rounds_origin(start, k, staked_voters);
    let fin = rounds(start, k);
    lemma_assignments_origin(fin.voters, fin.winners, staked_voters);
}

/// The stake on the first `m` edges is at most that on all of them.
proof fn lemma_weight_sum_take(edges: Seq<PhragmenAssignment>, m: int)
    requires
        0 <= m <= edges.len(),
    ensures
        weight_sum(edges.take(m)) <= weight_sum(edges),
    decreases edges.len() - m,
{
    if m < edges.len() {
        lemma_weight_sum_take(edges, m + 1);
        assert(edges.take(m + 1).drop_last() =~= edges.take(m));
    } else {
        assert(edges.take(m) =~= edges);
    }
}

/// Edges that give each of the first `m` sorted candidates more than it lacks of `level` carry
/// more than the `m` of them lack of it together.
proof fn lemma_weight_sum_above(
    alternative: Seq<PhragmenAssignment>,
    sk: Seq<(u128, PhragmenAssignment)>,
    level: int,
    m: int,
)
    requires
        0 <= m <= alternative.len(),
        m <= sk.len(),
        forall|i: int| 0 <= i < m ==> sk[i].0 + (#[trigger] alternative[i]).1 > level,
    ensures
        weight_sum(alternative.take(m)) >= m * (level + 1) - prefix_keys(sk, m),
    decreases m,
{
    if m > 0 {
        lemma_weight_sum_above(alternative, sk, level, m - 1);
        assert(alternative.take(m).drop_last() =~= alternative.take(m - 1));
        assert(alternative.take(m).last() == alternative[m - 1]);
        assert((m - 1) * (level + 1) + (level + 1) == m * (level + 1)) by (nonlinear_arith);
    } else {
        assert(0 * (level + 1) == 0);
    }
}

/// Filling maximises the least support: every candidate of the voter ends at or above the
/// level, and however else the budget were split over the same candidates (`alternative`, in the
/// order of the sort, handing out no more than the budget), one of them would end at or below
/// it.
pub proof fn law_filling_maximises_least_support(
    voter: AccountId,
    budget: u128,
    edges: Seq<PhragmenAssignment>,
    sup: Map<AccountId, SupportModel>,
    k: int,
    new_edges: Seq<PhragmenAssignment>,
    new_sup: Map<AccountId, SupportModel>,
    alternative: Seq<PhragmenAssignment>,
)
    requires
        water_filled(voter, budget, edges, sup, k, new_edges, new_sup),
        alternative.len() == edges.len(),
        weight_sum(alternative) <= budget,
    ensures
        forall|i: int|
            0 <= i < edges.len() ==> new_sup[(#[trigger] sorted_taken_back(voter, edges, sup)[i]).1.0].total
                >= (budget + prefix_keys(sorted_taken_back(voter, edges, sup), k)) / k,
        exists|i: int|
            0 <= i < edges.len() && sorted_taken_back(voter, edges, sup)[i].0 + (#[trigger] alternative[i]).1
                <= (budget + prefix_keys(sorted_taken_back(voter, edges, sup), k)) / k,
{
    let sk = sorted_taken_back(voter, edges, sup);
    let x = budget + prefix_keys(sk, k);
    let level = x / k;
    assert forall|i: int| 0 <= i < edges.len() implies new_sup[(#[trigger] sk[i]).1.0].total >= level by {
        if i < k {
            assert(new_sup[sk[i].1.0].total == level as u128);
        }
    }
    if forall|i: int| 0 <= i < edges.len() ==> sk[i].0 + (#[trigger] alternative[i]).1 > level {
        lemma_weight_sum_above(alternative, sk, level, k);
        lemma_weight_sum_take(alternative, k);
        vstd::arithmetic::div_mod::lemma_fundamental_div_mod(x, k);
        vstd::arithmetic::div_mod::lemma_mod_bound(x, k);
        assert(k * (level + 1) > x) by (nonlinear_arith)
            requires
                x == k * level + x % k,
                x % k < k,
        ;
        assert(false);
    }
}

/// More rounds only add winners after those of fewer rounds.
pub proof fn lemma_rounds_prefix(s: Election, k1: nat, k2: nat)
    requires
        k1 <= k2,
    ensures
        rounds(s, k1).winners.len() <= rounds(s, k2).winners.len(),
        rounds(s, k2).winners.take(rounds(s, k1).winners.len() as int) == rounds(s, k1).winners,
    decreases k2,
{
    if k1 < k2 {
        lemma_rounds_prefix(s, k1, (k2 - 1) as nat);
        let w1 = rounds(s, k1).winners;
        let w = rounds(s, (k2 - 1) as nat).winners;
        let w2 = rounds(s, k2).winners;
        assert(w2 == w || w2 == w.push(w2.last()));
        assert(w2.take(w1.len() as int) =~= w.take(w1.len() as int));
    } else {
        assert(rounds(s, k2).winners.take(rounds(s, k2).winners.len() as int) =~= rounds(s, k2).winners);
    }
}

/// No round's choice depends on how many candidates are to be elected: the winners of an
/// election for fewer candidates are the first winners of one for more, all else the same.
pub proof fn law_winners_prefix(
    fewer: usize,
    more: usize,
    minimum_candidate_count: usize,
    staked_candidates: Seq<(AccountId, u64)>,
    staked_voters: Seq<(AccountId, u64, Seq<AccountId>)>,
    self_vote: bool,
)
    requires
        fewer <= more,
    ensures
        elect_outcome(fewer, minimum_candidate_count, staked_candidates, staked_voters, self_vote) matches Some(o1)
            ==> elect_outcome(more, minimum_candidate_count, staked_candidates, staked_voters, self_vote) matches Some(o2)
            ==> o1.winners.len() <= o2.winners.len() && o2.winners.take(o1.winners.len() as int) == o1.winners,
{
    let start = prepared(staked_candidates, staked_voters, self_vote);
    lemma_rounds_prefix(
        start,
        to_elect(fewer, start.cands.len()),
        to_elect(more, start.cands.len()),
    );
}

} // verus!
