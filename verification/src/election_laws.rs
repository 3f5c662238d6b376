//! What the election's results are, stated over its inputs.

use vstd::prelude::*;
use vstd::arithmetic::div_mod::{lemma_div_pos_is_pos, lemma_fundamental_div_mod, lemma_mod_bound};
use vstd::arithmetic::mul::{lemma_mul_inequality, lemma_mul_is_commutative};
use crate::arith::{sat_add, ACCURACY};
use crate::election_lemmas::{lemma_index_of, lemma_min_unelected, lemma_prepared};
use crate::election_spec::{
    add_voters, assignments_of, cast_votes, edge_scores, elect_outcome, index_of, initial_voters,
    min_unelected, normalize, prepared, ratio, raw_shares, round, round_score, rounds, scored,
    share_sum, standing_candidates, to_elect, unloaded, vote_weight, voter_scores, with_score,
};
use crate::laws::lemma_rounds_prefix;
use crate::per_u128::{xth, PerU128};
use crate::types::Candidate;
use crate::shares::{lemma_share_sum_elem, lemma_share_sum_nonneg};
use crate::types::{AccountId, Edge, PhragmenAssignment, VoterModel};

verus! {

/// The share, in parts of `ACCURACY`, that an edge of `edge_load` stands for in a voter of
/// `voter_load`: `ACCURACY * edge_load / voter_load`, rounded down; all of `ACCURACY` when the
/// edge carries the voter's whole load, and the edge's load over the voter's in parts of
/// `ACCURACY` when the product does not fit.
pub open spec fn proportional_share(voter_load: u128, edge_load: u128) -> int {
    let d: int = if voter_load == 0 {
        1
    } else {
        voter_load as int
    };
    if voter_load == edge_load {
        ACCURACY as int
    } else if ACCURACY * edge_load <= u128::MAX {
        (ACCURACY * edge_load) / d
    } else {
        (edge_load as int) / (d / (ACCURACY as int))
    }
}

/// The voter's edges to winners other than itself, in order.
pub open spec fn winner_edges(who: AccountId, edges: Seq<Edge>, winners: Seq<AccountId>) -> Seq<Edge>
    decreases edges.len(),
{
    if edges.len() == 0 {
        seq![]
    } else if winners.contains(edges.last().who) && edges.last().who != who {
        winner_edges(who, edges.drop_last(), winners).push(edges.last())
    } else {
        winner_edges(who, edges.drop_last(), winners)
    }
}

/// The shares follow the loads: one for each edge of the voter to a winner other than itself,
/// in order, each at least its proportional share, all topped up alike to within one part.
pub open spec fn shares_follow_loads(n: VoterModel, winners: Seq<AccountId>, shares: Seq<PhragmenAssignment>) -> bool {
    let q = winner_edges(n.who, n.edges, winners);
    &&& shares.len() == q.len()
    &&& forall|i: int|
        #![trigger shares[i]]
        0 <= i < q.len() ==> shares[i].0 == q[i].who && shares[i].1 >= proportional_share(n.load, q[i].load.0)
    &&& forall|i: int, j: int|
        0 <= i < q.len() && 0 <= j < q.len() ==> (#[trigger] shares[i]).1 - proportional_share(n.load, q[i].load.0)
            - ((#[trigger] shares[j]).1 - proportional_share(n.load, q[j].load.0)) <= 1
}

/// A voter's raw shares are its proportional shares in the winners it backs, other than itself.
proof fn lemma_raw_shares(who: AccountId, load: u128, edges: Seq<Edge>, winners: Seq<AccountId>)
    ensures
        raw_shares(who, load, edges, winners).len() == winner_edges(who, edges, winners).len(),
        forall|i: int|
            0 <= i < winner_edges(who, edges, winners).len() ==> (#[trigger] raw_shares(who, load, edges, winners)[i])
                == (winner_edges(who, edges, winners)[i].who, ratio(load, winner_edges(who, edges, winners)[i].load.0)),
    decreases edges.len(),
{
    if edges.len() > 0 {
        lemma_raw_shares(who, load, edges.drop_last(), winners);
    }
}

/// Topping up keeps each share's target, never lowers a share, and raises all alike to within
/// one part.
proof fn lemma_normalize_excess(s: Seq<PhragmenAssignment>)
    ensures
        normalize(s).len() == s.len(),
        forall|i: int| 0 <= i < s.len() ==> (#[trigger] normalize(s)[i]).0 == s[i].0 && normalize(s)[i].1 >= s[i].1,
        forall|i: int, j: int|
            0 <= i < s.len() && 0 <= j < s.len() ==> (#[trigger] normalize(s)[i]).1 - s[i].1 - ((
            #[trigger] normalize(s)[j]).1 - s[j].1) <= 1,
{
    if s.len() > 0 {
        let sum = share_sum(s);
        lemma_share_sum_nonneg(s);
        let l: int = s.len() as int;
        let diff: int = if sum <= ACCURACY {
            ACCURACY - sum
        } else {
            0
        };
        let per = diff / l;
        let rem = diff - per * l;
        lemma_fundamental_div_mod(diff, l);
        lemma_mod_bound(diff, l);
        lemma_div_pos_is_pos(diff, l);
        lemma_mul_is_commutative(l, per);
        assert(per <= diff) by {
            lemma_mul_inequality(1, l, per);
        }
        let t = normalize(s);
        assert forall|i: int| 0 <= i < s.len() implies (#[trigger] t[i]).1 == s[i].1 + per + if i < rem {
            1int
        } else {
            0int
        } by {
            if sum <= ACCURACY {
                lemma_share_sum_elem(s, i);
            }
        }
    }
}

/// The assignments come one for each voter with a share, each the topped-up raw shares of that
/// voter.
proof fn lemma_assignments_from_voters(voters: Seq<VoterModel>, winners: Seq<AccountId>)
    ensures
        forall|k: int|
            0 <= k < assignments_of(voters, winners).len() ==> exists|t: int|
                0 <= t < voters.len() && (#[trigger] assignments_of(voters, winners)[k]) == (
                    voters[t].who,
                    normalize(raw_shares(voters[t].who, voters[t].load, voters[t].edges, winners)),
                ),
    decreases voters.len(),
{
    if voters.len() > 0 {
        let d = voters.drop_last();
        lemma_assignments_from_voters(d, winners);
        let p = assignments_of(d, winners);
        let a = assignments_of(voters, winners);
        assert forall|k: int| 0 <= k < a.len() implies exists|t: int|
            0 <= t < voters.len() && (#[trigger] a[k]) == (
                voters[t].who,
                normalize(raw_shares(voters[t].who, voters[t].load, voters[t].edges, winners)),
            ) by {
            if k < p.len() {
                assert(a[k] == p[k]);
                let t = choose|t: int|
                    0 <= t < d.len() && (#[trigger] p[k]) == (
                        d[t].who,
                        normalize(raw_shares(d[t].who, d[t].load, d[t].edges, winners)),
                    );
                assert(d[t] == voters[t]);
            } else {
                let t = voters.len() - 1;
                assert(voters.last() == voters[t]);
            }
        }
    }
}

/// The shares a voter is assigned follow the loads of its edges: one share for each edge it
/// has to a winner other than itself, in order, each at least `ACCURACY` times the edge's load
/// over the voter's load (rounded down), all topped up alike to within one part, so that the
/// shares of two edges differ as their loads do, up to rounding.
pub proof fn law_shares_follow_loads(
    candidate_count: usize,
    minimum_candidate_count: usize,
    staked_candidates: Seq<(AccountId, u64)>,
    staked_voters: Seq<(AccountId, u64, Seq<AccountId>)>,
    self_vote: bool,
)
    ensures
        elect_outcome(candidate_count, minimum_candidate_count, staked_candidates, staked_voters, self_vote)
            matches Some(o) ==> {
            let start = prepared(staked_candidates, staked_voters, self_vote);
            let fin = rounds(start, to_elect(candidate_count, start.cands.len()));
            forall|k: int|
                0 <= k < o.assignments.len() ==> exists|t: int|
                    0 <= t < fin.voters.len() && (#[trigger] o.assignments[k]).0 == fin.voters[t].who
                        && shares_follow_loads(fin.voters[t], fin.winners, o.assignments[k].1)
        },
{
    let start = prepared(staked_candidates, staked_voters, self_vote);
    let fin = rounds(start, to_elect(candidate_count, start.cands.len()));
    let asg = assignments_of(fin.voters, fin.winners);
    lemma_assignments_from_voters(fin.voters, fin.winners);
    assert forall|k: int| 0 <= k < asg.len() implies exists|t: int|
        0 <= t < fin.voters.len() && (#[trigger] asg[k]).0 == fin.voters[t].who && shares_follow_loads(
            fin.voters[t],
            fin.winners,
            asg[k].1,
        ) by {
        let t = choose|t: int|
            0 <= t < fin.voters.len() && (#[trigger] asg[k]) == (
                fin.voters[t].who,
                normalize(raw_shares(fin.voters[t].who, fin.voters[t].load, fin.voters[t].edges, fin.winners)),
            );
        let n = fin.voters[t];
        let raw = raw_shares(n.who, n.load, n.edges, fin.winners);
        lemma_raw_shares(n.who, n.load, n.edges, fin.winners);
        lemma_normalize_excess(raw);
        let q = winner_edges(n.who, n.edges, fin.winners);
        assert forall|i: int| 0 <= i < q.len() implies raw[i].1 == proportional_share(n.load, q[i].load.0) by {
            assert(raw[i] == (q[i].who, ratio(n.load, q[i].load.0)));
        }
        assert(shares_follow_loads(n, fin.winners, asg[k].1));
    }
}

/// The candidates that stand, each with its own stake: with self-voting only those with a stake
/// of their own, without it all of them.
pub open spec fn stand(staked: Seq<(AccountId, u64)>, self_vote: bool) -> Seq<(AccountId, u64)>
    decreases staked.len(),
{
    if staked.len() == 0 {
        seq![]
    } else if self_vote && staked.last().1 == 0 {
        stand(staked.drop_last(), self_vote)
    } else {
        stand(staked.drop_last(), self_vote).push(staked.last())
    }
}

/// How many of the votes go to `who`.
pub open spec fn votes_for(votes: Seq<AccountId>, who: AccountId) -> int
    decreases votes.len(),
{
    if votes.len() == 0 {
        0
    } else {
        votes_for(votes.drop_last(), who) + if votes.last() == who {
            1int
        } else {
            0int
        }
    }
}

/// The stake voted for `who`: each voter's stake once for every vote it gives it.
pub open spec fn stake_voted(staked_voters: Seq<(AccountId, u64, Seq<AccountId>)>, who: AccountId) -> int
    decreases staked_voters.len(),
{
    if staked_voters.len() == 0 {
        0
    } else {
        stake_voted(staked_voters.drop_last(), who) + staked_voters.last().1 * votes_for(
            staked_voters.last().2,
            who,
        )
    }
}

/// A standing candidate's approval: its own stake when it votes for itself, plus the stake
/// voted for it, capped at `u128::MAX`.
pub open spec fn approval(self_vote: bool, c: (AccountId, u64), staked_voters: Seq<(AccountId, u64, Seq<AccountId>)>) -> int {
    let a = (if self_vote {
        c.1 as int
    } else {
        0int
    }) + stake_voted(staked_voters, c.0);
    if a > u128::MAX {
        u128::MAX as int
    } else {
        a
    }
}

/// The score a candidate of approval `a` starts a round with before any voter has a load: one
/// over its approval, `u128::MAX / max(a, 1)`.
pub open spec fn first_score(a: int) -> int {
    u128::MAX as int / (if a == 0 {
        1int
    } else {
        a
    })
}

/// The standing candidates are the candidates that stand, unelected, approved by their own stake
/// under self-voting, and come from the candidates handed in; with distinct identifiers handed
/// in, they are distinct.
proof fn lemma_stand(staked: Seq<(AccountId, u64)>, self_vote: bool)
    ensures
        standing_candidates(staked, self_vote).len() == stand(staked, self_vote).len(),
        forall|k: int|
            0 <= k < stand(staked, self_vote).len() ==> #[trigger] standing_candidates(staked, self_vote)[k]
                == (Candidate {
                who: stand(staked, self_vote)[k].0,
                score: PerU128(0),
                approval_stake: if self_vote {
                    stand(staked, self_vote)[k].1 as u128
                } else {
                    0
                },
                elected: false,
            }),
        forall|k: int| 0 <= k < stand(staked, self_vote).len() ==> staked.contains(#[trigger] stand(staked, self_vote)[k]),
        (forall|i: int, j: int| 0 <= i < j < staked.len() ==> staked[i].0 != staked[j].0) ==> forall|i: int, j: int|
            0 <= i < j < stand(staked, self_vote).len() ==> (#[trigger] stand(staked, self_vote)[i]).0
                != (#[trigger] stand(staked, self_vote)[j]).0,
    decreases staked.len(),
{
    if staked.len() > 0 {
        let d = staked.drop_last();
        lemma_stand(d, self_vote);
        let p = stand(d, self_vote);
        let st = stand(staked, self_vote);
        assert forall|k: int| 0 <= k < st.len() implies staked.contains(#[trigger] st[k]) by {
            if k < p.len() {
                assert(st[k] == p[k]);
                let i = choose|i: int| 0 <= i < d.len() && d[i] == p[k];
                assert(staked[i] == d[i]);
            } else {
                assert(staked[staked.len() - 1] == st[k]);
            }
        }
        if forall|i: int, j: int| 0 <= i < j < staked.len() ==> staked[i].0 != staked[j].0 {
            assert(forall|i: int, j: int| 0 <= i < j < d.len() ==> d[i].0 != d[j].0) by {
                assert forall|i: int, j: int| 0 <= i < j < d.len() implies d[i].0 != d[j].0 by {
                    assert(d[i] == staked[i] && d[j] == staked[j]);
                }
            }
            assert forall|i: int, j: int| 0 <= i < j < st.len() implies (#[trigger] st[i]).0 != (#[trigger] st[j]).0 by {
                if j < p.len() {
                    assert(st[i] == p[i] && st[j] == p[j]);
                } else {
                    assert(st[i] == p[i]);
                    let x = choose|x: int| 0 <= x < d.len() && d[x] == p[i];
                    assert(staked[x] == d[x]);
                    assert(st[j] == staked[staked.len() - 1]);
                }
            }
        }
    }
}

/// No candidate found under an identifier means none has it.
proof fn lemma_index_none(cands: Seq<Candidate>, who: AccountId)
    ensures
        index_of(cands, who) is None ==> forall|k: int| 0 <= k < cands.len() ==> (#[trigger] cands[k]).who != who,
    decreases cands.len(),
{
    if cands.len() > 0 && cands.last().who != who {
        lemma_index_none(cands.drop_last(), who);
        assert forall|k: int| 0 <= k < cands.len() - 1 implies (#[trigger] cands[k]).who == cands.drop_last()[k].who by {}
    }
}

/// The capped sum of a capped sum and more is the capped sum of all.
proof fn lemma_cap_add(x: int, y: int)
    requires
        0 <= x,
        0 <= y,
    ensures
        (if (if x > u128::MAX {
            u128::MAX as int
        } else {
            x
        }) + y > u128::MAX {
            u128::MAX as int
        } else {
            (if x > u128::MAX {
                u128::MAX as int
            } else {
                x
            }) + y
        }) == (if x + y > u128::MAX {
            u128::MAX as int
        } else {
            x + y
        }),
{
}

/// One voter's votes add its stake, once per vote, to the approval of each candidate voted for,
/// capped at `u128::MAX`, and keep the candidates otherwise.
proof fn lemma_cast_approvals(base: Seq<Candidate>, cands: Seq<Candidate>, stake: u128, votes: Seq<AccountId>)
    requires
        base.len() == cands.len(),
        forall|k: int| 0 <= k < cands.len() ==> #[trigger] cands[k].who == base[k].who,
        forall|i: int, j: int| 0 <= i < j < base.len() ==> (#[trigger] base[i]).who != (#[trigger] base[j]).who,
    ensures
        cast_votes(base, cands, stake, votes).0.len() == cands.len(),
        forall|k: int|
            #![trigger cast_votes(base, cands, stake, votes).0[k]]
            0 <= k < cands.len() ==> {
                let c = cast_votes(base, cands, stake, votes).0[k];
                let a = cands[k].approval_stake + stake * votes_for(votes, base[k].who);
                &&& c.who == cands[k].who
                &&& c.elected == cands[k].elected
                &&& c.approval_stake == if a > u128::MAX {
                    u128::MAX as int
                } else {
                    a
                }
            },
    decreases votes.len(),
{
    if votes.len() > 0 {
        let dv = votes.drop_last();
        lemma_cast_approvals(base, cands, stake, dv);
        let p = cast_votes(base, cands, stake, dv);
        let r = cast_votes(base, cands, stake, votes);
        let v = votes.last();
        lemma_index_of(base, v);
        lemma_index_none(base, v);
        assert forall|k: int|
            #![trigger r.0[k]]
            0 <= k < cands.len() implies {
                let c = r.0[k];
                let a = cands[k].approval_stake + stake * votes_for(votes, base[k].who);
                &&& c.who == cands[k].who
                &&& c.elected == cands[k].elected
                &&& c.approval_stake == if a > u128::MAX {
                    u128::MAX as int
                } else {
                    a
                }
            } by {
            let n = votes_for(dv, base[k].who);
            lemma_votes_for_nonneg(dv, base[k].who);
            let c0 = cands[k].approval_stake as int;
            assert(stake * n >= 0) by (nonlinear_arith)
                requires
                    stake >= 0,
                    n >= 0,
            ;
            assert(p.0[k] == p.0[k]);
            match index_of(base, v) {
                Some(i) => {
                    if i == k {
                        assert(votes_for(votes, base[k].who) == n + 1);
                        assert(stake * (n + 1) == stake * n + stake) by (nonlinear_arith);
                        lemma_cap_add(c0 + stake * n, stake as int);
                    } else {
                        assert(base[k].who != v);
                    }
                },
                None => {
                    assert(base[k].who != v);
                },
            }
        }
    } else {
        assert forall|k: int| 0 <= k < cands.len() implies votes_for(votes, base[k].who) == 0 by {}
    }
}

/// Each voter's votes add its stake to the approvals of the candidates it votes for.
proof fn lemma_voter_approvals(
    base: Seq<Candidate>,
    cands: Seq<Candidate>,
    voters: Seq<VoterModel>,
    staked: Seq<(AccountId, u64, Seq<AccountId>)>,
)
    requires
        base.len() == cands.len(),
        forall|k: int| 0 <= k < cands.len() ==> #[trigger] cands[k].who == base[k].who,
        forall|i: int, j: int| 0 <= i < j < base.len() ==> (#[trigger] base[i]).who != (#[trigger] base[j]).who,
    ensures
        add_voters(base, cands, voters, staked).0.len() == cands.len(),
        forall|k: int|
            #![trigger add_voters(base, cands, voters, staked).0[k]]
            0 <= k < cands.len() ==> {
                let c = add_voters(base, cands, voters, staked).0[k];
                let a = cands[k].approval_stake + stake_voted(staked, base[k].who);
                &&& c.who == cands[k].who
                &&& c.elected == cands[k].elected
                &&& c.approval_stake == if a > u128::MAX {
                    u128::MAX as int
                } else {
                    a
                }
            },
    decreases staked.len(),
{
    if staked.len() > 0 {
        let ds = staked.drop_last();
        lemma_voter_approvals(base, cands, voters, ds);
        let p = add_voters(base, cands, voters, ds);
        let stake = staked.last().1;
        assert forall|k: int| 0 <= k < p.0.len() implies #[trigger] p.0[k].who == base[k].who by {
            assert(p.0[k] == p.0[k]);
        }
        lemma_cast_approvals(base, p.0, stake as u128, staked.last().2);
        let r = add_voters(base, cands, voters, staked);
        assert forall|k: int|
            #![trigger r.0[k]]
            0 <= k < cands.len() implies {
                let c = r.0[k];
                let a = cands[k].approval_stake + stake_voted(staked, base[k].who);
                &&& c.who == cands[k].who
                &&& c.elected == cands[k].elected
                &&& c.approval_stake == if a > u128::MAX {
                    u128::MAX as int
                } else {
                    a
                }
            } by {
            assert(p.0[k] == p.0[k]);
            let x = cands[k].approval_stake + stake_voted(ds, base[k].who);
            let y = stake * votes_for(staked.last().2, base[k].who);
            lemma_stake_voted_nonneg(ds, base[k].who);
            lemma_votes_for_nonneg(staked.last().2, base[k].who);
            assert(y >= 0) by (nonlinear_arith)
                requires
                    stake >= 0,
                    votes_for(staked.last().2, base[k].who) >= 0,
                    y == stake * votes_for(staked.last().2, base[k].who),
            ;
            lemma_cap_add(x, y);
        }
    }
}

/// Votes are never counted below zero.
proof fn lemma_votes_for_nonneg(votes: Seq<AccountId>, who: AccountId)
    ensures
        votes_for(votes, who) >= 0,
    decreases votes.len(),
{
    if votes.len() > 0 {
        lemma_votes_for_nonneg(votes.drop_last(), who);
    }
}

/// Stake is never voted below zero.
proof fn lemma_stake_voted_nonneg(staked: Seq<(AccountId, u64, Seq<AccountId>)>, who: AccountId)
    ensures
        stake_voted(staked, who) >= 0,
    decreases staked.len(),
{
    if staked.len() > 0 {
        lemma_stake_voted_nonneg(staked.drop_last(), who);
        lemma_votes_for_nonneg(staked.last().2, who);
        let s = staked.last().1;
        let n = votes_for(staked.last().2, who);
        assert(s * n >= 0) by (nonlinear_arith)
            requires
                s >= 0,
                n >= 0,
        ;
    }
}

/// Voters without load add nothing to a score.
proof fn lemma_unloaded_scores(s: u128, ci: int, a: u128, voters: Seq<VoterModel>)
    requires
        forall|i: int| 0 <= i < voters.len() ==> unloaded(#[trigger] voters[i]),
    ensures
        voter_scores(s, ci, a, voters) == s,
    decreases voters.len(),
{
    if voters.len() > 0 {
        let d = voters.drop_last();
        assert forall|i: int| 0 <= i < d.len() implies unloaded(#[trigger] d[i]) by {
            assert(d[i] == voters[i]);
        }
        lemma_unloaded_scores(s, ci, a, d);
        let n = voters.last();
        assert(unloaded(voters[voters.len() - 1]));
        lemma_unloaded_edges(s, ci, a, n.budget, n.edges);
    }
}

/// A voter without load adds nothing over its edges.
proof fn lemma_unloaded_edges(s: u128, ci: int, a: u128, budget: u128, edges: Seq<Edge>)
    ensures
        edge_scores(s, ci, a, budget, 0, edges) == s,
    decreases edges.len(),
{
    if edges.len() > 0 {
        lemma_unloaded_edges(s, ci, a, budget, edges.drop_last());
        if a != 0 {
            let q = (crate::arith::sat_mul(budget, crate::arith::SCALE_FACTOR) / a) as int;
            assert(q * 0 == 0) by (nonlinear_arith);
            assert(vote_weight(budget, a, 0) == 0);
        }
    }
}

/// The first winner has the least starting score of all standing candidates: the greatest
/// approval, where a candidate's approval is its own stake under self-voting plus every stake
/// voted for it. In particular a candidate with no approval wins the first round only when no
/// candidate has an approval above one.
pub proof fn law_first_winner(
    candidate_count: usize,
    minimum_candidate_count: usize,
    staked_candidates: Seq<(AccountId, u64)>,
    staked_voters: Seq<(AccountId, u64, Seq<AccountId>)>,
    self_vote: bool,
)
    requires
        candidate_count >= 1,
        staked_candidates.len() <= usize::MAX,
        forall|i: int, j: int| 0 <= i < j < staked_candidates.len() ==> staked_candidates[i].0 != staked_candidates[j].0,
    ensures
        elect_outcome(candidate_count, minimum_candidate_count, staked_candidates, staked_voters, self_vote)
            matches Some(o) ==> stand(staked_candidates, self_vote).len() > 0 ==> exists|w: int|
            0 <= w < stand(staked_candidates, self_vote).len() && o.winners.len() > 0 && o.winners[0]
                == stand(staked_candidates, self_vote)[w].0 && forall|j: int|
                0 <= j < stand(staked_candidates, self_vote).len() ==> first_score(
                    approval(self_vote, stand(staked_candidates, self_vote)[w], staked_voters),
                ) <= #[trigger] first_score(approval(self_vote, stand(staked_candidates, self_vote)[j], staked_voters)),
{
    let st = stand(staked_candidates, self_vote);
    let base = standing_candidates(staked_candidates, self_vote);
    if elect_outcome(candidate_count, minimum_candidate_count, staked_candidates, staked_voters, self_vote) is Some
        && st.len() > 0 {
        lemma_stand(staked_candidates, self_vote);
        lemma_prepared(staked_candidates, staked_voters, self_vote);
        let start = prepared(staked_candidates, staked_voters, self_vote);
        assert forall|i: int, j: int| 0 <= i < j < base.len() implies (#[trigger] base[i]).who != (#[trigger] base[j]).who by {
            assert(base[i].who == st[i].0 && base[j].who == st[j].0);
        }
        assert forall|k: int| 0 <= k < base.len() implies #[trigger] base[k].who == base[k].who by {}
        lemma_voter_approvals(base, base, initial_voters(base, self_vote), staked_voters);
        let cands = start.cands;
        // every candidate starts unelected, scored one over its approval
        assert forall|k: int| #![trigger cands[k]] 0 <= k < cands.len() implies cands[k].approval_stake == approval(
            self_vote,
            st[k],
            staked_voters,
        ) && cands[k].who == st[k].0 && !cands[k].elected by {
            assert(base[k] == base[k]);
            assert(cands[k] == add_voters(base, base, initial_voters(base, self_vote), staked_voters).0[k]);
        }
        let cs = scored(cands, start.voters);
        assert forall|k: int| #![trigger cs[k]] 0 <= k < cs.len() implies !cs[k].elected && cs[k].who == st[k].0
            && cs[k].score.0 == first_score(approval(self_vote, st[k], staked_voters)) by {
            assert(cands[k] == cands[k]);
            lemma_unloaded_scores(xth(cands[k].approval_stake), k, cands[k].approval_stake, start.voters);
            assert(round_score(cands[k], k, start.voters) == xth(cands[k].approval_stake));
        }
        lemma_min_unelected(cs);
        assert(cs.len() == st.len());
        assert(!cs[0].elected);
        assert(min_unelected(cs) is Some);
        let w = min_unelected(cs)->0;
        assert(0 <= w < cs.len() && !cs[w].elected);
        let r1 = round(start);
        assert(rounds(start, 0) == start);
        assert(r1 == rounds(start, 1));
        assert(r1.winners == seq![st[w].0]);
        let k = to_elect(candidate_count, cands.len());
        lemma_rounds_prefix(start, 1, k);
        let o = elect_outcome(candidate_count, minimum_candidate_count, staked_candidates, staked_voters, self_vote)->0;
        assert(o.winners == rounds(start, k).winners);
        assert(o.winners.take(1)[0] == o.winners[0]);
        assert forall|j: int| 0 <= j < st.len() implies first_score(approval(self_vote, st[w], staked_voters))
            <= #[trigger] first_score(approval(self_vote, st[j], staked_voters)) by {
            assert(cs[w] == cs[w]);
            assert(!cs[j].elected);
            assert(cs[w].score.0 <= cs[j].score.0);
        }
    }
}

} // verus!
