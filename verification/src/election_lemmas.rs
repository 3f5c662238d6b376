//! Facts about the election's spec functions.

use vstd::prelude::*;
use vstd::arithmetic::div_mod::{
    lemma_div_by_multiple, lemma_div_is_ordered, lemma_div_pos_is_pos, lemma_fundamental_div_mod,
};
use vstd::arithmetic::mul::{lemma_mul_inequality, lemma_mul_is_commutative, lemma_mul_nonnegative};
use crate::arith::{sat_mul, SCALE_FACTOR};
use crate::election_spec::{
    as_elected, count_elected, edge_ok, edge_scores, load_sum, min_unelected, round, round_invariant,
    round_score, scored, settle_edges, settle_voters, unloaded, vote_weight, voter_ok, voter_scores,
    well_formed, Election, standing_candidates, cast_votes, grown, index_of, add_voters,
    initial_voters, prepared, rounds, distinct_whos, winners_invariant, winner_elected,
};
use crate::per_u128::xth;
use crate::types::{AccountId, Candidate, Edge, VoterModel};

verus! {

/// A voter whose budget is covered by the approval adds no more than its load, and the
/// shifted budget never saturates.
pub proof fn lemma_vote_weight_bound(budget: u128, approval: u128, load: u128)
    requires
        budget <= approval,
        approval > 0,
        budget <= u64::MAX,
    ensures
        sat_mul(budget, SCALE_FACTOR) == budget * SCALE_FACTOR,
        sat_mul(budget, SCALE_FACTOR) / approval <= SCALE_FACTOR,
        0 <= vote_weight(budget, approval, load) <= load,
{
    let s: int = SCALE_FACTOR as int;
    assert(budget * s <= u128::MAX) by (nonlinear_arith)
        requires
            budget <= u64::MAX,
            s == 4294967296,
    ;
    let bs: int = budget * s;
    let a: int = approval as int;
    lemma_mul_inequality(budget as int, a, s);
    lemma_div_is_ordered(bs, a * s, a);
    lemma_mul_is_commutative(a, s);
    lemma_div_by_multiple(s, a);
    lemma_div_pos_is_pos(bs, a);
    let q: int = bs / a;
    let x: int = load as int / s;
    lemma_fundamental_div_mod(load as int, s);
    lemma_div_pos_is_pos(load as int, s);
    lemma_mul_inequality(q, s, x);
    lemma_mul_is_commutative(s, x);
    lemma_mul_nonnegative(q, x);
    assert(load as int % s >= 0);
}

} // verus!

verus! {

/// More load never gives less weight.
pub proof fn lemma_vote_weight_mono(budget: u128, approval: u128, l1: u128, l2: u128)
    requires
        approval > 0,
        l1 <= l2,
    ensures
        0 <= vote_weight(budget, approval, l1) <= vote_weight(budget, approval, l2),
{
    let s: int = SCALE_FACTOR as int;
    let q: int = (sat_mul(budget, SCALE_FACTOR) / approval) as int;
    lemma_div_is_ordered(l1 as int, l2 as int, s);
    lemma_div_pos_is_pos(l1 as int, s);
    let x1: int = l1 as int / s;
    let x2: int = l2 as int / s;
    lemma_mul_inequality(x1, x2, q);
    lemma_mul_is_commutative(x1, q);
    lemma_mul_is_commutative(x2, q);
    lemma_mul_nonnegative(q, x1);
}

/// Edge scores grow with the starting score and the voter's load.
pub proof fn lemma_edge_scores_mono(
    s1: u128,
    s2: u128,
    ci: int,
    approval: u128,
    budget: u128,
    l1: u128,
    l2: u128,
    e1: Seq<Edge>,
    e2: Seq<Edge>,
)
    requires
        s1 <= s2,
        l1 <= l2,
        e1.len() == e2.len(),
        forall|j: int| 0 <= j < e1.len() ==> #[trigger] e1[j].candidate_index == e2[j].candidate_index,
    ensures
        edge_scores(s1, ci, approval, budget, l1, e1) <= edge_scores(s2, ci, approval, budget, l2, e2),
    decreases e1.len(),
{
    if e1.len() > 0 {
        assert forall|j: int| 0 <= j < e1.drop_last().len() implies #[trigger] e1.drop_last()[j].candidate_index
            == e2.drop_last()[j].candidate_index by {
            assert(e1[j].candidate_index == e2[j].candidate_index);
        }
        lemma_edge_scores_mono(s1, s2, ci, approval, budget, l1, l2, e1.drop_last(), e2.drop_last());
        assert(e1.last().candidate_index == e2.last().candidate_index);
        if e1.last().candidate_index == ci && approval != 0 {
            lemma_vote_weight_mono(budget, approval, l1, l2);
        }
    }
}

/// Two lists of voters that differ only in that the second has larger loads.
pub open spec fn loads_grown(v1: Seq<VoterModel>, v2: Seq<VoterModel>) -> bool {
    &&& v1.len() == v2.len()
    &&& forall|i: int|
        0 <= i < v1.len() ==> {
            &&& (#[trigger] v1[i]).budget == v2[i].budget
            &&& v1[i].load <= v2[i].load
            &&& v1[i].edges.len() == v2[i].edges.len()
            &&& forall|j: int|
                0 <= j < v1[i].edges.len() ==> #[trigger] v1[i].edges[j].candidate_index
                    == v2[i].edges[j].candidate_index
        }
}

/// Scores grow with the voters' loads.
pub proof fn lemma_voter_scores_mono(
    s1: u128,
    s2: u128,
    ci: int,
    approval: u128,
    v1: Seq<VoterModel>,
    v2: Seq<VoterModel>,
)
    requires
        s1 <= s2,
        loads_grown(v1, v2),
    ensures
        voter_scores(s1, ci, approval, v1) <= voter_scores(s2, ci, approval, v2),
    decreases v1.len(),
{
    if v1.len() > 0 {
        assert(loads_grown(v1.drop_last(), v2.drop_last())) by {
            assert forall|i: int| 0 <= i < v1.drop_last().len() implies #[trigger] v1.drop_last()[i]
                == v1[i] && v2.drop_last()[i] == v2[i] by {}
        }
        lemma_voter_scores_mono(s1, s2, ci, approval, v1.drop_last(), v2.drop_last());
        let n1 = v1.last();
        let n2 = v2.last();
        assert(n1 == v1[v1.len() - 1]);
        lemma_edge_scores_mono(
            voter_scores(s1, ci, approval, v1.drop_last()),
            voter_scores(s2, ci, approval, v2.drop_last()),
            ci,
            approval,
            n1.budget,
            n1.load,
            n2.load,
            n1.edges,
            n2.edges,
        );
    }
}

} // verus!

verus! {

/// Lists with the same elected flags count the same.
pub proof fn lemma_count_same(c1: Seq<Candidate>, c2: Seq<Candidate>)
    requires
        c1.len() == c2.len(),
        forall|k: int| 0 <= k < c1.len() ==> #[trigger] c1[k].elected == c2[k].elected,
    ensures
        count_elected(c1) == count_elected(c2),
    decreases c1.len(),
{
    if c1.len() > 0 {
        assert forall|k: int| 0 <= k < c1.drop_last().len() implies #[trigger] c1.drop_last()[k].elected
            == c2.drop_last()[k].elected by {
            assert(c1[k].elected == c2[k].elected);
        }
        lemma_count_same(c1.drop_last(), c2.drop_last());
        assert(c1.last().elected == c2.last().elected);
    }
}

/// No more elected candidates than candidates; fewer only if one stands.
pub proof fn lemma_count_bound(cands: Seq<Candidate>)
    ensures
        count_elected(cands) <= cands.len(),
        count_elected(cands) < cands.len() ==> exists|k: int|
            0 <= k < cands.len() && !(#[trigger] cands[k]).elected,
    decreases cands.len(),
{
    if cands.len() > 0 {
        lemma_count_bound(cands.drop_last());
        if count_elected(cands) < cands.len() && cands.last().elected {
            let k = choose|k: int| 0 <= k < cands.drop_last().len() && !(#[trigger] cands.drop_last()[k]).elected;
            assert(cands[k] == cands.drop_last()[k]);
        }
        if !cands.last().elected {
            assert(!cands[cands.len() - 1].elected);
        }
    }
}

/// Electing one more candidate counts one more.
pub proof fn lemma_count_elect(cands: Seq<Candidate>, w: int)
    requires
        0 <= w < cands.len(),
        !cands[w].elected,
    ensures
        count_elected(cands.update(w, as_elected(cands[w]))) == count_elected(cands) + 1,
    decreases cands.len(),
{
    let u = cands.update(w, as_elected(cands[w]));
    if w == cands.len() - 1 {
        assert(u.drop_last() =~= cands.drop_last());
    } else {
        assert(u.drop_last() =~= cands.drop_last().update(w, as_elected(cands.drop_last()[w])));
        lemma_count_elect(cands.drop_last(), w);
    }
}

/// While a candidate stands, one of least score is found.
pub proof fn lemma_min_unelected(cands: Seq<Candidate>)
    ensures
        min_unelected(cands) matches Some(w) ==> {
            &&& 0 <= w < cands.len()
            &&& !cands[w].elected
            &&& forall|k: int|
                0 <= k < cands.len() && !(#[trigger] cands[k]).elected ==> cands[w].score.0
                    <= cands[k].score.0
        },
        (exists|k: int| 0 <= k < cands.len() && !(#[trigger] cands[k]).elected) ==> min_unelected(
            cands,
        ) is Some,
    decreases cands.len(),
{
    if cands.len() > 0 {
        let d = cands.drop_last();
        lemma_min_unelected(d);
        assert forall|k: int| 0 <= k < d.len() implies #[trigger] d[k] == cands[k] by {}
        let i = cands.len() - 1;
        if let Some(w) = min_unelected(cands) {
            assert forall|k: int|
                0 <= k < cands.len() && !(#[trigger] cands[k]).elected implies cands[w].score.0
                <= cands[k].score.0 by {
                if k < i {
                    assert(!d[k].elected);
                    assert(min_unelected(d) is Some);
                }
            }
        }
        if exists|k: int| 0 <= k < cands.len() && !(#[trigger] cands[k]).elected {
            if cands.last().elected {
                let k = choose|k: int| 0 <= k < cands.len() && !(#[trigger] cands[k]).elected;
                assert(k != cands.len() - 1);
                assert(!d[k].elected);
            }
        }
    }
}

/// Settling keeps each edge's identifier and candidate, leaves the voter with its load or the
/// score, and the edges' loads stay within the voter's load.
pub proof fn lemma_settle_edges(edges: Seq<Edge>, who: AccountId, score: u128, load: u128)
    requires
        load <= score,
    ensures
        ({
            let r = settle_edges(edges, who, score, load);
            &&& r.0.len() == edges.len()
            &&& forall|j: int|
                0 <= j < edges.len() ==> (#[trigger] r.0[j]).who == edges[j].who
                    && r.0[j].candidate_index == edges[j].candidate_index
            &&& r.1 == load || r.1 == score
            &&& load_sum(r.0) <= load_sum(edges) + r.1 - load
            &&& (exists|j: int| 0 <= j < edges.len() && (#[trigger] edges[j]).who == who) ==> r.1
                == score
        }),
    decreases edges.len(),
{
    if edges.len() > 0 {
        let d = edges.drop_last();
        lemma_settle_edges(d, who, score, load);
        let p = settle_edges(d, who, score, load);
        let r = settle_edges(edges, who, score, load);
        assert(r.0.drop_last() =~= p.0);
        assert forall|j: int| 0 <= j < edges.len() implies (#[trigger] r.0[j]).who == edges[j].who
            && r.0[j].candidate_index == edges[j].candidate_index by {
            if j < d.len() {
                assert(r.0[j] == p.0[j]);
                assert(d[j] == edges[j]);
            }
        }
        if exists|j: int| 0 <= j < edges.len() && (#[trigger] edges[j]).who == who {
            if edges.last().who != who {
                let j = choose|j: int| 0 <= j < edges.len() && (#[trigger] edges[j]).who == who;
                assert(d[j] == edges[j]);
            }
        }
    }
}

} // verus!

verus! {

/// While a candidate stands, a round elects one whose score covers every voter's load, and the
/// round invariant carries over.
pub proof fn lemma_round(s: Election)
    requires
        round_invariant(s),
        s.winners.len() < s.cands.len(),
    ensures
        min_unelected(scored(s.cands, s.voters)) is Some,
        forall|i: int|
            0 <= i < s.voters.len() ==> (#[trigger] s.voters[i]).load <= scored(s.cands, s.voters)[min_unelected(
                scored(s.cands, s.voters),
            ).unwrap()].score.0,
        round_invariant(round(s)),
        round(s).cands.len() == s.cands.len(),
        round(s).winners.len() == s.winners.len() + 1,
{
    let cs = scored(s.cands, s.voters);
    assert forall|k: int| 0 <= k < s.cands.len() implies #[trigger] cs[k].elected == s.cands[k].elected
        && cs[k].who == s.cands[k].who && cs[k].approval_stake == s.cands[k].approval_stake by {}
    lemma_count_same(s.cands, cs);
    lemma_count_bound(cs);
    lemma_min_unelected(cs);
    let w = min_unelected(cs).unwrap();
    let ws = cs[w].score.0;
    let who = cs[w].who;
    assert(ws == round_score(s.cands[w], w, s.voters));
    assert forall|i: int| 0 <= i < s.voters.len() implies (#[trigger] s.voters[i]).load <= ws by {
        assert(s.voters[i].load <= round_score(s.cands[w], w, s.voters));
    }
    let nv = settle_voters(s.voters, who, ws);
    let nc = cs.update(w, as_elected(cs[w]));
    assert(round(s) == Election { cands: nc, voters: nv, winners: s.winners.push(who) });
    assert forall|i: int| #![trigger s.voters[i]] 0 <= i < s.voters.len() implies ({
        let r = settle_edges(s.voters[i].edges, who, ws, s.voters[i].load);
        &&& r.0.len() == s.voters[i].edges.len()
        &&& forall|j: int|
            0 <= j < s.voters[i].edges.len() ==> (#[trigger] r.0[j]).who == s.voters[i].edges[j].who
                && r.0[j].candidate_index == s.voters[i].edges[j].candidate_index
        &&& r.1 == s.voters[i].load || r.1 == ws
        &&& load_sum(r.0) <= load_sum(s.voters[i].edges) + r.1 - s.voters[i].load
    }) by {
        lemma_settle_edges(s.voters[i].edges, who, ws, s.voters[i].load);
    }
    assert(loads_grown(s.voters, nv)) by {
        assert forall|i: int| 0 <= i < s.voters.len() implies {
            &&& (#[trigger] s.voters[i]).budget == nv[i].budget
            &&& s.voters[i].load <= nv[i].load
            &&& s.voters[i].edges.len() == nv[i].edges.len()
            &&& forall|j: int|
                0 <= j < s.voters[i].edges.len() ==> #[trigger] s.voters[i].edges[j].candidate_index
                    == nv[i].edges[j].candidate_index
        } by {
            let r = settle_edges(s.voters[i].edges, who, ws, s.voters[i].load);
            assert(nv[i].edges == r.0);
            assert forall|j: int| 0 <= j < s.voters[i].edges.len() implies #[trigger] s.voters[i].edges[j].candidate_index
                == nv[i].edges[j].candidate_index by {
                assert(r.0[j].candidate_index == s.voters[i].edges[j].candidate_index);
            }
        }
    }
    // soundness carries over: the candidates keep identifiers and approvals, the edges keep
    // identifiers and candidates
    assert forall|i: int| 0 <= i < nv.len() implies #[trigger] voter_ok(nc, nv[i]) by {
        let n = s.voters[i];
        let r = settle_edges(n.edges, who, ws, n.load);
        assert(voter_ok(s.cands, n));
        assert forall|j: int| 0 <= j < nv[i].edges.len() implies #[trigger] edge_ok(nc, nv[i].budget, nv[i].edges[j]) by {
            assert(edge_ok(s.cands, n.budget, n.edges[j]));
            assert(r.0[j].who == n.edges[j].who);
            let ci = n.edges[j].candidate_index as int;
            assert(cs[ci].who == s.cands[ci].who);
        }
    }
    lemma_count_elect(cs, w);
    assert forall|c: int, i: int|
        0 <= c < nc.len() && !nc[c].elected && 0 <= i < nv.len() implies #[trigger] nv[i].load
        <= #[trigger] round_score(nc[c], c, nv) by {
        let a = s.cands[c].approval_stake;
        assert(c != w);
        assert(!cs[c].elected);
        lemma_voter_scores_mono(xth(a), xth(a), c, a, s.voters, nv);
        assert(nc[c].approval_stake == a);
        assert(cs[c].score.0 == round_score(s.cands[c], c, s.voters));
    }
    assert forall|i: int| 0 <= i < nv.len() implies load_sum((#[trigger] nv[i]).edges) <= nv[i].load by {
        assert(load_sum(s.voters[i].edges) <= s.voters[i].load);
    }
}

} // verus!

verus! {

/// No candidate elected counts zero.
pub proof fn lemma_count_none(cands: Seq<Candidate>)
    requires
        forall|k: int| 0 <= k < cands.len() ==> !(#[trigger] cands[k]).elected,
    ensures
        count_elected(cands) == 0,
    decreases cands.len(),
{
    if cands.len() > 0 {
        assert forall|k: int| 0 <= k < cands.drop_last().len() implies !(#[trigger] cands.drop_last()[k]).elected by {
            assert(!cands[k].elected);
        }
        lemma_count_none(cands.drop_last());
        assert(!cands[cands.len() - 1].elected);
    }
}

/// Edges without load sum to zero.
pub proof fn lemma_load_sum_zero(edges: Seq<Edge>)
    requires
        forall|j: int| 0 <= j < edges.len() ==> (#[trigger] edges[j]).load.0 == 0,
    ensures
        load_sum(edges) == 0,
    decreases edges.len(),
{
    if edges.len() > 0 {
        assert forall|j: int| 0 <= j < edges.drop_last().len() implies (#[trigger] edges.drop_last()[j]).load.0 == 0 by {
            assert(edges[j].load.0 == 0);
        }
        lemma_load_sum_zero(edges.drop_last());
        assert(edges[edges.len() - 1].load.0 == 0);
    }
}

/// Each edge's load is within the sum of the loads.
pub proof fn lemma_load_sum_elem(edges: Seq<Edge>, j: int)
    requires
        0 <= j < edges.len(),
    ensures
        edges[j].load.0 <= load_sum(edges),
        0 <= load_sum(edges),
    decreases edges.len(),
{
    lemma_load_sum_nonneg(edges.drop_last());
    if j < edges.len() - 1 {
        lemma_load_sum_elem(edges.drop_last(), j);
        assert(edges.drop_last()[j] == edges[j]);
    }
}

/// A sum of loads is never negative.
pub proof fn lemma_load_sum_nonneg(edges: Seq<Edge>)
    ensures
        0 <= load_sum(edges),
    decreases edges.len(),
{
    if edges.len() > 0 {
        lemma_load_sum_nonneg(edges.drop_last());
    }
}

/// The state before the first round satisfies the round invariant.
pub proof fn lemma_start_invariant(s: Election)
    requires
        well_formed(s.cands, s.voters),
        s.winners.len() == 0,
        forall|k: int| 0 <= k < s.cands.len() ==> !(#[trigger] s.cands[k]).elected,
        forall|i: int| 0 <= i < s.voters.len() ==> unloaded(#[trigger] s.voters[i]),
    ensures
        round_invariant(s),
{
    lemma_count_none(s.cands);
    assert forall|i: int| 0 <= i < s.voters.len() implies load_sum((#[trigger] s.voters[i]).edges) <= s.voters[i].load by {
        assert(unloaded(s.voters[i]));
        lemma_load_sum_zero(s.voters[i].edges);
    }
}

} // verus!

verus! {

/// Standing candidates are unelected and approved with at most a `u64` stake.
pub proof fn lemma_standing(staked: Seq<(AccountId, u64)>, self_vote: bool)
    ensures
        forall|k: int|
            0 <= k < standing_candidates(staked, self_vote).len() ==> !(#[trigger] standing_candidates(
                staked,
                self_vote,
            )[k]).elected && standing_candidates(staked, self_vote)[k].approval_stake <= u64::MAX,
        standing_candidates(staked, self_vote).len() <= staked.len(),
    decreases staked.len(),
{
    if staked.len() > 0 {
        lemma_standing(staked.drop_last(), self_vote);
        let p = standing_candidates(staked.drop_last(), self_vote);
        let c = standing_candidates(staked, self_vote);
        assert forall|k: int| 0 <= k < c.len() implies !(#[trigger] c[k]).elected && c[k].approval_stake
            <= u64::MAX by {
            if k < p.len() {
                assert(c[k] == p[k]);
            }
        }
    }
}

/// Casting one voter's votes only grows the approvals, and each edge cast is sound and
/// unloaded.
pub proof fn lemma_cast_votes(base: Seq<Candidate>, cands: Seq<Candidate>, stake: u128, votes: Seq<AccountId>)
    requires
        grown(base, cands),
        base.len() <= usize::MAX,
    ensures
        ({
            let r = cast_votes(base, cands, stake, votes);
            &&& grown(cands, r.0)
            &&& forall|k: int| 0 <= k < r.0.len() ==> (#[trigger] r.0[k]).elected == cands[k].elected
            &&& forall|j: int| 0 <= j < r.1.len() ==> #[trigger] edge_ok(r.0, stake, r.1[j])
            &&& forall|j: int| 0 <= j < r.1.len() ==> (#[trigger] r.1[j]).load.0 == 0
        }),
    decreases votes.len(),
{
    if votes.len() > 0 {
        lemma_cast_votes(base, cands, stake, votes.drop_last());
        let p = cast_votes(base, cands, stake, votes.drop_last());
        let r = cast_votes(base, cands, stake, votes);
        let v = votes.last();
        lemma_index_of(base, v);
        if let Some(i) = index_of(base, v) {
            assert(grown(p.0, r.0));
            assert(p.0[i].who == cands[i].who);
            assert(cands[i].who == base[i].who);
            assert forall|j: int| 0 <= j < r.1.len() implies #[trigger] edge_ok(r.0, stake, r.1[j]) by {
                if j < p.1.len() {
                    assert(r.1[j] == p.1[j]);
                    assert(edge_ok(p.0, stake, p.1[j]));
                    let ci = p.1[j].candidate_index as int;
                    assert(r.0[ci].who == p.0[ci].who);
                }
            }
            assert forall|j: int| 0 <= j < r.1.len() implies (#[trigger] r.1[j]).load.0 == 0 by {
                if j < p.1.len() {
                    assert(r.1[j] == p.1[j]);
                }
            }
        }
    }
}

/// Adding the voters keeps everything sound and unloaded.
pub proof fn lemma_add_voters(
    base: Seq<Candidate>,
    cands: Seq<Candidate>,
    voters: Seq<VoterModel>,
    staked: Seq<(AccountId, u64, Seq<AccountId>)>,
)
    requires
        grown(base, cands),
        base.len() <= usize::MAX,
        well_formed(cands, voters),
        forall|i: int| 0 <= i < voters.len() ==> unloaded(#[trigger] voters[i]),
    ensures
        ({
            let r = add_voters(base, cands, voters, staked);
            &&& grown(base, r.0)
            &&& well_formed(r.0, r.1)
            &&& forall|i: int| 0 <= i < r.1.len() ==> unloaded(#[trigger] r.1[i])
            &&& forall|k: int| 0 <= k < r.0.len() ==> (#[trigger] r.0[k]).elected == cands[k].elected
        }),
    decreases staked.len(),
{
    if staked.len() > 0 {
        lemma_add_voters(base, cands, voters, staked.drop_last());
        let p = add_voters(base, cands, voters, staked.drop_last());
        let stake = staked.last().1;
        lemma_cast_votes(base, p.0, stake as u128, staked.last().2);
        let c = cast_votes(base, p.0, stake as u128, staked.last().2);
        let r = add_voters(base, cands, voters, staked);
        assert(grown(base, r.0)) by {
            assert forall|k: int| 0 <= k < base.len() implies #[trigger] r.0[k].who == base[k].who
                && base[k].approval_stake <= r.0[k].approval_stake by {
                assert(p.0[k].who == base[k].who);
                assert(r.0[k].who == p.0[k].who);
            }
        }
        assert forall|i: int| 0 <= i < r.1.len() implies #[trigger] voter_ok(r.0, r.1[i]) by {
            if i < p.1.len() {
                assert(r.1[i] == p.1[i]);
                assert(voter_ok(p.0, p.1[i]));
                assert forall|j: int| 0 <= j < r.1[i].edges.len() implies #[trigger] edge_ok(
                    r.0,
                    r.1[i].budget,
                    r.1[i].edges[j],
                ) by {
                    assert(edge_ok(p.0, p.1[i].budget, p.1[i].edges[j]));
                    let ci = p.1[i].edges[j].candidate_index as int;
                    assert(r.0[ci].who == p.0[ci].who);
                }
            }
        }
        assert forall|i: int| 0 <= i < r.1.len() implies unloaded(#[trigger] r.1[i]) by {
            if i < p.1.len() {
                assert(r.1[i] == p.1[i]);
            }
        }
    }
}

/// The state before the first round satisfies the round invariant.
pub proof fn lemma_prepared(
    staked_candidates: Seq<(AccountId, u64)>,
    staked_voters: Seq<(AccountId, u64, Seq<AccountId>)>,
    self_vote: bool,
)
    requires
        staked_candidates.len() <= usize::MAX,
    ensures
        round_invariant(prepared(staked_candidates, staked_voters, self_vote)),
        prepared(staked_candidates, staked_voters, self_vote).cands.len() == standing_candidates(
            staked_candidates,
            self_vote,
        ).len(),
        forall|k: int|
            0 <= k < standing_candidates(staked_candidates, self_vote).len() ==> (#[trigger] prepared(
                staked_candidates,
                staked_voters,
                self_vote,
            ).cands[k]).who == standing_candidates(staked_candidates, self_vote)[k].who,
        forall|k: int|
            0 <= k < prepared(staked_candidates, staked_voters, self_vote).cands.len() ==> !(#[trigger] prepared(
                staked_candidates,
                staked_voters,
                self_vote,
            ).cands[k]).elected,
        forall|i: int|
            0 <= i < prepared(staked_candidates, staked_voters, self_vote).voters.len() ==> unloaded(
                #[trigger] prepared(staked_candidates, staked_voters, self_vote).voters[i],
            ),
{
    let base = standing_candidates(staked_candidates, self_vote);
    let iv = initial_voters(base, self_vote);
    lemma_standing(staked_candidates, self_vote);
    assert(grown(base, base));
    assert forall|i: int| 0 <= i < iv.len() implies #[trigger] voter_ok(base, iv[i]) by {
        assert(iv[i].edges.len() == 1);
        assert forall|j: int| 0 <= j < iv[i].edges.len() implies #[trigger] edge_ok(base, iv[i].budget, iv[i].edges[j]) by {
            assert(j == 0);
        }
    }
    assert forall|i: int| 0 <= i < iv.len() implies unloaded(#[trigger] iv[i]) by {
        assert forall|j: int| 0 <= j < iv[i].edges.len() implies (#[trigger] iv[i].edges[j]).load.0 == 0 by {
            assert(j == 0);
        }
    }
    lemma_add_voters(base, base, iv, staked_voters);
    let s = prepared(staked_candidates, staked_voters, self_vote);
    assert forall|k: int| 0 <= k < s.cands.len() implies !(#[trigger] s.cands[k]).elected by {
        assert(!base[k].elected);
    }
    lemma_start_invariant(s);
}

} // verus!

verus! {

/// An index found is in bounds and names the candidate.
pub proof fn lemma_index_of(cands: Seq<Candidate>, who: AccountId)
    ensures
        index_of(cands, who) matches Some(i) ==> 0 <= i < cands.len() && cands[i].who == who,
    decreases cands.len(),
{
    if cands.len() > 0 && cands.last().who != who {
        lemma_index_of(cands.drop_last(), who);
        if let Some(i) = index_of(cands, who) {
            assert(cands.drop_last()[i] == cands[i]);
        }
    }
}

} // verus!

verus! {

/// Scores only grow over the edges.
pub proof fn lemma_edge_scores_grow(s: u128, ci: int, approval: u128, budget: u128, load: u128, edges: Seq<Edge>)
    ensures
        s <= edge_scores(s, ci, approval, budget, load, edges),
    decreases edges.len(),
{
    if edges.len() > 0 {
        lemma_edge_scores_grow(s, ci, approval, budget, load, edges.drop_last());
        if edges.last().candidate_index == ci && approval != 0 {
            lemma_vote_weight_mono(budget, approval, load, load);
        }
    }
}

/// Scores only grow over the voters.
pub proof fn lemma_voter_scores_grow(s: u128, ci: int, approval: u128, voters: Seq<VoterModel>)
    ensures
        s <= voter_scores(s, ci, approval, voters),
    decreases voters.len(),
{
    if voters.len() > 0 {
        lemma_voter_scores_grow(s, ci, approval, voters.drop_last());
        let n = voters.last();
        lemma_edge_scores_grow(voter_scores(s, ci, approval, voters.drop_last()), ci, approval, n.budget, n.load, n.edges);
    }
}

/// Every round score is at least one.
pub proof fn lemma_round_score_positive(c: Candidate, ci: int, voters: Seq<VoterModel>)
    ensures
        1 <= round_score(c, ci, voters),
{
    let a = c.approval_stake;
    if a != 0 {
        lemma_div_is_ordered(a as int, u128::MAX as int, a as int);
        lemma_div_by_multiple(1, a as int);
    }
    lemma_voter_scores_grow(xth(a), ci, a, voters);
}

/// A round keeps the winners' invariant.
pub proof fn lemma_round_winners(s: Election)
    requires
        round_invariant(s),
        winners_invariant(s),
        s.winners.len() < s.cands.len(),
    ensures
        winners_invariant(round(s)),
        forall|k: int| 0 <= k < s.cands.len() ==> (#[trigger] round(s).cands[k]).who == s.cands[k].who,
{
    lemma_round(s);
    let cs = scored(s.cands, s.voters);
    assert forall|k: int| 0 <= k < s.cands.len() implies #[trigger] cs[k].elected == s.cands[k].elected
        && cs[k].who == s.cands[k].who by {}
    lemma_min_unelected(cs);
    let w = min_unelected(cs).unwrap();
    let ws = cs[w].score.0;
    let who = cs[w].who;
    lemma_round_score_positive(s.cands[w], w, s.voters);
    let nv = settle_voters(s.voters, who, ws);
    let nc = cs.update(w, as_elected(cs[w]));
    let nw = s.winners.push(who);
    let r = round(s);
    assert(r == Election { cands: nc, voters: nv, winners: nw });
    assert forall|i: int| 0 <= i < s.voters.len() implies (#[trigger] s.voters[i]).load <= ws by {}
    assert forall|i: int, j: int|
        0 <= i < nv.len() && 0 <= j < nv[i].edges.len() && nw.contains((#[trigger] nv[i].edges[j]).who)
        implies nv[i].load >= 1 by {
        let n = s.voters[i];
        lemma_settle_edges(n.edges, who, ws, n.load);
        let e = settle_edges(n.edges, who, ws, n.load);
        assert(e.0[j].who == n.edges[j].who);
        if nv[i].edges[j].who == who {
            assert(n.edges[j].who == who);
        } else {
            let k = choose|k: int| 0 <= k < nw.len() && nw[k] == nv[i].edges[j].who;
            assert(k < s.winners.len());
            assert(s.winners.contains(n.edges[j].who));
            assert(n.load >= 1);
        }
    }
    assert forall|k: int| 0 <= k < r.winners.len() implies #[trigger] winner_elected(r, k) by {
        if k < s.winners.len() {
            assert(winner_elected(s, k));
            let c = choose|c: int|
                0 <= c < s.cands.len() && (#[trigger] s.cands[c]).elected && s.cands[c].who == s.winners[k];
            assert(r.cands[c].elected && r.cands[c].who == r.winners[k]);
        } else {
            assert(r.cands[w].elected && r.cands[w].who == r.winners[k]);
        }
    }
    if distinct_whos(nc) {
        assert(distinct_whos(s.cands)) by {
            assert forall|a: int, b: int|
                0 <= a < s.cands.len() && 0 <= b < s.cands.len() && a != b implies #[trigger] s.cands[a].who
                != #[trigger] s.cands[b].who by {
                assert(nc[a].who != nc[b].who);
            }
        }
        assert forall|a: int, b: int| 0 <= a < nw.len() && 0 <= b < nw.len() && a != b implies #[trigger] nw[a] != #[trigger] nw[b] by {
            if a < s.winners.len() && b < s.winners.len() {
            } else {
                let k = if a < s.winners.len() { a } else { b };
                assert(winner_elected(s, k));
                let c = choose|c: int|
                    0 <= c < s.cands.len() && (#[trigger] s.cands[c]).elected && s.cands[c].who == s.winners[k];
                assert(c != w);
                assert(nc[c].who != nc[w].who);
            }
        }
        assert(nw.no_duplicates());
    }
    assert(r.voters == nv && r.cands == nc && r.winners == nw);
    assert(forall|i: int, j: int|
        0 <= i < nv.len() && 0 <= j < nv[i].edges.len() && nw.contains((#[trigger] nv[i].edges[j]).who)
        ==> nv[i].load >= 1);
    assert(distinct_whos(nc) ==> nw.no_duplicates());
    assert(distinct_whos(r.cands) ==> r.winners.no_duplicates());
    assert(forall|i: int, j: int|
        0 <= i < r.voters.len() && 0 <= j < r.voters[i].edges.len() && r.winners.contains(
            (#[trigger] r.voters[i].edges[j]).who,
        ) ==> r.voters[i].load >= 1);
    assert(winners_invariant(r));
}

/// The rounds of an election keep both invariants and elect one winner each.
pub proof fn lemma_rounds(start: Election, k: nat)
    requires
        round_invariant(start),
        winners_invariant(start),
        start.winners.len() == 0,
        k <= start.cands.len(),
    ensures
        round_invariant(rounds(start, k)),
        winners_invariant(rounds(start, k)),
        rounds(start, k).winners.len() == k,
        rounds(start, k).cands.len() == start.cands.len(),
        forall|c: int| 0 <= c < start.cands.len() ==> (#[trigger] rounds(start, k).cands[c]).who == start.cands[c].who,
    decreases k,
{
    if k > 0 {
        lemma_rounds(start, (k - 1) as nat);
        let p = rounds(start, (k - 1) as nat);
        lemma_round(p);
        lemma_round_winners(p);
        assert forall|c: int| 0 <= c < start.cands.len() implies (#[trigger] rounds(start, k).cands[c]).who
            == start.cands[c].who by {
            assert(round(p).cands[c].who == p.cands[c].who);
        }
    }
}

} // verus!
