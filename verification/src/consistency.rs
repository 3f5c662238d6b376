//! The supports stay consistent with the edges: each total is its own stake plus its entries,
//! and each voter's entries in a support add up to the stake of its edge to that candidate.

use vstd::prelude::*;
use crate::arith::{sat_add, sat_mul, sat_sub};
use crate::equalize_spec::{
    backs, consistent, cumulate, distinct_candidates, entries_match, entries_of, equalize_voter,
    lemma_unassign_frame, others_kept, reassigned, rebalance, rebalances, redistribute, same_support,
    sorted_taken_back,
    taken_back_sorted, unassign, unkeyed, weight_of, weight_sum, without_voter,
};
use crate::filling::{lemma_sorted_distinct, lemma_unassign_distinct};
use crate::types::{AccountId, PhragmenAssignment, SupportModel};

verus! {

/// Dropping the entries of `voter` drops their stake from the sum, and keeps everyone else's.
pub proof fn lemma_without_voter_sums(others: Seq<PhragmenAssignment>, voter: AccountId)
    ensures
        weight_sum(without_voter(others, voter)) == weight_sum(others) - entries_of(others, voter),
        entries_of(without_voter(others, voter), voter) == 0,
        0 <= entries_of(others, voter) <= weight_sum(others),
        forall|u: AccountId|
            u != voter ==> #[trigger] entries_of(without_voter(others, voter), u) == entries_of(others, u),
    decreases others.len(),
{
    if others.len() > 0 {
        let d = others.drop_last();
        lemma_without_voter_sums(d, voter);
        let w = without_voter(d, voter);
        let x = others.last();
        if x.0 != voter {
            assert(w.push(x).drop_last() =~= w);
        }
        assert forall|u: AccountId| u != voter implies #[trigger] entries_of(without_voter(others, voter), u)
            == entries_of(others, u) by {
            assert(entries_of(w, u) == entries_of(d, u));
        }
    }
}

/// An entry pushed adds its stake to the sum, and to its voter's.
pub proof fn lemma_push_sums(others: Seq<PhragmenAssignment>, x: PhragmenAssignment)
    ensures
        weight_sum(others.push(x)) == weight_sum(others) + x.1,
        entries_of(others.push(x), x.0) == entries_of(others, x.0) + x.1,
        forall|u: AccountId| u != x.0 ==> #[trigger] entries_of(others.push(x), u) == entries_of(others, u),
{
    assert(others.push(x).drop_last() =~= others);
}

/// With distinct candidates, the stake an edge gives its candidate is that of the edge.
pub proof fn lemma_weight_of_distinct(edges: Seq<PhragmenAssignment>, j: int)
    requires
        distinct_candidates(edges),
        0 <= j < edges.len(),
    ensures
        weight_of(edges, edges[j].0) == edges[j].1,
    decreases edges.len(),
{
    if j < edges.len() - 1 {
        let d = edges.drop_last();
        assert(distinct_candidates(d));
        lemma_weight_of_distinct(d, j);
        assert(d[j] == edges[j]);
    }
}

/// The walk's last index is one of the edges'.
pub proof fn lemma_cumulate_index(
    edges: Seq<PhragmenAssignment>,
    sup: Map<AccountId, SupportModel>,
    budget: u128,
    m: int,
)
    requires
        edges.len() > 0,
        m <= edges.len(),
    ensures
        0 <= cumulate(edges, sup, budget, m).1 < edges.len(),
    decreases m,
{
    if m > 0 {
        lemma_cumulate_index(edges, sup, budget, m - 1);
    }
}

/// Handing out over the first `m` of edges to distinct candidates: each of them that has a
/// support gets what it lacks of `share` plus `last_stake`, recorded in its support; the others,
/// and every other support, are left as they are.
pub proof fn lemma_redistribute_general(
    voter: AccountId,
    edges: Seq<PhragmenAssignment>,
    sup: Map<AccountId, SupportModel>,
    share: u128,
    last_stake: u128,
    m: int,
)
    requires
        0 <= m <= edges.len(),
        distinct_candidates(edges),
    ensures
        redistribute(voter, edges, sup, share, last_stake, m).0.len() == edges.len(),
        forall|i: int|
            #![trigger edges[i]]
            0 <= i < m ==> {
                let r = redistribute(voter, edges, sup, share, last_stake, m);
                let c = edges[i].0;
                &&& r.1.contains_key(c) == sup.contains_key(c)
                &&& sup.contains_key(c) ==> {
                    &&& r.0[i] == (c, sat_sub(sat_add(share, last_stake as int), sup[c].total))
                    &&& r.1[c] == SupportModel {
                        own: sup[c].own,
                        total: sat_add(sup[c].total, r.0[i].1 as int),
                        others: sup[c].others.push((voter, r.0[i].1)),
                    }
                }
                &&& !sup.contains_key(c) ==> r.0[i] == edges[i]
            },
        forall|i: int|
            m <= i < edges.len() ==> #[trigger] redistribute(voter, edges, sup, share, last_stake, m).0[i]
                == edges[i],
        forall|who: AccountId|
            !backs(edges.take(m), who) ==> #[trigger] same_support(
                redistribute(voter, edges, sup, share, last_stake, m).1,
                sup,
                who,
            ),
    decreases m,
{
    if m > 0 {
        lemma_redistribute_general(voter, edges, sup, share, last_stake, m - 1);
        let p = redistribute(voter, edges, sup, share, last_stake, m - 1);
        let r = redistribute(voter, edges, sup, share, last_stake, m);
        let k = m - 1;
        let c = edges[k].0;
        assert(!backs(edges.take(k), c)) by {
            if backs(edges.take(k), c) {
                let j = choose|j: int| 0 <= j < edges.take(k).len() && (#[trigger] edges.take(k)[j]).0 == c;
                assert(edges[j].0 == edges[k].0);
            }
        }
        assert(same_support(p.1, sup, c));
        assert forall|i: int|
            #![trigger edges[i]]
            0 <= i < m implies {
                let ci = edges[i].0;
                &&& r.1.contains_key(ci) == sup.contains_key(ci)
                &&& sup.contains_key(ci) ==> {
                    &&& r.0[i] == (ci, sat_sub(sat_add(share, last_stake as int), sup[ci].total))
                    &&& r.1[ci] == SupportModel {
                        own: sup[ci].own,
                        total: sat_add(sup[ci].total, r.0[i].1 as int),
                        others: sup[ci].others.push((voter, r.0[i].1)),
                    }
                }
                &&& !sup.contains_key(ci) ==> r.0[i] == edges[i]
            } by {
            if i < k {
                assert(edges[i].0 != c);
            }
        }
        assert forall|who: AccountId| !backs(edges.take(m), who) implies #[trigger] same_support(r.1, sup, who) by {
            assert(edges.take(m)[k] == edges[k]);
            assert(who != c);
            if backs(edges.take(k), who) {
                let j = choose|j: int| 0 <= j < edges.take(k).len() && (#[trigger] edges.take(k)[j]).0 == who;
                assert(edges.take(m)[j] == edges.take(k)[j]);
            }
            assert(same_support(p.1, sup, who));
        }
    }
}

/// Taking a consistent voter's stake back keeps the supports consistent, leaves the voter no
/// entry in the supports of its candidates, and keeps every other voter's entries.
pub proof fn lemma_unassign_consistent(
    voter: AccountId,
    edges: Seq<PhragmenAssignment>,
    sup: Map<AccountId, SupportModel>,
)
    requires
        consistent(sup),
        entries_match(voter, edges, sup),
        distinct_candidates(edges),
    ensures
        consistent(unassign(voter, edges, sup).1),
        entries_match(voter, unassign(voter, edges, sup).0, unassign(voter, edges, sup).1),
        others_kept(voter, unassign(voter, edges, sup).1, sup),
        forall|j: int|
            0 <= j < edges.len() && unassign(voter, edges, sup).1.contains_key(#[trigger] edges[j].0)
                ==> entries_of(unassign(voter, edges, sup).1[edges[j].0].others, voter) == 0,
{
    let un = unassign(voter, edges, sup);
    lemma_unassign_distinct(voter, edges, sup);
    lemma_unassign_frame(voter, edges, sup);
    assert forall|j: int| #![trigger edges[j]] 0 <= j < edges.len() && sup.contains_key(edges[j].0) implies {
        let c = edges[j].0;
        &&& un.1[c].total == un.1[c].own + weight_sum(un.1[c].others)
        &&& entries_of(un.1[c].others, voter) == 0
        &&& forall|u: AccountId| u != voter ==> #[trigger] entries_of(un.1[c].others, u) == entries_of(sup[c].others, u)
    } by {
        let c = edges[j].0;
        let o = sup[c].others;
        lemma_weight_of_distinct(edges, j);
        lemma_without_voter_sums(o, voter);
        assert(sup[c].total == sup[c].own + weight_sum(o));
        assert(entries_of(o, voter) == edges[j].1);
    }
    assert forall|c: AccountId| un.1.contains_key(c) implies #[trigger] un.1[c].total == un.1[c].own
        + weight_sum(un.1[c].others) by {
        if backs(edges, c) {
            let j = choose|j: int| 0 <= j < edges.len() && (#[trigger] edges[j]).0 == c;
        } else {
            assert(same_support(un.1, sup, c));
        }
    }
    assert forall|c: AccountId| #[trigger] un.1.contains_key(c) implies sup.contains_key(c) by {
        if backs(edges, c) {
            let j = choose|j: int| 0 <= j < edges.len() && (#[trigger] edges[j]).0 == c;
        } else {
            assert(same_support(un.1, sup, c));
        }
    }
    assert forall|c: AccountId, u: AccountId|
        #![trigger entries_of(un.1[c].others, u)]
        u != voter && un.1.contains_key(c) implies entries_of(un.1[c].others, u) == entries_of(sup[c].others, u) by {
        if backs(edges, c) {
            let j = choose|j: int| 0 <= j < edges.len() && (#[trigger] edges[j]).0 == c;
        } else {
            assert(same_support(un.1, sup, c));
        }
    }
    assert forall|j: int|
        0 <= j < un.0.len() && un.1.contains_key(#[trigger] un.0[j].0) implies entries_of(
            un.1[un.0[j].0].others,
            voter,
        ) == un.0[j].1 by {
        assert(un.0[j] == (edges[j].0, 0u128));
    }
}

/// Equalising a voter whose entries match its edges, in consistent supports, keeps them
/// consistent, its new entries matching its new edges, its candidates distinct, and every other
/// voter's entries.
pub proof fn lemma_voter_consistent(
    voter: AccountId,
    budget: u128,
    edges: Seq<PhragmenAssignment>,
    sup: Map<AccountId, SupportModel>,
    tolerance: u128,
)
    requires
        consistent(sup),
        entries_match(voter, edges, sup),
        distinct_candidates(edges),
        rebalances(budget, edges, sup, tolerance) ==> taken_back_sorted(voter, edges, sup),
    ensures
        consistent(equalize_voter(voter, budget, edges, sup, tolerance).2),
        entries_match(
            voter,
            equalize_voter(voter, budget, edges, sup, tolerance).1,
            equalize_voter(voter, budget, edges, sup, tolerance).2,
        ),
        distinct_candidates(equalize_voter(voter, budget, edges, sup, tolerance).1),
        others_kept(voter, equalize_voter(voter, budget, edges, sup, tolerance).2, sup),
{
    if rebalances(budget, edges, sup, tolerance) {
        let n = edges.len() as int;
        let un = unassign(voter, edges, sup);
        lemma_unassign_consistent(voter, edges, sup);
        lemma_unassign_distinct(voter, edges, sup);
        let sk = sorted_taken_back(voter, edges, sup);
        let sorted = unkeyed(sk);
        lemma_sorted_distinct(voter, edges, sup);
        assert forall|i: int| #![trigger sorted[i]] 0 <= i < n implies sorted[i] == sk[i].1 by {}
        assert(distinct_candidates(sorted)) by {
            assert forall|i: int, j: int| 0 <= i < j < n implies sorted[i].0 != sorted[j].0 by {
                assert(sorted[i] == sk[i].1);
                assert(sorted[j] == sk[j].1);
            }
        }
        lemma_cumulate_index(sorted, un.1, budget, n);
        let cu = cumulate(sorted, un.1, budget, n);
        let last_stake = sorted[cu.1].1;
        let split = cu.1 + 1;
        let excess = sat_sub(sat_add(budget, cu.0 as int), sat_mul(last_stake, split as u128));
        let share = excess / (split as u128);
        lemma_redistribute_general(voter, sorted, un.1, share, last_stake, split);
        let rb = redistribute(voter, sorted, un.1, share, last_stake, split);
        assert(equalize_voter(voter, budget, edges, sup, tolerance).1 == rb.0);
        assert(equalize_voter(voter, budget, edges, sup, tolerance).2 == rb.1);
        // every sorted edge goes to one of the voter's candidates, with no entry of the voter
        assert forall|i: int| #![trigger sorted[i]] 0 <= i < n && un.1.contains_key(sorted[i].0) implies entries_of(
            un.1[sorted[i].0].others,
            voter,
        ) == 0 && sorted[i].1 == 0 && rb.0[i].0 == sorted[i].0 by {
            assert(sorted[i] == sk[i].1);
            let c = sk[i].1.0;
            assert(crate::equalize_spec::candidates(edges).contains(c));
            let j = choose|j: int| 0 <= j < n && crate::equalize_spec::candidates(edges)[j] == c;
            assert(edges[j].0 == c);
        }
        assert forall|i: int| #![trigger sorted[i]] 0 <= i < n implies rb.0[i].0 == sorted[i].0 by {}
        assert(distinct_candidates(rb.0)) by {
            assert forall|i: int, j: int| 0 <= i < j < n implies rb.0[i].0 != rb.0[j].0 by {
                assert(rb.0[i].0 == sorted[i].0);
                assert(rb.0[j].0 == sorted[j].0);
            }
        }
        assert forall|c: AccountId| #[trigger] rb.1.contains_key(c) implies un.1.contains_key(c) by {
            if backs(sorted.take(split), c) {
                let i = choose|i: int| 0 <= i < sorted.take(split).len() && (#[trigger] sorted.take(split)[i]).0 == c;
                assert(sorted.take(split)[i] == sorted[i]);
            } else {
                assert(same_support(rb.1, un.1, c));
            }
        }
        assert forall|c: AccountId| rb.1.contains_key(c) implies #[trigger] rb.1[c].total == rb.1[c].own
            + weight_sum(rb.1[c].others) && forall|u: AccountId|
            u != voter ==> #[trigger] entries_of(rb.1[c].others, u) == entries_of(un.1[c].others, u) by {
            if backs(sorted.take(split), c) {
                let i = choose|i: int| 0 <= i < sorted.take(split).len() && (#[trigger] sorted.take(split)[i]).0 == c;
                assert(sorted.take(split)[i] == sorted[i]);
                let t = un.1[c].total;
                let v = rb.0[i].1;
                assert(t + v <= u128::MAX);
                lemma_push_sums(un.1[c].others, (voter, v));
            } else {
                assert(same_support(rb.1, un.1, c));
            }
        }
        assert forall|j: int| 0 <= j < rb.0.len() && rb.1.contains_key(#[trigger] rb.0[j].0) implies entries_of(
            rb.1[rb.0[j].0].others,
            voter,
        ) == rb.0[j].1 by {
            assert(rb.0[j].0 == sorted[j].0);
            let c = sorted[j].0;
            if j < split {
                lemma_push_sums(un.1[c].others, (voter, rb.0[j].1));
            } else {
                assert(!backs(sorted.take(split), c)) by {
                    if backs(sorted.take(split), c) {
                        let i = choose|i: int| 0 <= i < sorted.take(split).len() && (#[trigger] sorted.take(split)[i]).0 == c;
                        assert(sorted.take(split)[i] == sorted[i]);
                    }
                }
                assert(same_support(rb.1, un.1, c));
            }
        }
        assert forall|c: AccountId| #[trigger] rb.1.contains_key(c) implies sup.contains_key(c) by {
            assert(un.1.contains_key(c));
        }
        assert forall|c: AccountId, u: AccountId|
            #![trigger entries_of(rb.1[c].others, u)]
            u != voter && rb.1.contains_key(c) implies entries_of(rb.1[c].others, u) == entries_of(sup[c].others, u) by {
            assert(un.1.contains_key(c));
            assert(rb.1[c].total == rb.1[c].own + weight_sum(rb.1[c].others));
            assert(entries_of(rb.1[c].others, u) == entries_of(un.1[c].others, u));
            assert(entries_of(un.1[c].others, u) == entries_of(sup[c].others, u));
        }
    }
}

/// With the edges going to distinct candidates, spreading anew takes the voter's stake back
/// from each of them and records the new edge's stake in its support.
pub proof fn lemma_reassigned(
    voter: AccountId,
    budget: u128,
    edges: Seq<PhragmenAssignment>,
    sup: Map<AccountId, SupportModel>,
    tolerance: u128,
)
    requires
        rebalances(budget, edges, sup, tolerance),
        distinct_candidates(edges),
        taken_back_sorted(voter, edges, sup),
    ensures
        reassigned(voter, edges, sup, rebalance(voter, budget, edges, sup).0, rebalance(voter, budget, edges, sup).1),
{
    let n = edges.len() as int;
    let un = unassign(voter, edges, sup);
    lemma_unassign_distinct(voter, edges, sup);
    let sk = sorted_taken_back(voter, edges, sup);
    let sorted = unkeyed(sk);
    lemma_sorted_distinct(voter, edges, sup);
    assert(distinct_candidates(sorted)) by {
        assert forall|i: int, j: int| 0 <= i < j < n implies sorted[i].0 != sorted[j].0 by {
            assert(sorted[i] == sk[i].1);
            assert(sorted[j] == sk[j].1);
        }
    }
    lemma_cumulate_index(sorted, un.1, budget, n);
    let cu = cumulate(sorted, un.1, budget, n);
    let last_stake = sorted[cu.1].1;
    let split = cu.1 + 1;
    let excess = sat_sub(sat_add(budget, cu.0 as int), sat_mul(last_stake, split as u128));
    let share = excess / (split as u128);
    lemma_redistribute_general(voter, sorted, un.1, share, last_stake, split);
    let rb = rebalance(voter, budget, edges, sup);
    assert(rb == redistribute(voter, sorted, un.1, share, last_stake, split));
    assert forall|i: int| #![trigger rb.0[i]] 0 <= i < rb.0.len() && sup.contains_key(rb.0[i].0) implies {
        let c = rb.0[i].0;
        let w = rb.0[i].1;
        let base = without_voter(sup[c].others, voter);
        &&& rb.1.contains_key(c)
        &&& rb.1[c].own == sup[c].own
        &&& rb.1[c].total == sat_add(sat_sub(sup[c].total, weight_of(edges, c)), w as int)
        &&& (rb.1[c].others == base.push((voter, w)) || (w == 0 && rb.1[c].others == base))
    } by {
        assert(sorted[i] == sk[i].1);
        let c = sorted[i].0;
        assert(crate::equalize_spec::candidates(edges).contains(c));
        let j = choose|j: int| 0 <= j < n && crate::equalize_spec::candidates(edges)[j] == c;
        assert(edges[j].0 == c);
        assert(un.1.contains_key(c));
        if i >= split {
            assert(!backs(sorted.take(split), c)) by {
                if backs(sorted.take(split), c) {
                    let x = choose|x: int| 0 <= x < sorted.take(split).len() && (#[trigger] sorted.take(split)[x]).0 == c;
                    assert(sorted.take(split)[x] == sorted[x]);
                }
            }
            assert(same_support(rb.1, un.1, c));
            assert(rb.0[i] == sorted[i]);
        }
    }
}

} // verus!
