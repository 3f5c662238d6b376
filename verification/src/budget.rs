//! Spreading a voter's budget anew never hands out more than the budget, whatever the sizes
//! involved, saturating sums and products included.

use vstd::prelude::*;
use crate::arith::{sat_add, sat_mul, sat_sub};
use crate::consistency::{lemma_cumulate_index, lemma_redistribute_general};
use crate::equalize_spec::{
    all_supported, cumulate, distinct_candidates, prefix_keys, rebalance, rebalances,
    sorted_taken_back, taken_back_sorted, unassign, unkeyed, weight_sum,
};
use crate::filling::{lemma_sorted_structure, lemma_weight_sum_filled};
use crate::types::{AccountId, PhragmenAssignment, SupportModel};

verus! {

/// What the walk compares with the budget at index `i`: lifting the candidates before it to its
/// key, as computed, with saturation.
pub open spec fn walk_cost(
    sk: Seq<(u128, PhragmenAssignment)>,
    sup: Map<AccountId, SupportModel>,
    budget: u128,
    i: int,
) -> u128 {
    sat_sub(sat_mul(sk[i].0, i as u128), cumulate(unkeyed(sk), sup, budget, i).0)
}

/// The walk over a sorted list whose every candidate has a support of its key: while it goes
/// on, what it takes in is at most the keys added up, and every index it passed cost no more than
/// the budget; when it stops, it stops right after an index it passed.
pub proof fn lemma_walk_general(
    sk: Seq<(u128, PhragmenAssignment)>,
    sup: Map<AccountId, SupportModel>,
    budget: u128,
    m: int,
)
    requires
        0 <= m <= sk.len(),
        sk.len() < u128::MAX,
        forall|i: int|
            #![trigger sk[i]]
            0 <= i < sk.len() ==> sup.contains_key(sk[i].1.0) && sup[sk[i].1.0].total == sk[i].0,
    ensures
        !cumulate(unkeyed(sk), sup, budget, m).2 ==> {
            &&& cumulate(unkeyed(sk), sup, budget, m).0 <= prefix_keys(sk, m)
            &&& cumulate(unkeyed(sk), sup, budget, m).1 == sk.len() - 1
            &&& forall|i: int|
                0 <= i < m ==> !cumulate(unkeyed(sk), sup, budget, i).2 && #[trigger] walk_cost(sk, sup, budget, i)
                    <= budget
        },
        cumulate(unkeyed(sk), sup, budget, m).2 ==> {
            let last = cumulate(unkeyed(sk), sup, budget, m).1;
            &&& 0 <= last
            &&& last + 1 < m
            &&& !cumulate(unkeyed(sk), sup, budget, last + 1).2
            &&& cumulate(unkeyed(sk), sup, budget, m).0 == cumulate(unkeyed(sk), sup, budget, last + 1).0
        },
    decreases m,
{
    if m > 0 {
        let idx = m - 1;
        lemma_walk_general(sk, sup, budget, idx);
        let sorted = unkeyed(sk);
        let p = cumulate(sorted, sup, budget, idx);
        assert(sorted[idx] == sk[idx].1);
        let a = sk[idx].0;
        assert(sup.contains_key(sk[idx].1.0) && sup[sk[idx].1.0].total == a);
        assert(prefix_keys(sk, m) == prefix_keys(sk, idx) + a);
        assert((idx as u128) as int == idx);
        if !p.2 {
            if idx == 0 {
                assert(a * 0 == 0) by (nonlinear_arith);
                assert(sat_mul(a, 0u128) == 0);
                assert(walk_cost(sk, sup, budget, 0) == 0);
            }
            if walk_cost(sk, sup, budget, idx) <= budget {
                assert forall|i: int| 0 <= i < m implies !cumulate(sorted, sup, budget, i).2 && #[trigger] walk_cost(
                    sk,
                    sup,
                    budget,
                    i,
                ) <= budget by {
                    if i < idx {
                        assert(walk_cost(sk, sup, budget, i) <= budget);
                    }
                }
            }
        }
    }
}

/// Edges of which each of the first `m` carries what its key lacks of `share`, in a list sorted
/// by key: either all of the first `m` keys are within `share` and the edges carry `m` shares
/// less those keys, or some first key `s` exceeds it and they carry `s` shares less the keys
/// before it.
pub proof fn lemma_capped_sum(
    new_edges: Seq<PhragmenAssignment>,
    sk: Seq<(u128, PhragmenAssignment)>,
    share: u128,
    m: int,
)
    requires
        0 <= m <= new_edges.len(),
        m <= sk.len(),
        forall|i: int| 0 <= i < m ==> (#[trigger] new_edges[i]).1 == sat_sub(share, sk[i].0),
        forall|x: int, y: int| 0 <= x <= y < sk.len() ==> (#[trigger] sk[x]).0 <= (#[trigger] sk[y]).0,
    ensures
        (m == 0 || sk[m - 1].0 <= share) ==> weight_sum(new_edges.take(m)) == m * share - prefix_keys(sk, m),
        (m > 0 && sk[m - 1].0 > share) ==> exists|s: int|
            0 <= s < m && sk[s].0 > share && (s == 0 || sk[s - 1].0 <= share) && weight_sum(new_edges.take(m))
                == s * share - #[trigger] prefix_keys(sk, s),
    decreases m,
{
    if m > 0 {
        lemma_capped_sum(new_edges, sk, share, m - 1);
        assert(new_edges.take(m).drop_last() =~= new_edges.take(m - 1));
        assert(new_edges.take(m).last() == new_edges[m - 1]);
        assert((m - 1) * share + share == m * share) by (nonlinear_arith);
        if sk[m - 1].0 <= share {
            if m >= 2 {
                assert(sk[m - 2].0 <= sk[m - 1].0);
            }
        } else {
            if m == 1 || sk[m - 2].0 <= share {
                let s = m - 1;
                assert(0 <= s < m && sk[s].0 > share && (s == 0 || sk[s - 1].0 <= share) && weight_sum(
                    new_edges.take(m),
                ) == s * share - prefix_keys(sk, s));
            }
        }
    } else {
        assert(new_edges.take(0).len() == 0);
        assert(0 * share == 0);
    }
}

/// Spreading anew, with the edges going to distinct candidates that all have a support, hands
/// out no more than the budget.
pub proof fn lemma_within_budget(
    voter: AccountId,
    budget: u128,
    edges: Seq<PhragmenAssignment>,
    sup: Map<AccountId, SupportModel>,
    tolerance: u128,
)
    requires
        rebalances(budget, edges, sup, tolerance),
        edges.len() <= usize::MAX,
        distinct_candidates(edges),
        all_supported(edges, sup),
        taken_back_sorted(voter, edges, sup),
    ensures
        weight_sum(rebalance(voter, budget, edges, sup).0) <= budget,
{
    let n = edges.len() as int;
    let un = unassign(voter, edges, sup);
    let sk = sorted_taken_back(voter, edges, sup);
    let sorted = unkeyed(sk);
    lemma_sorted_structure(voter, edges, sup);
    assert forall|i: int| #![trigger sorted[i]] 0 <= i < n implies sorted[i] == sk[i].1 by {}
    assert forall|i: int| #![trigger sk[i]] 0 <= i < n implies un.1.contains_key(sk[i].1.0)
        && un.1[sk[i].1.0].total == sk[i].0 by {}
    assert(distinct_candidates(sorted)) by {
        assert forall|i: int, j: int| 0 <= i < j < n implies sorted[i].0 != sorted[j].0 by {
            assert(sorted[i] == sk[i].1);
            assert(sorted[j] == sk[j].1);
        }
    }
    // where the walk ends
    lemma_cumulate_index(sorted, un.1, budget, n);
    lemma_walk_general(sk, un.1, budget, n);
    let cu = cumulate(sorted, un.1, budget, n);
    let k = cu.1 + 1;
    assert(!cumulate(sorted, un.1, budget, k).2 && cu.0 == cumulate(sorted, un.1, budget, k).0);
    lemma_walk_general(sk, un.1, budget, k);
    assert(cu.0 <= prefix_keys(sk, k));
    // the split: the last edge taken in was cleared, so the budget and what was taken in are
    // split `k` ways
    let last_stake = sorted[cu.1].1;
    assert(last_stake == 0);
    assert(sat_mul(last_stake, k as u128) == 0);
    let excess = sat_sub(sat_add(budget, cu.0 as int), sat_mul(last_stake, k as u128));
    assert(excess == sat_add(budget, cu.0 as int));
    assert((k as u128) as int == k);
    let share = excess / (k as u128);
    vstd::arithmetic::div_mod::lemma_fundamental_div_mod(excess as int, k);
    vstd::arithmetic::div_mod::lemma_mod_bound(excess as int, k);
    assert(k * share <= excess);
    assert(sat_add(share, last_stake as int) == share);
    lemma_redistribute_general(voter, sorted, un.1, share, last_stake, k);
    let rb = rebalance(voter, budget, edges, sup);
    assert(rb == crate::equalize_spec::redistribute(voter, sorted, un.1, share, last_stake, k));
    assert forall|i: int| 0 <= i < k implies (#[trigger] rb.0[i]).1 == sat_sub(share, sk[i].0) by {
        assert(sorted[i] == sk[i].1);
    }
    assert forall|i: int| k <= i < n implies (#[trigger] rb.0[i]).1 == 0 by {
        assert(sorted[i] == sk[i].1);
    }
    // beyond the `k` taken in, nothing is handed out
    lemma_zero_tail(rb.0, k, n);
    lemma_capped_sum(rb.0, sk, share, k);
    let w = weight_sum(rb.0.take(k));
    if sk[k - 1].0 <= share {
        // every key within the share: `k` shares less the keys, within the budget
        assert(w == k * share - prefix_keys(sk, k));
        assert(excess <= budget + cu.0);
    } else {
        let s = choose|s: int|
            0 <= s < k && sk[s].0 > share && (s == 0 || sk[s - 1].0 <= share) && w == s * share
                - #[trigger] prefix_keys(sk, s);
        if s > 0 {
            // the walk passed `s`: lifting the keys before it to its key cost no more than the budget
            assert(walk_cost(sk, un.1, budget, s) <= budget);
            assert(!cumulate(sorted, un.1, budget, s).2);
            lemma_walk_general(sk, un.1, budget, s);
            let cs = cumulate(sorted, un.1, budget, s).0;
            assert(cs <= prefix_keys(sk, s));
            let a = sk[s].0;
            assert((s as u128) as int == s);
            assert(s * share <= k * share) by (nonlinear_arith)
                requires
                    0 <= s <= k,
                    share >= 0,
            ;
            assert(s * share < a * s) by (nonlinear_arith)
                requires
                    share < a,
                    s >= 1,
            ;
            if a * s <= u128::MAX {
                assert(sat_mul(a, s as u128) == a * s);
            } else {
                assert(sat_mul(a, s as u128) == u128::MAX);
            }
        } else {
            assert(prefix_keys(sk, 0) == 0);
            assert(0 * share == 0);
        }
    }
}

/// Edges that carry nothing past the first `k` carry over all of them what the first `k` do.
pub proof fn lemma_zero_tail(edges: Seq<PhragmenAssignment>, k: int, m: int)
    requires
        0 <= k <= m <= edges.len(),
        forall|i: int| k <= i < edges.len() ==> (#[trigger] edges[i]).1 == 0,
    ensures
        weight_sum(edges.take(m)) == weight_sum(edges.take(k)),
        m == edges.len() ==> weight_sum(edges) == weight_sum(edges.take(k)),
    decreases m - k,
{
    if m > k {
        lemma_zero_tail(edges, k, m - 1);
        assert(edges.take(m).drop_last() =~= edges.take(m - 1));
        assert(edges.take(m).last() == edges[m - 1]);
    }
    assert(edges.take(edges.len() as int) =~= edges);
}

} // verus!
