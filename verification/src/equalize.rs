//! Equalise post-processing: moving each voter's stake towards its least supported candidates.

use vstd::prelude::*;
use crate::arith::saturating_mul;
use crate::equalize_spec::{
    backed_totals, backs, cumulate, difference_of, equalize_pass, equalize_run, equalize_voter,
    kept_going, passes_run,
    lemma_redistribute_frame, lemma_unassign_frame, named, same_support, keyed, redistribute, seq_max, seq_min,
    sorted_by_first, stake_used, supports_view, unassign, unkeyed, without_voter, SupportMap,
    candidates, ordered_by_taken_back, rebalances, sorted_from, taken_back_sorted,
    fills_exactly, rebalance, water_filled, weight_sum, consistent, entries_match, others_kept,
    distinct_candidates, agrees_with, entries_of, reassigned, all_supported, within_stakes,
    same_every_pass, pass_sorted, run_sorted,
};
use crate::budget::lemma_within_budget;
use crate::consistency::{lemma_reassigned, lemma_voter_consistent};
use crate::filling::{lemma_map_multiset, lemma_sorted_keys, lemma_water_filling};
use crate::types::{assignments_view, AccountId, PhragmenAssignment, Support, SupportModel};

verus! {

/// Sorts by the first component with `slice::sort_unstable_by_key`.
///
/// Trusted: the result is named [`sorted_by_first`] of the input (the standard library's sort
/// is a deterministic algorithm), and, as its documentation states, it is a permutation of the
/// input in non-descending order of the key. Which of equal keys comes first is left unsaid.
#[verifier::external_body]
fn sort_by_first(v: &mut Vec<(u128, PhragmenAssignment)>)
    ensures
        final(v)@ == sorted_by_first(old(v)@),
        final(v)@.len() == old(v)@.len(),
        final(v)@.to_multiset() == old(v)@.to_multiset(),
        forall|i: int, j: int| 0 <= i <= j < final(v)@.len() ==> final(v)@[i].0 <= final(v)@[j].0,
{
    v.sort_unstable_by_key(|e| e.0);
}

/// The support from voters other than `voter`.
fn others_without(others: &Vec<PhragmenAssignment>, voter: AccountId) -> (r: Vec<PhragmenAssignment>)
    ensures
        r@ == without_voter(others@, voter),
{
    let mut kept: Vec<PhragmenAssignment> = Vec::new();
    let n = others.len();
    for i in 0..n
        invariant
            n == others@.len(),
            kept@ == without_voter(others@.take(i as int), voter),
    {
        proof {
            assert(others@.take(i + 1).drop_last() =~= others@.take(i as int));
        }
        if others[i].0 != voter {
            kept.push(others[i]);
        }
    }
    proof {
        assert(others@.take(n as int) =~= others@);
    }
    kept
}

/// The stake a voter has spent on its edges, added up with saturation.
fn spent(edges: &Vec<PhragmenAssignment>) -> (r: u128)
    ensures
        r == stake_used(edges@),
{
    let mut used: u128 = 0;
    let n = edges.len();
    for i in 0..n
        invariant
            n == edges@.len(),
            used == stake_used(edges@.take(i as int)),
    {
        proof {
            assert(edges@.take(i + 1).drop_last() =~= edges@.take(i as int));
        }
        used = used.saturating_add(edges[i].1);
    }
    proof {
        assert(edges@.take(n as int) =~= edges@);
    }
    used
}

/// The totals of the supports of the edges' candidates, in order; with `only_backing`, only of
/// the edges that carry stake.
fn backed(edges: &Vec<PhragmenAssignment>, support_map: &SupportMap, only_backing: bool) -> (r: Vec<u128>)
    ensures
        r@ == backed_totals(edges@, supports_view(support_map@), only_backing),
{
    let ghost sv = supports_view(support_map@);
    let mut totals: Vec<u128> = Vec::new();
    let n = edges.len();
    for i in 0..n
        invariant
            n == edges@.len(),
            sv == supports_view(support_map@),
            totals@ == backed_totals(edges@.take(i as int), sv, only_backing),
    {
        proof {
            assert(edges@.take(i + 1).drop_last() =~= edges@.take(i as int));
        }
        match support_map.get(&edges[i].0) {
            Some(s) => {
                if !only_backing || edges[i].1 > 0 {
                    totals.push(s.total);
                }
            },
            None => {},
        }
    }
    proof {
        assert(edges@.take(n as int) =~= edges@);
    }
    totals
}

/// The greatest value.
fn max_of(v: &Vec<u128>) -> (r: u128)
    ensures
        r == seq_max(v@),
{
    let mut m: u128 = 0;
    let n = v.len();
    for i in 0..n
        invariant
            n == v@.len(),
            m == seq_max(v@.take(i as int)),
    {
        proof {
            assert(v@.take(i + 1).drop_last() =~= v@.take(i as int));
        }
        if i == 0 || v[i] >= m {
            m = v[i];
        }
    }
    proof {
        assert(v@.take(n as int) =~= v@);
    }
    m
}

/// The least value.
fn min_of(v: &Vec<u128>) -> (r: u128)
    ensures
        r == seq_min(v@),
{
    let mut m: u128 = 0;
    let n = v.len();
    for i in 0..n
        invariant
            n == v@.len(),
            m == seq_min(v@.take(i as int)),
    {
        proof {
            assert(v@.take(i + 1).drop_last() =~= v@.take(i as int));
        }
        if i == 0 || v[i] < m {
            m = v[i];
        }
    }
    proof {
        assert(v@.take(n as int) =~= v@);
    }
    m
}

/// Replaces the support of `who`.
fn put_support(support_map: &mut SupportMap, who: AccountId, s: Support)
    ensures
        supports_view(final(support_map)@) == supports_view(old(support_map)@).insert(who, s@),
{
    let ghost before = support_map@;
    support_map.insert(who, s);
    proof {
        assert(supports_view(support_map@) =~= supports_view(before).insert(who, s@));
    }
}

/// Takes the support of `who` out of the map.
fn take_support(support_map: &mut SupportMap, who: AccountId) -> (r: Option<Support>)
    ensures
        match r {
            Some(s) => supports_view(old(support_map)@).contains_key(who) && supports_view(
                old(support_map)@,
            )[who] == s@,
            None => !supports_view(old(support_map)@).contains_key(who),
        },
        supports_view(final(support_map)@) == supports_view(old(support_map)@).remove(who),
{
    let ghost before = support_map@;
    let r = support_map.remove(&who);
    proof {
        assert(supports_view(support_map@) =~= supports_view(before).remove(who));
    }
    r
}

/// Takes back the voter's stake from the supports of its edges, in order, and clears the edges.
fn take_back(voter: AccountId, edges: &mut Vec<PhragmenAssignment>, support_map: &mut SupportMap)
    ensures
        (final(edges)@, supports_view(final(support_map)@)) == unassign(
            voter,
            old(edges)@,
            supports_view(old(support_map)@),
        ),
{
    let ghost e0 = edges@;
    let ghost s0 = supports_view(support_map@);
    let n = edges.len();
    for i in 0..n
        invariant
            n == e0.len(),
            edges@.len() == n,
            (edges@.take(i as int), supports_view(support_map@)) == unassign(voter, e0.take(i as int), s0),
            forall|k: int| i <= k < n ==> #[trigger] edges@[k] == e0[k],
    {
        proof {
            assert(e0.take(i + 1).drop_last() =~= e0.take(i as int));
        }
        let ghost eb = edges@;
        let (who, stake) = edges[i];
        match take_support(support_map, who) {
            Some(s) => {
                let others = others_without(&s.others, voter);
                put_support(
                    support_map,
                    who,
                    Support { own: s.own, total: s.total.saturating_sub(stake), others },
                );
            },
            None => {},
        }
        edges[i] = (who, 0);
        proof {
            assert(edges@.take(i + 1) =~= eb.take(i as int).push((who, 0u128)));
            assert(supports_view(support_map@) =~= unassign(voter, e0.take(i + 1), s0).1);
        }
    }
    proof {
        assert(e0.take(n as int) =~= e0);
        assert(edges@.take(n as int) =~= edges@);
    }
}

/// Each edge beside the total of its candidate's support (zero without one).
fn key_edges(edges: &Vec<PhragmenAssignment>, support_map: &SupportMap) -> (r: Vec<(u128, PhragmenAssignment)>)
    ensures
        r@ == keyed(edges@, supports_view(support_map@)),
{
    let ghost sv = supports_view(support_map@);
    let mut out: Vec<(u128, PhragmenAssignment)> = Vec::new();
    let n = edges.len();
    for i in 0..n
        invariant
            n == edges@.len(),
            sv == supports_view(support_map@),
            out@ =~= keyed(edges@, sv).take(i as int),
    {
        let key = match support_map.get(&edges[i].0) {
            Some(s) => s.total,
            None => 0,
        };
        out.push((key, edges[i]));
    }
    proof {
        assert(keyed(edges@, sv).take(n as int) =~= keyed(edges@, sv));
    }
    out
}

/// The edges of a keyed list.
fn strip_keys(v: &Vec<(u128, PhragmenAssignment)>) -> (r: Vec<PhragmenAssignment>)
    ensures
        r@ == unkeyed(v@),
{
    let mut out: Vec<PhragmenAssignment> = Vec::new();
    let n = v.len();
    for i in 0..n
        invariant
            n == v@.len(),
            out@ =~= unkeyed(v@).take(i as int),
    {
        out.push(v[i].1);
    }
    proof {
        assert(unkeyed(v@).take(n as int) =~= unkeyed(v@));
    }
    out
}

/// Once the walk has stopped, further edges change nothing.
proof fn lemma_cumulate_stopped(
    edges: Seq<PhragmenAssignment>,
    sup: Map<AccountId, SupportModel>,
    budget: u128,
    m: int,
    n: int,
)
    requires
        0 <= m <= n,
        cumulate(edges, sup, budget, m).2,
    ensures
        cumulate(edges, sup, budget, n) == cumulate(edges, sup, budget, m),
    decreases n - m,
{
    if n > m {
        lemma_cumulate_stopped(edges, sup, budget, m, n - 1);
    }
}

/// The support taken in, and the last index, while walking the edges least supported first.
fn cumulative(edges: &Vec<PhragmenAssignment>, support_map: &SupportMap, budget: u128) -> (r: (u128, usize))
    requires
        edges@.len() > 0,
    ensures
        r.0 == cumulate(edges@, supports_view(support_map@), budget, edges@.len() as int).0,
        r.1 as int == cumulate(edges@, supports_view(support_map@), budget, edges@.len() as int).1,
        r.1 < edges@.len(),
{
    let ghost sv = supports_view(support_map@);
    let n = edges.len();
    let mut cumulative_stake: u128 = 0;
    let mut last_index: usize = n - 1;
    let mut idx: usize = 0;
    while idx < n
        invariant_except_break
            cumulative_stake == cumulate(edges@, sv, budget, idx as int).0,
            last_index as int == cumulate(edges@, sv, budget, idx as int).1,
            !cumulate(edges@, sv, budget, idx as int).2,
        invariant
            n == edges@.len(),
            n > 0,
            idx <= n,
            sv == supports_view(support_map@),
            last_index < n,
        ensures
            cumulative_stake == cumulate(edges@, sv, budget, n as int).0,
            last_index as int == cumulate(edges@, sv, budget, n as int).1,
        decreases n - idx,
    {
        match support_map.get(&edges[idx].0) {
            Some(s) => {
                let stake = s.total;
                let stake_mul = saturating_mul(stake, idx as u128);
                let stake_sub = stake_mul.saturating_sub(cumulative_stake);
                if stake_sub > budget {
                    last_index = match idx.checked_sub(1) {
                        Some(x) => x,
                        None => 0,
                    };
                    proof {
                        lemma_cumulate_stopped(edges@, sv, budget, idx + 1, n as int);
                    }
                    break;
                }
                cumulative_stake = cumulative_stake.saturating_add(stake);
            },
            None => {},
        }
        idx = idx + 1;
    }
    (cumulative_stake, last_index)
}

/// Gives each of the first `split` edges what its candidate lacks of `share` plus `last_stake`,
/// and records it in the candidate's support.
fn hand_out(
    voter: AccountId,
    edges: &mut Vec<PhragmenAssignment>,
    support_map: &mut SupportMap,
    share: u128,
    last_stake: u128,
    split: usize,
)
    requires
        split <= old(edges)@.len(),
    ensures
        (final(edges)@, supports_view(final(support_map)@)) == redistribute(
            voter,
            old(edges)@,
            supports_view(old(support_map)@),
            share,
            last_stake,
            split as int,
        ),
{
    let ghost e0 = edges@;
    let ghost s0 = supports_view(support_map@);
    for i in 0..split
        invariant
            split <= e0.len(),
            edges@.len() == e0.len(),
            (edges@, supports_view(support_map@)) == redistribute(voter, e0, s0, share, last_stake, i as int),
            forall|k: int| i <= k < e0.len() ==> #[trigger] edges@[k] == e0[k],
    {
        let who = edges[i].0;
        match take_support(support_map, who) {
            Some(s) => {
                let v = share.saturating_add(last_stake).saturating_sub(s.total);
                edges[i] = (who, v);
                let mut others = s.others;
                others.push((voter, v));
                put_support(
                    support_map,
                    who,
                    Support { own: s.own, total: s.total.saturating_add(v), others },
                );
                proof {
                    assert(supports_view(support_map@) =~= redistribute(voter, e0, s0, share, last_stake, i + 1).1);
                }
            },
            None => {
                proof {
                    assert(supports_view(support_map@) =~= redistribute(voter, e0, s0, share, last_stake, i + 1).1);
                }
            },
        }
    }
}

/// Equalises one voter: unless its support is already within `tolerance` of even, takes its
/// stake back from its candidates and spreads its budget over them anew, least supported first.
/// Returns how far from even the voter's support was.
///
/// * `voter`: the voter.
/// * `budget_balance`: its stake, as votes.
/// * `elected_edges`: its stake in each candidate it backs; updated.
/// * `support_map`: the support of each candidate; updated.
/// * `tolerance`: the difference below which the voter is left as it is.
///
/// The edges come back as a permutation of the old ones, and, when spread anew, in order of
/// their candidates' support once the voter's stake is taken back. With distinct candidates
/// that all have a support, the spreading hands out no more than the budget, and when nothing
/// saturates it is a filling of the least supported candidates to one level ([`water_filled`]).
/// Supports consistent with the voter's edges stay consistent with its new ones.
pub fn do_equalize(
    voter: &AccountId,
    budget_balance: u64,
    elected_edges: &mut Vec<PhragmenAssignment>,
    support_map: &mut SupportMap,
    tolerance: u128,
) -> (r: u128)
    ensures
        (r, final(elected_edges)@, supports_view(final(support_map)@)) == equalize_voter(
            *voter,
            budget_balance as u128,
            old(elected_edges)@,
            supports_view(old(support_map)@),
            tolerance,
        ),
        forall|who: AccountId|
            !backs(old(elected_edges)@, who) ==> #[trigger] same_support(
                supports_view(final(support_map)@),
                supports_view(old(support_map)@),
                who,
            ),
        forall|who: AccountId|
            #[trigger] backs(final(elected_edges)@, who) ==> backs(old(elected_edges)@, who),
        candidates(final(elected_edges)@).to_multiset() == candidates(old(elected_edges)@).to_multiset(),
        rebalances(budget_balance as u128, old(elected_edges)@, supports_view(old(support_map)@), tolerance)
            ==> taken_back_sorted(*voter, old(elected_edges)@, supports_view(old(support_map)@)),
        rebalances(budget_balance as u128, old(elected_edges)@, supports_view(old(support_map)@), tolerance)
            ==> ordered_by_taken_back(
            *voter,
            old(elected_edges)@,
            supports_view(old(support_map)@),
            final(elected_edges)@,
        ),
        fills_exactly(budget_balance as u128, old(elected_edges)@, supports_view(old(support_map)@), tolerance)
            ==> exists|k: int|
            #[trigger] water_filled(
                *voter,
                budget_balance as u128,
                old(elected_edges)@,
                supports_view(old(support_map)@),
                k,
                final(elected_edges)@,
                supports_view(final(support_map)@),
            ),
        supports_view(final(support_map)@).dom() == supports_view(old(support_map)@).dom(),
        rebalances(budget_balance as u128, old(elected_edges)@, supports_view(old(support_map)@), tolerance)
            && distinct_candidates(old(elected_edges)@) && all_supported(
            old(elected_edges)@,
            supports_view(old(support_map)@),
        ) ==> weight_sum(final(elected_edges)@) <= budget_balance as u128,
        rebalances(budget_balance as u128, old(elected_edges)@, supports_view(old(support_map)@), tolerance)
            && distinct_candidates(old(elected_edges)@) ==> reassigned(
            *voter,
            old(elected_edges)@,
            supports_view(old(support_map)@),
            final(elected_edges)@,
            supports_view(final(support_map)@),
        ),
        consistent(supports_view(old(support_map)@)) && entries_match(
            *voter,
            old(elected_edges)@,
            supports_view(old(support_map)@),
        ) && distinct_candidates(old(elected_edges)@) ==> {
            &&& consistent(supports_view(final(support_map)@))
            &&& entries_match(*voter, final(elected_edges)@, supports_view(final(support_map)@))
            &&& distinct_candidates(final(elected_edges)@)
            &&& others_kept(*voter, supports_view(final(support_map)@), supports_view(old(support_map)@))
        },
{
    let ghost e0 = elected_edges@;
    let ghost s0 = supports_view(support_map@);
    let budget: u128 = budget_balance as u128;
    if elected_edges.len() == 0 {
        return 0;
    }
    let stake_used = spent(elected_edges);
    let backing_backed_stake = backed(elected_edges, support_map, true);
    let difference: u128;
    if backing_backed_stake.len() > 0 {
        let max_stake = max_of(&backing_backed_stake);
        let backed_stakes = backed(elected_edges, support_map, false);
        let min_stake = min_of(&backed_stakes);
        let spread = max_stake.saturating_sub(min_stake);
        difference = spread.saturating_add(budget.saturating_sub(stake_used));
        if difference < tolerance {
            return difference;
        }
    } else {
        difference = budget;
    }
    proof {
        assert(difference == difference_of(budget, old(elected_edges)@, supports_view(old(support_map)@)));
    }
    take_back(*voter, elected_edges, support_map);
    proof {
        lemma_unassign_frame(*voter, e0, s0);
    }
    let ghost e1 = elected_edges@;
    let ghost s1 = supports_view(support_map@);
    let mut keyed_edges = key_edges(elected_edges, support_map);
    let ghost k0 = keyed_edges@;
    sort_by_first(&mut keyed_edges);
    *elected_edges = strip_keys(&keyed_edges);
    proof {
        // the sorted edges go to the same candidates
        assert forall|j: int| 0 <= j < elected_edges@.len() implies #[trigger] backs(e0, elected_edges@[j].0) by {
            let x = keyed_edges@[j];
            assert(keyed_edges@.contains(x));
            vstd::seq_lib::to_multiset_contains(keyed_edges@, x);
            vstd::seq_lib::to_multiset_contains(k0, x);
            assert(k0.contains(x));
            let i = choose|i: int| 0 <= i < k0.len() && k0[i] == x;
            assert(e1[i].0 == e0[i].0);
            assert(e0[i].0 == elected_edges@[j].0);
        }
        assert forall|who: AccountId| !backs(e0, who) implies !backs(elected_edges@, who) by {
            if backs(elected_edges@, who) {
                let j = choose|j: int| 0 <= j < elected_edges@.len() && (#[trigger] elected_edges@[j]).0 == who;
                assert(backs(e0, elected_edges@[j].0));
            }
        }
    }
    let ghost e2 = elected_edges@;
    // the number of edges bounds the last index, so that one more does not overflow
    let edge_count = elected_edges.len();
    let (cumulative_stake, last_index) = cumulative(elected_edges, support_map, budget);
    let last_stake = elected_edges[last_index].1;
    proof {
        assert(last_index < edge_count);
    }
    let split_ways = last_index + 1;
    let excess = budget.saturating_add(cumulative_stake).saturating_sub(
        saturating_mul(last_stake, split_ways as u128),
    );
    hand_out(
        *voter,
        elected_edges,
        support_map,
        excess / (split_ways as u128),
        last_stake,
        split_ways,
    );
    proof {
        let sorted = unkeyed(sorted_by_first(keyed(e1, s1)));
        assert(sorted_by_first(keyed(e1, s1)) == keyed_edges@);
        lemma_redistribute_frame(*voter, sorted, s1, excess / (split_ways as u128), last_stake, split_ways as int);
        assert forall|who: AccountId| !backs(e0, who) implies #[trigger] same_support(
            supports_view(support_map@),
            s0,
            who,
        ) by {
            assert(same_support(s1, s0, who));
            assert(same_support(supports_view(support_map@), s1, who));
        }
        assert forall|who: AccountId| #[trigger] backs(elected_edges@, who) implies backs(e0, who) by {
            let j = choose|j: int| 0 <= j < elected_edges@.len() && (#[trigger] elected_edges@[j]).0 == who;
            assert(e2[j].0 == who);
            assert(backs(e0, e2[j].0));
        }
        // the sort is an ascending permutation of the keyed edges
        let sk = keyed_edges@;
        assert(sorted_from(k0, sk));
        lemma_sorted_keys(e1, s1, sk);
        assert forall|i: int| 0 <= i < elected_edges@.len() implies (#[trigger] elected_edges@[i]).0
            == sk[i].1.0 by {
            assert(e2[i] == sk[i].1);
        }
        assert(candidates(elected_edges@) =~= sk.map_values(|x: (u128, PhragmenAssignment)| x.1.0));
        assert(candidates(e1) =~= k0.map_values(|x: (u128, PhragmenAssignment)| x.1.0));
        assert(candidates(e1) =~= candidates(e0));
        lemma_map_multiset(sk, k0, |x: (u128, PhragmenAssignment)| x.1.0);
        // with distinct candidates and nothing saturating, the budget fills up the least supported
        if fills_exactly(budget, e0, s0, tolerance) {
            lemma_water_filling(*voter, budget, e0, s0, tolerance);
            let k = cumulate(unkeyed(sk), s1, budget, e0.len() as int).1 + 1;
            assert((elected_edges@, supports_view(support_map@)) == rebalance(*voter, budget, e0, s0));
            assert(water_filled(*voter, budget, e0, s0, k, elected_edges@, supports_view(support_map@)));
            vstd::arithmetic::div_mod::lemma_mod_bound(budget + crate::equalize_spec::prefix_keys(sk, k), k);
        }
        // consistent supports stay consistent
        assert(taken_back_sorted(*voter, e0, s0));
        if consistent(s0) && entries_match(*voter, e0, s0) && distinct_candidates(e0) {
            lemma_voter_consistent(*voter, budget, e0, s0, tolerance);
        }
        crate::laws::lemma_unassign_dom(*voter, e0, s0);
        crate::laws::lemma_redistribute_dom(
            *voter,
            unkeyed(sk),
            s1,
            excess / (split_ways as u128),
            last_stake,
            split_ways as int,
        );
        if distinct_candidates(e0) && all_supported(e0, s0) {
            lemma_within_budget(*voter, budget, e0, s0, tolerance);
        }
        if distinct_candidates(e0) {
            lemma_reassigned(*voter, budget, e0, s0, tolerance);
            assert((elected_edges@, supports_view(support_map@)) == rebalance(*voter, budget, e0, s0));
        }
    }
    difference
}

/// One pass of equalisation over every voter, with the stake of each given in `budgets`;
/// returns the greatest difference met.
pub fn equalize_round(
    assignments: &mut Vec<(AccountId, Vec<PhragmenAssignment>)>,
    budgets: &Vec<u64>,
    supports: &mut SupportMap,
    tolerance: u128,
) -> (max_diff: u128)
    requires
        budgets@.len() == old(assignments)@.len(),
    ensures
        final(assignments)@.len() == old(assignments)@.len(),
        (assignments_view(final(assignments)@), supports_view(final(supports)@), max_diff)
            == equalize_pass(
            assignments_view(old(assignments)@),
            budgets@,
            supports_view(old(supports)@),
            tolerance,
            old(assignments)@.len() as int,
        ),
        forall|who: AccountId|
            !named(old(assignments)@, who) ==> #[trigger] same_support(
                supports_view(final(supports)@),
                supports_view(old(supports)@),
                who,
            ),
        forall|who: AccountId| #[trigger] named(final(assignments)@, who) ==> named(old(assignments)@, who),
        agrees_with(assignments_view(old(assignments)@), supports_view(old(supports)@)) ==> agrees_with(
            assignments_view(final(assignments)@),
            supports_view(final(supports)@),
        ),
        pass_sorted(
            assignments_view(old(assignments)@),
            budgets@,
            supports_view(old(supports)@),
            tolerance,
            old(assignments)@.len() as int,
        ),
        agrees_with(assignments_view(old(assignments)@), supports_view(old(supports)@)) && within_stakes(
            assignments_view(old(assignments)@),
            supports_view(old(supports)@),
            budgets@,
        ) ==> within_stakes(assignments_view(final(assignments)@), supports_view(final(supports)@), budgets@),
{
    let ghost a0 = assignments_view(assignments@);
    let ghost r0 = assignments@;
    let ghost s0 = supports_view(supports@);
    let n = assignments.len();
    let mut max_diff: u128 = 0;
    for i in 0..n
        invariant
            n == a0.len(),
            budgets@.len() == n,
            assignments@.len() == n,
            (assignments_view(assignments@), supports_view(supports@), max_diff) == equalize_pass(
                a0,
                budgets@,
                s0,
                tolerance,
                i as int,
            ),
            forall|k: int| i <= k < n ==> #[trigger] assignments_view(assignments@)[k] == a0[k],
            forall|who: AccountId|
                !named(r0, who) ==> #[trigger] same_support(supports_view(supports@), s0, who),
            forall|who: AccountId| #[trigger] named(assignments@, who) ==> named(r0, who),
            agrees_with(a0, s0) ==> agrees_with(assignments_view(assignments@), supports_view(supports@)),
            agrees_with(a0, s0) && within_stakes(a0, s0, budgets@) ==> within_stakes(
                assignments_view(assignments@),
                supports_view(supports@),
                budgets@,
            ),
            pass_sorted(a0, budgets@, s0, tolerance, i as int),
    {
        let ghost ab = assignments_view(assignments@);
        let ghost rb = assignments@;
        let ghost sb = supports_view(supports@);
        let voter = assignments[i].0;
        let diff = do_equalize(&voter, budgets[i], &mut assignments[i].1, supports, tolerance);
        if diff > max_diff {
            max_diff = diff;
        }
        proof {
            assert(assignments_view(assignments@) =~= ab.update(i as int, (voter, assignments@[i as int].1@)));
            assert(pass_sorted(a0, budgets@, s0, tolerance, i + 1)) by {
                assert forall|j: int|
                    #![trigger equalize_pass(a0, budgets@, s0, tolerance, j)]
                    0 <= j < i + 1 implies {
                        let p = equalize_pass(a0, budgets@, s0, tolerance, j);
                        rebalances(budgets@[j] as u128, p.0[j].1, p.1, tolerance) ==> taken_back_sorted(
                            p.0[j].0,
                            p.0[j].1,
                            p.1,
                        )
                    } by {
                    if j == i {
                        assert(equalize_pass(a0, budgets@, s0, tolerance, j).0[j] == ab[j]);
                        assert(ab[j] == (voter, rb[j].1@));
                    }
                }
            }
            assert forall|who: AccountId| #[trigger] named(assignments@, who) implies named(r0, who) by {
                let k = choose|k: int| 0 <= k < assignments@.len() && #[trigger] backs(assignments@[k].1@, who);
                if k == i {
                    assert(backs(rb[i as int].1@, who));
                } else {
                    assert(assignments@[k] == rb[k]);
                }
                assert(named(rb, who));
            }
            assert forall|who: AccountId| !named(r0, who) implies #[trigger] same_support(
                supports_view(supports@),
                s0,
                who,
            ) by {
                assert(same_support(sb, s0, who));
                if backs(rb[i as int].1@, who) {
                    assert(named(rb, who));
                }
                assert(same_support(supports_view(supports@), sb, who));
            }
            if agrees_with(a0, s0) {
                let an = assignments_view(assignments@);
                let sn = supports_view(supports@);
                assert(ab[i as int] == (voter, rb[i as int].1@));
                assert forall|k: int| #![trigger an[k]] 0 <= k < n implies distinct_candidates(an[k].1)
                    && entries_match(an[k].0, an[k].1, sn) by {
                    if k != i {
                        assert(an[k] == ab[k]);
                        assert(ab[k].0 != voter) by {
                            if k < i {
                                assert(ab[k].0 != ab[i as int].0);
                            } else {
                                assert(ab[i as int].0 != ab[k].0);
                            }
                        }
                        assert forall|j: int|
                            0 <= j < an[k].1.len() && sn.contains_key(#[trigger] an[k].1[j].0) implies entries_of(
                            sn[an[k].1[j].0].others,
                            an[k].0,
                        ) == an[k].1[j].1 by {
                            assert(sb.contains_key(an[k].1[j].0));
                            assert(entries_of(sn[an[k].1[j].0].others, ab[k].0) == entries_of(
                                sb[an[k].1[j].0].others,
                                ab[k].0,
                            ));
                        }
                    }
                }
                assert forall|x: int, y: int| 0 <= x < y < n implies (#[trigger] an[x]).0 != (#[trigger] an[y]).0 by {
                    assert(an[x].0 == ab[x].0);
                    assert(an[y].0 == ab[y].0);
                }
                if within_stakes(a0, s0, budgets@) {
                    assert(within_stakes(ab, sb, budgets@));
                    assert(distinct_candidates(ab[i as int].1) && all_supported(ab[i as int].1, sb));
                    assert forall|k: int| #![trigger an[k]] 0 <= k < n implies all_supported(an[k].1, sn)
                        && weight_sum(an[k].1) <= budgets@[k] by {
                        if k != i {
                            assert(an[k] == ab[k]);
                            assert forall|j: int| 0 <= j < an[k].1.len() implies #[trigger] sn.contains_key(an[k].1[j].0) by {
                                assert(sb.contains_key(ab[k].1[j].0));
                            }
                        } else {
                            let eo = ab[k].1;
                            let en = an[k].1;
                            assert forall|j: int| 0 <= j < en.len() implies #[trigger] sn.contains_key(en[j].0) by {
                                let c = en[j].0;
                                assert(candidates(en)[j] == c);
                                assert(candidates(en).contains(c));
                                assert(candidates(en).to_multiset().count(c) > 0) by {
                                    vstd::seq_lib::to_multiset_contains(candidates(en), c);
                                }
                                vstd::seq_lib::to_multiset_contains(candidates(eo), c);
                                let x = choose|x: int| 0 <= x < candidates(eo).len() && candidates(eo)[x] == c;
                                assert(eo[x].0 == c);
                                assert(sb.contains_key(eo[x].0));
                            }
                        }
                    }
                }
            }
        }
    }
    max_diff
}

/// The stakes `stakes` are what `stake_of` gave for the voters of the assignments, in each
/// pass.
pub open spec fn stakes_given<F: Fn(&AccountId) -> u64>(
    stake_of: F,
    assignments: Seq<(AccountId, Vec<PhragmenAssignment>)>,
    stakes: Seq<Seq<u64>>,
) -> bool {
    forall|p: int|
        0 <= p < stakes.len() ==> (#[trigger] stakes[p]).len() == assignments.len() && forall|i: int|
            0 <= i < assignments.len() ==> call_ensures(stake_of, (&assignments[i].0,), #[trigger] stakes[p][i])
}

/// Performs equalize post-processing to the output of the election algorithm. This happens in
/// rounds. The number of rounds and the maximum diff-per-round tolerance can be tuned through
/// input parameters.
///
/// No value is returned from the function and the `supports` parameter is updated.
///
/// * `assignments`: exactly the same as the output of phragmen.
/// * `supports`: mutable reference to a `SupportMap`. This parameter is updated.
/// * `tolerance`: maximum difference that can occur before an early quit happens.
/// * `iterations`: maximum number of iterations that will be processed.
/// * `stake_of`: the stake of a particular voter, as votes; asked for each voter in each pass.
///
/// Each pass is [`equalize_round`] with the stakes given in it. Supports consistent with the
/// assignments stay consistent; when every pass is given the same stakes and each voter's edges
/// start within its stake, they stay within it.
pub fn equalize<F: Fn(&AccountId) -> u64>(
    assignments: Vec<(AccountId, Vec<PhragmenAssignment>)>,
    supports: &mut SupportMap,
    tolerance: u128,
    iterations: usize,
    stake_of: F,
)
    requires
        forall|a: &AccountId| call_requires(stake_of, (a,)),
    ensures
        exists|stakes: Seq<Seq<u64>>|
            {
                &&& stakes_given(stake_of, assignments@, stakes)
                &&& passes_run(
                    assignments_view(assignments@),
                    stakes,
                    supports_view(old(supports)@),
                    tolerance,
                    iterations as nat,
                )
                &&& supports_view(final(supports)@) == equalize_run(
                    assignments_view(assignments@),
                    stakes,
                    supports_view(old(supports)@),
                    tolerance,
                ).1
                &&& agrees_with(assignments_view(assignments@), supports_view(old(supports)@)) ==> agrees_with(
                    equalize_run(assignments_view(assignments@), stakes, supports_view(old(supports)@), tolerance).0,
                    supports_view(final(supports)@),
                )
                &&& run_sorted(assignments_view(assignments@), stakes, supports_view(old(supports)@), tolerance)
                &&& same_every_pass(stakes) && agrees_with(
                    assignments_view(assignments@),
                    supports_view(old(supports)@),
                ) && within_stakes(assignments_view(assignments@), supports_view(old(supports)@), stakes[0])
                    ==> within_stakes(
                    equalize_run(assignments_view(assignments@), stakes, supports_view(old(supports)@), tolerance).0,
                    supports_view(final(supports)@),
                    stakes[0],
                )
            },
        agrees_with(assignments_view(assignments@), supports_view(old(supports)@)) ==> consistent(
            supports_view(final(supports)@),
        ),
        forall|who: AccountId|
            !named(assignments@, who) ==> #[trigger] same_support(
                supports_view(final(supports)@),
                supports_view(old(supports)@),
                who,
            ),
{
    let ghost a0 = assignments@;
    let ghost av0 = assignments_view(assignments@);
    let ghost s0 = supports_view(supports@);
    let ghost mut stakes: Seq<Seq<u64>> = Seq::empty();
    let mut assignments = assignments;
    let n = assignments.len();
    let mut done: usize = 0;
    while done < iterations
        invariant_except_break
            stakes.len() > 0 ==> equalize_run(av0, stakes, s0, tolerance).2 >= tolerance,
        invariant
            n == a0.len(),
            assignments@.len() == n,
            forall|k: int| 0 <= k < n ==> (#[trigger] assignments@[k]).0 == a0[k].0,
            forall|a: &AccountId| call_requires(stake_of, (a,)),
            done <= iterations,
            stakes.len() == done,
            stakes_given(stake_of, a0, stakes),
            kept_going(av0, stakes, s0, tolerance),
            (assignments_view(assignments@), supports_view(supports@)) == (
                equalize_run(av0, stakes, s0, tolerance).0,
                equalize_run(av0, stakes, s0, tolerance).1,
            ),
            forall|who: AccountId|
                !named(a0, who) ==> #[trigger] same_support(supports_view(supports@), s0, who),
            forall|who: AccountId| #[trigger] named(assignments@, who) ==> named(a0, who),
            agrees_with(av0, s0) ==> agrees_with(assignments_view(assignments@), supports_view(supports@)),
            same_every_pass(stakes) && agrees_with(av0, s0) && within_stakes(av0, s0, stakes[0]) ==> within_stakes(
                assignments_view(assignments@),
                supports_view(supports@),
                stakes[0],
            ),
            run_sorted(av0, stakes, s0, tolerance),
        ensures
            passes_run(av0, stakes, s0, tolerance, iterations as nat),
        decreases iterations - done,
    {
        let mut budgets: Vec<u64> = Vec::new();
        for i in 0..n
            invariant
                n == a0.len(),
                assignments@.len() == n,
                forall|k: int| 0 <= k < n ==> (#[trigger] assignments@[k]).0 == a0[k].0,
                forall|a: &AccountId| call_requires(stake_of, (a,)),
                budgets@.len() == i,
                forall|k: int|
                    0 <= k < i ==> call_ensures(stake_of, (&a0[k].0,), #[trigger] budgets@[k]),
        {
            let voter = assignments[i].0;
            budgets.push(stake_of(&voter));
        }
        let ghost prev = stakes;
        let ghost sb = supports_view(supports@);
        let ghost ab = assignments@;
        let max_diff = equalize_round(&mut assignments, &budgets, supports, tolerance);
        proof {
            stakes = stakes.push(budgets@);
            assert(stakes.drop_last() =~= prev);
            assert(run_sorted(av0, stakes, s0, tolerance)) by {
                assert forall|p: int|
                    #![trigger equalize_run(av0, stakes.take(p), s0, tolerance)]
                    0 <= p < stakes.len() implies {
                        let r = equalize_run(av0, stakes.take(p), s0, tolerance);
                        pass_sorted(r.0, stakes[p], r.1, tolerance, r.0.len() as int)
                    } by {
                    if p < prev.len() {
                        assert(stakes.take(p) =~= prev.take(p));
                        assert(stakes[p] == prev[p]);
                        assert(equalize_run(av0, prev.take(p), s0, tolerance) == equalize_run(av0, stakes.take(p), s0, tolerance));
                    } else {
                        assert(stakes.take(p) =~= prev);
                        assert(assignments_view(ab).len() == n);
                    }
                }
            }
            if same_every_pass(stakes) && agrees_with(av0, s0) && within_stakes(av0, s0, stakes[0]) {
                if prev.len() > 0 {
                    assert(prev[0] == stakes[0]);
                    assert(same_every_pass(prev)) by {
                        assert forall|p: int| 0 <= p < prev.len() implies #[trigger] prev[p] == prev[0] by {
                            assert(prev[p] == stakes[p]);
                        }
                    }
                }
                assert(budgets@ == stakes[stakes.len() - 1]);
                assert(budgets@ == stakes[0]);
                assert(within_stakes(assignments_view(ab), sb, budgets@));
            }
            assert(max_diff == equalize_run(av0, stakes, s0, tolerance).2);
            assert(stakes_given(stake_of, a0, stakes)) by {
                assert forall|p: int| 0 <= p < stakes.len() implies (#[trigger] stakes[p]).len() == a0.len()
                    && forall|i: int|
                    0 <= i < a0.len() ==> call_ensures(stake_of, (&a0[i].0,), #[trigger] stakes[p][i]) by {
                    if p < prev.len() {
                        assert(stakes[p] == prev[p]);
                    }
                }
            }
            assert forall|j: int| 1 <= j < stakes.len() implies #[trigger] equalize_run(av0, stakes.take(j), s0, tolerance).2
                >= tolerance by {
                if j < prev.len() {
                    assert(stakes.take(j) =~= prev.take(j));
                } else {
                    assert(stakes.take(j) =~= prev);
                }
            }
            assert(assignments_view(ab).len() == n);
            assert forall|k: int| 0 <= k < n implies (#[trigger] assignments@[k]).0 == a0[k].0 by {
                assert(assignments_view(assignments@)[k].0 == assignments@[k].0);
                assert(assignments_view(ab)[k].0 == ab[k].0);
                crate::equalize_spec::lemma_pass_voters(assignments_view(ab), budgets@, sb, tolerance, n as int);
            }
            assert forall|who: AccountId| !named(a0, who) implies #[trigger] same_support(
                supports_view(supports@),
                s0,
                who,
            ) by {
                assert(same_support(sb, s0, who));
                assert(same_support(supports_view(supports@), sb, who));
            }
        }
        done = done + 1;
        if max_diff < tolerance {
            break;
        }
    }
    proof {
        assert(stakes_given(stake_of, a0, stakes));
    }
}

} // verus!
