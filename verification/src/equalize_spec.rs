//! The equaliser as mathematics.

use vstd::prelude::*;
use crate::arith::{sat_add, sat_mul, sat_sub};
use crate::types::{AccountId, PhragmenAssignment, Support, SupportModel};

verus! {

/// The map from candidates to their supports.
pub type SupportMap = std::collections::BTreeMap<AccountId, Support>;

/// The models of the supports.
pub open spec fn supports_view(m: Map<AccountId, Support>) -> Map<AccountId, SupportModel> {
    m.map_values(|s: Support| s@)
}

/// The permutation of `v` that the standard library's unstable sort by the first component
/// yields.
pub uninterp spec fn sorted_by_first(v: Seq<(u128, PhragmenAssignment)>) -> Seq<(u128, PhragmenAssignment)>;

/// The stake a voter has spent on its edges, added up with saturation.
pub open spec fn stake_used(edges: Seq<PhragmenAssignment>) -> u128
    decreases edges.len(),
{
    if edges.len() == 0 {
        0
    } else {
        sat_add(stake_used(edges.drop_last()), edges.last().1 as int)
    }
}

/// The totals of the supports of the edges' candidates, in order; with `only_backing`, only of
/// the edges that carry stake.
pub open spec fn backed_totals(
    edges: Seq<PhragmenAssignment>,
    sup: Map<AccountId, SupportModel>,
    only_backing: bool,
) -> Seq<u128>
    decreases edges.len(),
{
    if edges.len() == 0 {
        seq![]
    } else {
        let p = backed_totals(edges.drop_last(), sup, only_backing);
        let e = edges.last();
        if sup.contains_key(e.0) && (!only_backing || e.1 > 0) {
            p.push(sup[e.0].total)
        } else {
            p
        }
    }
}

/// The greatest value.
pub open spec fn seq_max(s: Seq<u128>) -> u128
    decreases s.len(),
{
    if s.len() == 0 {
        0
    } else {
        let m = seq_max(s.drop_last());
        if s.len() == 1 || s.last() >= m {
            s.last()
        } else {
            m
        }
    }
}

/// The least value.
pub open spec fn seq_min(s: Seq<u128>) -> u128
    decreases s.len(),
{
    if s.len() == 0 {
        0
    } else {
        let m = seq_min(s.drop_last());
        if s.len() == 1 || s.last() < m {
            s.last()
        } else {
            m
        }
    }
}

/// The support from voters other than `voter`.
pub open spec fn without_voter(others: Seq<PhragmenAssignment>, voter: AccountId) -> Seq<PhragmenAssignment>
    decreases others.len(),
{
    if others.len() == 0 {
        seq![]
    } else {
        let p = without_voter(others.drop_last(), voter);
        if others.last().0 != voter {
            p.push(others.last())
        } else {
            p
        }
    }
}

/// Takes back the voter's stake from the supports of its edges, in order, and clears the edges.
pub open spec fn unassign(
    voter: AccountId,
    edges: Seq<PhragmenAssignment>,
    sup: Map<AccountId, SupportModel>,
) -> (Seq<PhragmenAssignment>, Map<AccountId, SupportModel>)
    decreases edges.len(),
{
    if edges.len() == 0 {
        (seq![], sup)
    } else {
        let p = unassign(voter, edges.drop_last(), sup);
        let e = edges.last();
        let m = if p.1.contains_key(e.0) {
            let s = p.1[e.0];
            p.1.insert(
                e.0,
                SupportModel {
                    own: s.own,
                    total: sat_sub(s.total, e.1),
                    others: without_voter(s.others, voter),
                },
            )
        } else {
            p.1
        };
        (p.0.push((e.0, 0)), m)
    }
}

/// The total of the support of `who`, zero without one.
pub open spec fn support_total(sup: Map<AccountId, SupportModel>, who: AccountId) -> u128 {
    if sup.contains_key(who) {
        sup[who].total
    } else {
        0
    }
}

/// Each edge beside the total of its candidate's support (zero without one).
pub open spec fn keyed(edges: Seq<PhragmenAssignment>, sup: Map<AccountId, SupportModel>) -> Seq<
    (u128, PhragmenAssignment),
> {
    Seq::new(edges.len(), |i: int| (support_total(sup, edges[i].0), edges[i]))
}

/// The candidates of the edges, in order.
pub open spec fn candidates(edges: Seq<PhragmenAssignment>) -> Seq<AccountId> {
    edges.map_values(|e: PhragmenAssignment| e.0)
}

/// `w` holds the items of `v`, each as often, in non-descending order of the first component.
pub open spec fn sorted_from(v: Seq<(u128, PhragmenAssignment)>, w: Seq<(u128, PhragmenAssignment)>) -> bool {
    &&& w.len() == v.len()
    &&& w.to_multiset() == v.to_multiset()
    &&& forall|i: int, j: int| 0 <= i <= j < w.len() ==> w[i].0 <= w[j].0
}

/// The sort of the voter's taken-back edges holds the keyed edges in non-descending order of
/// their candidates' support.
pub open spec fn taken_back_sorted(
    voter: AccountId,
    edges: Seq<PhragmenAssignment>,
    sup: Map<AccountId, SupportModel>,
) -> bool {
    let un = unassign(voter, edges, sup);
    sorted_from(keyed(un.0, un.1), sorted_taken_back(voter, edges, sup))
}

/// The new edges come in non-descending order of their candidates' support once the voter's
/// stake is taken back from it.
pub open spec fn ordered_by_taken_back(
    voter: AccountId,
    edges: Seq<PhragmenAssignment>,
    sup: Map<AccountId, SupportModel>,
    new_edges: Seq<PhragmenAssignment>,
) -> bool {
    let taken = unassign(voter, edges, sup).1;
    forall|i: int, j: int|
        0 <= i <= j < new_edges.len() ==> support_total(taken, new_edges[i].0) <= support_total(
            taken,
            new_edges[j].0,
        )
}

/// The edges of a keyed list.
pub open spec fn unkeyed(v: Seq<(u128, PhragmenAssignment)>) -> Seq<PhragmenAssignment> {
    v.map_values(|x: (u128, PhragmenAssignment)| x.1)
}

/// Walks the first `n` edges, least supported first: a candidate is taken in while lifting it
/// and all taken before it to its support costs no more than the budget; the walk stops at the
/// first that would cost more, leaving the last index at the one before it. Gives the support
/// taken in, the last index, and whether the walk stopped.
pub open spec fn cumulate(
    edges: Seq<PhragmenAssignment>,
    sup: Map<AccountId, SupportModel>,
    budget: u128,
    n: int,
) -> (u128, int, bool)
    decreases n,
{
    if n <= 0 {
        (0, edges.len() - 1, false)
    } else {
        let p = cumulate(edges, sup, budget, n - 1);
        let idx = n - 1;
        let e = edges[idx];
        if p.2 {
            p
        } else if sup.contains_key(e.0) {
            let stake = sup[e.0].total;
            let stake_sub = sat_sub(sat_mul(stake, idx as u128), p.0);
            if stake_sub > budget {
                (p.0, if idx >= 1 {
                    idx - 1
                } else {
                    0
                }, true)
            } else {
                (sat_add(p.0, stake as int), p.1, false)
            }
        } else {
            p
        }
    }
}

/// Gives each of the first `n` edges what its candidate lacks of `share` plus `last_stake`, and
/// records it in the candidate's support.
pub open spec fn redistribute(
    voter: AccountId,
    edges: Seq<PhragmenAssignment>,
    sup: Map<AccountId, SupportModel>,
    share: u128,
    last_stake: u128,
    n: int,
) -> (Seq<PhragmenAssignment>, Map<AccountId, SupportModel>)
    decreases n,
{
    if n <= 0 {
        (edges, sup)
    } else {
        let p = redistribute(voter, edges, sup, share, last_stake, n - 1);
        let e = edges[n - 1];
        if p.1.contains_key(e.0) {
            let s = p.1[e.0];
            let v = sat_sub(sat_add(share, last_stake as int), s.total);
            (
                p.0.update(n - 1, (e.0, v)),
                p.1.insert(
                    e.0,
                    SupportModel {
                        own: s.own,
                        total: sat_add(s.total, v as int),
                        others: s.others.push((voter, v)),
                    },
                ),
            )
        } else {
            p
        }
    }
}

/// How far a voter's support is from even: the spread between the most supported candidate it
/// backs and the least supported one it votes for, plus its unspent budget; without any backed
/// candidate, its whole budget.
pub open spec fn difference_of(
    budget: u128,
    edges: Seq<PhragmenAssignment>,
    sup: Map<AccountId, SupportModel>,
) -> u128 {
    let backing = backed_totals(edges, sup, true);
    if backing.len() > 0 {
        sat_add(
            sat_sub(seq_max(backing), seq_min(backed_totals(edges, sup, false))),
            sat_sub(budget, stake_used(edges)) as int,
        )
    } else {
        budget
    }
}

/// The voter's edges, taken back, beside the support of their candidates, as the sort orders
/// them.
pub open spec fn sorted_taken_back(
    voter: AccountId,
    edges: Seq<PhragmenAssignment>,
    sup: Map<AccountId, SupportModel>,
) -> Seq<(u128, PhragmenAssignment)> {
    let un = unassign(voter, edges, sup);
    sorted_by_first(keyed(un.0, un.1))
}

/// Spreads the budget anew: the least supported candidates that it can lift to one level are
/// lifted to it, the others get nothing.
pub open spec fn rebalance(
    voter: AccountId,
    budget: u128,
    edges: Seq<PhragmenAssignment>,
    sup: Map<AccountId, SupportModel>,
) -> (Seq<PhragmenAssignment>, Map<AccountId, SupportModel>) {
    let un = unassign(voter, edges, sup);
    let sk = sorted_taken_back(voter, edges, sup);
    let sorted = unkeyed(sk);
    let cu = cumulate(sorted, un.1, budget, sorted.len() as int);
    let last_stake = sorted[cu.1].1;
    let split = cu.1 + 1;
    let excess = sat_sub(sat_add(budget, cu.0 as int), sat_mul(last_stake, split as u128));
    redistribute(voter, sorted, un.1, excess / (split as u128), last_stake, split)
}

/// Whether the voter is spread anew: it has edges, and does not back any candidate or is
/// `tolerance` or more from even.
pub open spec fn rebalances(
    budget: u128,
    edges: Seq<PhragmenAssignment>,
    sup: Map<AccountId, SupportModel>,
    tolerance: u128,
) -> bool {
    &&& edges.len() > 0
    &&& !(backed_totals(edges, sup, true).len() > 0 && difference_of(budget, edges, sup) < tolerance)
}

/// One voter equalised: the difference, the voter's edges and the supports after.
pub open spec fn equalize_voter(
    voter: AccountId,
    budget: u128,
    edges: Seq<PhragmenAssignment>,
    sup: Map<AccountId, SupportModel>,
    tolerance: u128,
) -> (u128, Seq<PhragmenAssignment>, Map<AccountId, SupportModel>) {
    if edges.len() == 0 {
        (0, edges, sup)
    } else if !rebalances(budget, edges, sup, tolerance) {
        (difference_of(budget, edges, sup), edges, sup)
    } else {
        let rb = rebalance(voter, budget, edges, sup);
        (difference_of(budget, edges, sup), rb.0, rb.1)
    }
}

/// One pass over the first `n` voters: the assignments and supports after, and the greatest
/// difference met.
pub open spec fn equalize_pass(
    assignments: Seq<(AccountId, Seq<PhragmenAssignment>)>,
    budgets: Seq<u64>,
    sup: Map<AccountId, SupportModel>,
    tolerance: u128,
    n: int,
) -> (Seq<(AccountId, Seq<PhragmenAssignment>)>, Map<AccountId, SupportModel>, u128)
    decreases n,
{
    if n <= 0 {
        (assignments, sup, 0)
    } else {
        let p = equalize_pass(assignments, budgets, sup, tolerance, n - 1);
        let a = p.0[n - 1];
        let r = equalize_voter(a.0, budgets[n - 1] as u128, a.1, p.1, tolerance);
        (p.0.update(n - 1, (a.0, r.1)), r.2, if r.0 > p.2 {
            r.0
        } else {
            p.2
        })
    }
}

/// Passes over all voters, one for each list of stakes in `stakes`: the assignments and
/// supports after the last, and the greatest difference met in it.
pub open spec fn equalize_run(
    assignments: Seq<(AccountId, Seq<PhragmenAssignment>)>,
    stakes: Seq<Seq<u64>>,
    sup: Map<AccountId, SupportModel>,
    tolerance: u128,
) -> (Seq<(AccountId, Seq<PhragmenAssignment>)>, Map<AccountId, SupportModel>, u128)
    decreases stakes.len(),
{
    if stakes.len() == 0 {
        (assignments, sup, 0)
    } else {
        let p = equalize_run(assignments, stakes.drop_last(), sup, tolerance);
        equalize_pass(p.0, stakes.last(), p.1, tolerance, p.0.len() as int)
    }
}

/// Every pass but the last met a difference of `tolerance` or more, so that the next one ran.
pub open spec fn kept_going(
    assignments: Seq<(AccountId, Seq<PhragmenAssignment>)>,
    stakes: Seq<Seq<u64>>,
    sup: Map<AccountId, SupportModel>,
    tolerance: u128,
) -> bool {
    forall|j: int|
        1 <= j < stakes.len() ==> #[trigger] equalize_run(assignments, stakes.take(j), sup, tolerance).2
            >= tolerance
}

/// The passes `stakes` are those that equalisation with at most `iterations` passes runs: as
/// many as allowed, unless one before met no difference of `tolerance` or more.
pub open spec fn passes_run(
    assignments: Seq<(AccountId, Seq<PhragmenAssignment>)>,
    stakes: Seq<Seq<u64>>,
    sup: Map<AccountId, SupportModel>,
    tolerance: u128,
    iterations: nat,
) -> bool {
    &&& stakes.len() <= iterations
    &&& kept_going(assignments, stakes, sup, tolerance)
    &&& stakes.len() < iterations ==> stakes.len() > 0 && equalize_run(
        assignments,
        stakes,
        sup,
        tolerance,
    ).2 < tolerance
}

} // verus!

verus! {

/// Some edge goes to `who`.
pub open spec fn backs(edges: Seq<PhragmenAssignment>, who: AccountId) -> bool {
    exists|j: int| 0 <= j < edges.len() && (#[trigger] edges[j]).0 == who
}

/// The two maps agree on `who`.
pub open spec fn same_support(
    m1: Map<AccountId, SupportModel>,
    m2: Map<AccountId, SupportModel>,
    who: AccountId,
) -> bool {
    &&& m1.contains_key(who) <==> m2.contains_key(who)
    &&& m1.contains_key(who) ==> m1[who] == m2[who]
}

/// Taking back keeps each edge's candidate, and the supports of other candidates.
pub proof fn lemma_unassign_frame(
    voter: AccountId,
    edges: Seq<PhragmenAssignment>,
    sup: Map<AccountId, SupportModel>,
)
    ensures
        unassign(voter, edges, sup).0.len() == edges.len(),
        forall|j: int| 0 <= j < edges.len() ==> (#[trigger] unassign(voter, edges, sup).0[j]).0 == edges[j].0,
        forall|who: AccountId| !backs(edges, who) ==> #[trigger] same_support(unassign(voter, edges, sup).1, sup, who),
    decreases edges.len(),
{
    if edges.len() > 0 {
        let d = edges.drop_last();
        lemma_unassign_frame(voter, d, sup);
        let p = unassign(voter, d, sup);
        let r = unassign(voter, edges, sup);
        assert forall|j: int| 0 <= j < edges.len() implies (#[trigger] r.0[j]).0 == edges[j].0 by {
            if j < d.len() {
                assert(r.0[j] == p.0[j]);
                assert(d[j] == edges[j]);
            }
        }
        assert forall|who: AccountId| !backs(edges, who) implies #[trigger] same_support(r.1, sup, who) by {
            if backs(d, who) {
                let j = choose|j: int| 0 <= j < d.len() && (#[trigger] d[j]).0 == who;
                assert(edges[j] == d[j]);
            }
            assert(same_support(p.1, sup, who));
            assert(edges[edges.len() - 1] == edges.last());
        }
    }
}

/// Handing out keeps the supports of candidates none of the first `n` edges go to.
pub proof fn lemma_redistribute_frame(
    voter: AccountId,
    edges: Seq<PhragmenAssignment>,
    sup: Map<AccountId, SupportModel>,
    share: u128,
    last_stake: u128,
    n: int,
)
    requires
        n <= edges.len(),
    ensures
        redistribute(voter, edges, sup, share, last_stake, n).0.len() == edges.len(),
        forall|j: int|
            0 <= j < edges.len() ==> (#[trigger] redistribute(voter, edges, sup, share, last_stake, n).0[j]).0
                == edges[j].0,
        forall|who: AccountId|
            !backs(edges, who) ==> #[trigger] same_support(
                redistribute(voter, edges, sup, share, last_stake, n).1,
                sup,
                who,
            ),
    decreases n,
{
    if n > 0 {
        lemma_redistribute_frame(voter, edges, sup, share, last_stake, n - 1);
        let p = redistribute(voter, edges, sup, share, last_stake, n - 1);
        let r = redistribute(voter, edges, sup, share, last_stake, n);
        assert forall|who: AccountId| !backs(edges, who) implies #[trigger] same_support(r.1, sup, who) by {
            assert(same_support(p.1, sup, who));
            assert(edges[n - 1].0 != who);
        }
        assert forall|j: int| 0 <= j < edges.len() implies (#[trigger] r.0[j]).0 == edges[j].0 by {
            assert(p.0[j].0 == edges[j].0);
        }
    }
}

} // verus!

verus! {

/// Some assignment has an edge to `who`.
pub open spec fn named(a: Seq<(AccountId, Vec<PhragmenAssignment>)>, who: AccountId) -> bool {
    exists|i: int| 0 <= i < a.len() && #[trigger] backs(a[i].1@, who)
}

} // verus!

verus! {

/// A pass keeps the voters of the assignments, and their number.
pub proof fn lemma_pass_voters(
    assignments: Seq<(AccountId, Seq<PhragmenAssignment>)>,
    budgets: Seq<u64>,
    sup: Map<AccountId, SupportModel>,
    tolerance: u128,
    n: int,
)
    requires
        n <= assignments.len(),
    ensures
        equalize_pass(assignments, budgets, sup, tolerance, n).0.len() == assignments.len(),
        forall|k: int|
            0 <= k < assignments.len() ==> (#[trigger] equalize_pass(assignments, budgets, sup, tolerance, n).0[k]).0
                == assignments[k].0,
    decreases n,
{
    if n > 0 {
        lemma_pass_voters(assignments, budgets, sup, tolerance, n - 1);
    }
}

} // verus!

verus! {

/// The stake the last of the edges to `who` gives it; zero without one.
pub open spec fn weight_of(edges: Seq<PhragmenAssignment>, who: AccountId) -> u128
    decreases edges.len(),
{
    if edges.len() == 0 {
        0
    } else if edges.last().0 == who {
        edges.last().1
    } else {
        weight_of(edges.drop_last(), who)
    }
}

/// No two edges go to the same candidate.
pub open spec fn distinct_candidates(edges: Seq<PhragmenAssignment>) -> bool {
    forall|i: int, j: int| 0 <= i < j < edges.len() ==> edges[i].0 != edges[j].0
}

/// The stake on the edges, added up.
pub open spec fn weight_sum(edges: Seq<PhragmenAssignment>) -> int
    decreases edges.len(),
{
    if edges.len() == 0 {
        0
    } else {
        weight_sum(edges.drop_last()) + edges.last().1
    }
}

/// The first `k` keys, added up.
pub open spec fn prefix_keys(v: Seq<(u128, PhragmenAssignment)>, k: int) -> int
    decreases k,
{
    if k <= 0 {
        0
    } else {
        prefix_keys(v, k - 1) + v[k - 1].0
    }
}

/// What lifting the `i` items before the `i`-th to its key costs.
pub open spec fn lift_cost(v: Seq<(u128, PhragmenAssignment)>, i: int) -> int {
    v[i].0 * i - prefix_keys(v, i)
}

/// The supports of the edges' candidates, added up.
pub open spec fn totals_sum(edges: Seq<PhragmenAssignment>, sup: Map<AccountId, SupportModel>) -> int
    decreases edges.len(),
{
    if edges.len() == 0 {
        0
    } else {
        totals_sum(edges.drop_last(), sup) + sup[edges.last().0].total
    }
}

/// The voter is spread anew, its edges go to distinct candidates that all have a support, and
/// nothing the spreading multiplies or adds up reaches `u128::MAX`: no support times the number
/// of edges, nor the budget plus all the supports.
pub open spec fn fills_exactly(
    budget: u128,
    edges: Seq<PhragmenAssignment>,
    sup: Map<AccountId, SupportModel>,
    tolerance: u128,
) -> bool {
    &&& rebalances(budget, edges, sup, tolerance)
    &&& edges.len() <= usize::MAX
    &&& distinct_candidates(edges)
    &&& forall|j: int| 0 <= j < edges.len() ==> #[trigger] sup.contains_key(edges[j].0)
    &&& forall|j: int| 0 <= j < edges.len() ==> edges.len() * (#[trigger] sup[edges[j].0]).total <= u128::MAX
    &&& budget + totals_sum(edges, sup) <= u128::MAX
}

/// The budget is spread by filling: in the order of the sort, the first `k` candidates, each of
/// which can be lifted to the support of those before it within the budget, are lifted to one
/// level, the budget plus their supports split `k` ways; the next one could not be lifted, and it
/// and all after it get nothing and keep their supports, each at least the level. The stake
/// handed out is the budget but for what the split leaves over.
pub open spec fn water_filled(
    voter: AccountId,
    budget: u128,
    edges: Seq<PhragmenAssignment>,
    sup: Map<AccountId, SupportModel>,
    k: int,
    new_edges: Seq<PhragmenAssignment>,
    new_sup: Map<AccountId, SupportModel>,
) -> bool {
    let sk = sorted_taken_back(voter, edges, sup);
    let n = edges.len() as int;
    let level = (budget + prefix_keys(sk, k)) / k;
    &&& 1 <= k <= n
    &&& level <= u128::MAX
    &&& sk.len() == n
    &&& new_edges.len() == n
    &&& forall|i: int|
        0 <= i < n ==> sup.contains_key((#[trigger] sk[i]).1.0) && sk[i].1.1 == 0 && sk[i].0 == sat_sub(
            sup[sk[i].1.0].total,
            weight_of(edges, sk[i].1.0),
        )
    &&& forall|i: int| 0 <= i < k ==> #[trigger] lift_cost(sk, i) <= budget
    &&& k < n ==> lift_cost(sk, k) > budget
    &&& (k == n <==> sk[n - 1].0 * n <= budget + prefix_keys(sk, n))
    &&& forall|i: int|
        #![trigger sk[i]]
        0 <= i < k ==> {
            let c = sk[i].1.0;
            &&& sk[i].0 <= level
            &&& new_edges[i] == (c, (level - sk[i].0) as u128)
            &&& new_sup.contains_key(c)
            &&& new_sup[c] == SupportModel {
                own: sup[c].own,
                total: level as u128,
                others: without_voter(sup[c].others, voter).push((voter, (level - sk[i].0) as u128)),
            }
        }
    &&& forall|i: int|
        #![trigger sk[i]]
        k <= i < n ==> {
            let c = sk[i].1.0;
            &&& sk[i].0 >= level
            &&& new_edges[i] == (c, 0u128)
            &&& new_sup.contains_key(c)
            &&& new_sup[c] == SupportModel {
                own: sup[c].own,
                total: sk[i].0,
                others: without_voter(sup[c].others, voter),
            }
        }
    &&& weight_sum(new_edges) == budget - (budget + prefix_keys(sk, k)) % k
}

} // verus!

verus! {

/// The stake in the entries of `who`, added up.
pub open spec fn entries_of(others: Seq<PhragmenAssignment>, who: AccountId) -> int
    decreases others.len(),
{
    if others.len() == 0 {
        0
    } else {
        entries_of(others.drop_last(), who) + if others.last().0 == who {
            others.last().1 as int
        } else {
            0
        }
    }
}

/// Every support's total is its own stake plus the stake of its entries.
pub open spec fn consistent(sup: Map<AccountId, SupportModel>) -> bool {
    forall|c: AccountId|
        sup.contains_key(c) ==> #[trigger] sup[c].total == sup[c].own + weight_sum(sup[c].others)
}

/// The voter's entries in the support of each candidate it has an edge to add up to the stake
/// of that edge.
pub open spec fn entries_match(
    voter: AccountId,
    edges: Seq<PhragmenAssignment>,
    sup: Map<AccountId, SupportModel>,
) -> bool {
    forall|j: int|
        0 <= j < edges.len() && sup.contains_key(#[trigger] edges[j].0) ==> entries_of(
            sup[edges[j].0].others,
            voter,
        ) == edges[j].1
}

/// The entries of voters other than `voter` are the same in both maps.
pub open spec fn others_kept(
    voter: AccountId,
    m1: Map<AccountId, SupportModel>,
    m2: Map<AccountId, SupportModel>,
) -> bool {
    &&& forall|c: AccountId| #[trigger] m1.contains_key(c) ==> m2.contains_key(c)
    &&& forall|c: AccountId, u: AccountId|
        #![trigger entries_of(m1[c].others, u)]
        u != voter && m1.contains_key(c) ==> entries_of(m1[c].others, u) == entries_of(m2[c].others, u)
}

} // verus!

verus! {

/// The supports are consistent with the assignments: each total is its own stake plus its
/// entries, no voter comes twice, each voter's edges go to distinct candidates, and its entries
/// in each of their supports add up to the stake of its edge.
pub open spec fn agrees_with(
    assignments: Seq<(AccountId, Seq<PhragmenAssignment>)>,
    sup: Map<AccountId, SupportModel>,
) -> bool {
    &&& consistent(sup)
    &&& forall|i: int, j: int|
        0 <= i < j < assignments.len() ==> (#[trigger] assignments[i]).0 != (#[trigger] assignments[j]).0
    &&& forall|i: int|
        #![trigger assignments[i]]
        0 <= i < assignments.len() ==> distinct_candidates(assignments[i].1) && entries_match(
            assignments[i].0,
            assignments[i].1,
            sup,
        )
}

} // verus!

verus! {

/// Each new edge's candidate with a support has it taken back and given anew: its total less
/// the stake of the voter's old edge to it, plus the new edge's stake; its entries without the
/// voter's, and the new edge's appended, always when it carries stake.
pub open spec fn reassigned(
    voter: AccountId,
    edges: Seq<PhragmenAssignment>,
    sup: Map<AccountId, SupportModel>,
    new_edges: Seq<PhragmenAssignment>,
    new_sup: Map<AccountId, SupportModel>,
) -> bool {
    forall|i: int|
        #![trigger new_edges[i]]
        0 <= i < new_edges.len() && sup.contains_key(new_edges[i].0) ==> {
            let c = new_edges[i].0;
            let w = new_edges[i].1;
            let base = without_voter(sup[c].others, voter);
            &&& new_sup.contains_key(c)
            &&& new_sup[c].own == sup[c].own
            &&& new_sup[c].total == sat_add(sat_sub(sup[c].total, weight_of(edges, c)), w as int)
            &&& (new_sup[c].others == base.push((voter, w)) || (w == 0 && new_sup[c].others == base))
        }
}

} // verus!

verus! {

/// Every edge goes to a candidate that has a support.
pub open spec fn all_supported(edges: Seq<PhragmenAssignment>, sup: Map<AccountId, SupportModel>) -> bool {
    forall|j: int| 0 <= j < edges.len() ==> #[trigger] sup.contains_key(edges[j].0)
}

} // verus!

verus! {

/// Every voter's edges go to candidates that have a support, and carry no more than its stake
/// in `stakes`.
pub open spec fn within_stakes(
    assignments: Seq<(AccountId, Seq<PhragmenAssignment>)>,
    sup: Map<AccountId, SupportModel>,
    stakes: Seq<u64>,
) -> bool {
    forall|i: int|
        #![trigger assignments[i]]
        0 <= i < assignments.len() ==> all_supported(assignments[i].1, sup) && weight_sum(assignments[i].1)
            <= stakes[i]
}

} // verus!

verus! {

/// Every pass was given the same stakes.
pub open spec fn same_every_pass(stakes: Seq<Seq<u64>>) -> bool {
    forall|p: int| 0 <= p < stakes.len() ==> #[trigger] stakes[p] == stakes[0]
}

} // verus!

verus! {

/// In each of the first `n` steps of a pass, a voter spread anew had its taken-back edges
/// sorted into non-descending order of support, each kept as often.
pub open spec fn pass_sorted(
    assignments: Seq<(AccountId, Seq<PhragmenAssignment>)>,
    budgets: Seq<u64>,
    sup: Map<AccountId, SupportModel>,
    tolerance: u128,
    n: int,
) -> bool {
    forall|i: int|
        #![trigger equalize_pass(assignments, budgets, sup, tolerance, i)]
        0 <= i < n ==> {
            let p = equalize_pass(assignments, budgets, sup, tolerance, i);
            rebalances(budgets[i] as u128, p.0[i].1, p.1, tolerance) ==> taken_back_sorted(
                p.0[i].0,
                p.0[i].1,
                p.1,
            )
        }
}

/// The same of every pass of a run.
pub open spec fn run_sorted(
    assignments: Seq<(AccountId, Seq<PhragmenAssignment>)>,
    stakes: Seq<Seq<u64>>,
    sup: Map<AccountId, SupportModel>,
    tolerance: u128,
) -> bool {
    forall|p: int|
        #![trigger equalize_run(assignments, stakes.take(p), sup, tolerance)]
        0 <= p < stakes.len() ==> {
            let r = equalize_run(assignments, stakes.take(p), sup, tolerance);
            pass_sorted(r.0, stakes[p], r.1, tolerance, r.0.len() as int)
        }
}

} // verus!
