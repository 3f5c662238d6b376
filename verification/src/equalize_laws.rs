//! What the equaliser's results are, stated over its inputs.

use vstd::prelude::*;
use crate::arith::{sat_add, sat_sub};
use crate::equalize_spec::{
    backed_totals, equalize_pass, rebalances, equalize_run, equalize_voter, lemma_pass_voters, passes_run,
    seq_max, seq_min, stake_used, weight_sum,
};
use crate::types::{AccountId, PhragmenAssignment, SupportModel};

verus! {

/// The difference the `i`-th voter of a pass is found at, in the state the pass has reached.
pub open spec fn step_difference(
    assignments: Seq<(AccountId, Seq<PhragmenAssignment>)>,
    budgets: Seq<u64>,
    sup: Map<AccountId, SupportModel>,
    tolerance: u128,
    i: int,
) -> u128 {
    let p = equalize_pass(assignments, budgets, sup, tolerance, i);
    equalize_voter(p.0[i].0, budgets[i] as u128, p.0[i].1, p.1, tolerance).0
}

/// A pass reports the greatest difference of its voters: at least each of them, and one of them
/// (zero over no voter).
pub proof fn law_pass_reports_greatest_difference(
    assignments: Seq<(AccountId, Seq<PhragmenAssignment>)>,
    budgets: Seq<u64>,
    sup: Map<AccountId, SupportModel>,
    tolerance: u128,
    n: int,
)
    requires
        0 <= n,
    ensures
        forall|i: int|
            0 <= i < n ==> #[trigger] step_difference(assignments, budgets, sup, tolerance, i) <= equalize_pass(
                assignments,
                budgets,
                sup,
                tolerance,
                n,
            ).2,
        n == 0 ==> equalize_pass(assignments, budgets, sup, tolerance, n).2 == 0,
        n > 0 ==> exists|i: int|
            0 <= i < n && equalize_pass(assignments, budgets, sup, tolerance, n).2 == #[trigger] step_difference(
                assignments,
                budgets,
                sup,
                tolerance,
                i,
            ),
    decreases n,
{
    if n > 0 {
        law_pass_reports_greatest_difference(assignments, budgets, sup, tolerance, n - 1);
        let r = step_difference(assignments, budgets, sup, tolerance, n - 1);
        assert(r == step_difference(assignments, budgets, sup, tolerance, n - 1));
        if n > 1 {
            let i = choose|i: int|
                0 <= i < n - 1 && equalize_pass(assignments, budgets, sup, tolerance, n - 1).2
                    == #[trigger] step_difference(assignments, budgets, sup, tolerance, i);
            assert(0 <= i < n && step_difference(assignments, budgets, sup, tolerance, i) == equalize_pass(
                assignments,
                budgets,
                sup,
                tolerance,
                n - 1,
            ).2);
        }
    }
}

/// A run keeps the number of assignments.
proof fn lemma_run_len(
    assignments: Seq<(AccountId, Seq<PhragmenAssignment>)>,
    stakes: Seq<Seq<u64>>,
    sup: Map<AccountId, SupportModel>,
    tolerance: u128,
)
    ensures
        equalize_run(assignments, stakes, sup, tolerance).0.len() == assignments.len(),
    decreases stakes.len(),
{
    if stakes.len() > 0 {
        lemma_run_len(assignments, stakes.drop_last(), sup, tolerance);
        let p = equalize_run(assignments, stakes.drop_last(), sup, tolerance);
        lemma_pass_voters(p.0, stakes.last(), p.1, tolerance, p.0.len() as int);
    }
}

/// Equalisation stops before its last allowed pass only when every voter of the pass it ran
/// last was found below the tolerance.
pub proof fn law_equalize_stops_only_within_tolerance(
    assignments: Seq<(AccountId, Seq<PhragmenAssignment>)>,
    stakes: Seq<Seq<u64>>,
    sup: Map<AccountId, SupportModel>,
    tolerance: u128,
    iterations: nat,
)
    requires
        passes_run(assignments, stakes, sup, tolerance, iterations),
        stakes.len() < iterations,
    ensures
        stakes.len() > 0,
        forall|i: int|
            0 <= i < assignments.len() ==> #[trigger] step_difference(
                equalize_run(assignments, stakes.drop_last(), sup, tolerance).0,
                stakes.last(),
                equalize_run(assignments, stakes.drop_last(), sup, tolerance).1,
                tolerance,
                i,
            ) < tolerance,
{
    let p = equalize_run(assignments, stakes.drop_last(), sup, tolerance);
    lemma_run_len(assignments, stakes.drop_last(), sup, tolerance);
    law_pass_reports_greatest_difference(p.0, stakes.last(), p.1, tolerance, p.0.len() as int);
}

/// The `j`-th edge goes to a candidate that has a support.
pub open spec fn supported_edge(edges: Seq<PhragmenAssignment>, sup: Map<AccountId, SupportModel>, j: int) -> bool {
    0 <= j < edges.len() && sup.contains_key(edges[j].0)
}

/// The `j`-th edge carries stake to a candidate that has a support.
pub open spec fn backing_edge(edges: Seq<PhragmenAssignment>, sup: Map<AccountId, SupportModel>, j: int) -> bool {
    supported_edge(edges, sup, j) && edges[j].1 > 0
}

/// The total of the support of the `j`-th edge's candidate.
pub open spec fn edge_total(edges: Seq<PhragmenAssignment>, sup: Map<AccountId, SupportModel>, j: int) -> u128 {
    sup[edges[j].0].total
}

/// The greatest value is one of the values, and no value exceeds it.
proof fn lemma_seq_max(s: Seq<u128>)
    requires
        s.len() > 0,
    ensures
        s.contains(seq_max(s)),
        forall|k: int| 0 <= k < s.len() ==> #[trigger] s[k] <= seq_max(s),
    decreases s.len(),
{
    if s.len() > 1 {
        lemma_seq_max(s.drop_last());
        assert forall|k: int| 0 <= k < s.len() implies #[trigger] s[k] <= seq_max(s) by {
            if k < s.len() - 1 {
                assert(s[k] == s.drop_last()[k]);
            }
        }
        let m = seq_max(s.drop_last());
        if !(s.last() >= m) {
            let k = choose|k: int| 0 <= k < s.drop_last().len() && s.drop_last()[k] == m;
            assert(s[k] == m);
        }
    } else {
        assert(s[0] == seq_max(s));
    }
}

/// The least value is one of the values, and no value is below it.
proof fn lemma_seq_min(s: Seq<u128>)
    requires
        s.len() > 0,
    ensures
        s.contains(seq_min(s)),
        forall|k: int| 0 <= k < s.len() ==> seq_min(s) <= #[trigger] s[k],
    decreases s.len(),
{
    if s.len() > 1 {
        lemma_seq_min(s.drop_last());
        assert forall|k: int| 0 <= k < s.len() implies seq_min(s) <= #[trigger] s[k] by {
            if k < s.len() - 1 {
                assert(s[k] == s.drop_last()[k]);
            }
        }
        let m = seq_min(s.drop_last());
        if !(s.last() < m) {
            let k = choose|k: int| 0 <= k < s.drop_last().len() && s.drop_last()[k] == m;
            assert(s[k] == m);
        }
    } else {
        assert(s[0] == seq_min(s));
    }
}

/// The `j`-th edge is supported, and with `only_backing` also carries stake.
pub open spec fn selected_edge(
    edges: Seq<PhragmenAssignment>,
    sup: Map<AccountId, SupportModel>,
    only_backing: bool,
    j: int,
) -> bool {
    if only_backing {
        backing_edge(edges, sup, j)
    } else {
        supported_edge(edges, sup, j)
    }
}

/// `t` is the total of a selected edge's candidate.
pub open spec fn selected_total(
    edges: Seq<PhragmenAssignment>,
    sup: Map<AccountId, SupportModel>,
    only_backing: bool,
    t: u128,
) -> bool {
    exists|j: int| #[trigger] selected_edge(edges, sup, only_backing, j) && edge_total(edges, sup, j) == t
}

/// The totals gathered are those of the edges selected: the supported ones, or with
/// `only_backing` the backing ones.
proof fn lemma_backed_totals(edges: Seq<PhragmenAssignment>, sup: Map<AccountId, SupportModel>, only_backing: bool)
    ensures
        forall|k: int|
            #![trigger backed_totals(edges, sup, only_backing)[k]]
            0 <= k < backed_totals(edges, sup, only_backing).len() ==> selected_total(
                edges,
                sup,
                only_backing,
                backed_totals(edges, sup, only_backing)[k],
            ),
        forall|j: int|
            #![trigger selected_edge(edges, sup, only_backing, j)]
            selected_edge(edges, sup, only_backing, j) ==> backed_totals(edges, sup, only_backing).contains(
                edge_total(edges, sup, j),
            ),
    decreases edges.len(),
{
    if edges.len() > 0 {
        let d = edges.drop_last();
        lemma_backed_totals(d, sup, only_backing);
        let p = backed_totals(d, sup, only_backing);
        let b = backed_totals(edges, sup, only_backing);
        let last = edges.len() - 1;
        assert forall|k: int| #![trigger b[k]] 0 <= k < b.len() implies selected_total(edges, sup, only_backing, b[k]) by {
            if k < p.len() {
                assert(b[k] == p[k]);
                assert(selected_total(d, sup, only_backing, p[k]));
                let j = choose|j: int| #[trigger] selected_edge(d, sup, only_backing, j) && edge_total(d, sup, j) == p[k];
                assert(d[j] == edges[j]);
                assert(selected_edge(edges, sup, only_backing, j));
            } else {
                assert(edges.last() == edges[last]);
                assert(selected_edge(edges, sup, only_backing, last));
                assert(b[k] == edge_total(edges, sup, last));
            }
        }
        assert forall|j: int| #![trigger selected_edge(edges, sup, only_backing, j)]
            selected_edge(edges, sup, only_backing, j) implies b.contains(edge_total(edges, sup, j)) by {
            if j < last {
                assert(d[j] == edges[j]);
                assert(selected_edge(d, sup, only_backing, j));
                assert(edge_total(d, sup, j) == edge_total(edges, sup, j));
                let k = choose|k: int| 0 <= k < p.len() && p[k] == edge_total(d, sup, j);
                assert(b[k] == p[k]);
            } else {
                assert(edges.last() == edges[last]);
                assert(b[b.len() - 1] == edge_total(edges, sup, j));
            }
        }
    }
}

/// Adding up with saturation gives the sum, or `u128::MAX` when the sum does not fit.
proof fn lemma_stake_used(edges: Seq<PhragmenAssignment>)
    ensures
        stake_used(edges) == if weight_sum(edges) <= u128::MAX {
            weight_sum(edges)
        } else {
            u128::MAX as int
        },
        weight_sum(edges) >= 0,
    decreases edges.len(),
{
    if edges.len() > 0 {
        lemma_stake_used(edges.drop_last());
    }
}

/// A voter's difference: with no edge, zero; with no edge carrying stake to a supported
/// candidate, its budget; otherwise the greatest total among the candidates it backs with
/// stake, less the least total among all its candidates that have a support, plus the budget it
/// leaves unspent. A voter with stake somewhere is left as it is exactly when that difference is
/// below the tolerance.
pub proof fn law_voter_difference(
    voter: AccountId,
    budget: u128,
    edges: Seq<PhragmenAssignment>,
    sup: Map<AccountId, SupportModel>,
    tolerance: u128,
)
    ensures
        edges.len() == 0 ==> equalize_voter(voter, budget, edges, sup, tolerance).0 == 0,
        edges.len() > 0 && (forall|j: int| !#[trigger] backing_edge(edges, sup, j)) ==> equalize_voter(
            voter,
            budget,
            edges,
            sup,
            tolerance,
        ).0 == budget,
        (exists|j: int| #[trigger] backing_edge(edges, sup, j)) ==> exists|hi: int, lo: int|
            backing_edge(edges, sup, hi) && supported_edge(edges, sup, lo),
        forall|hi: int, lo: int|
            #![trigger backing_edge(edges, sup, hi), supported_edge(edges, sup, lo)]
            backing_edge(edges, sup, hi) && supported_edge(edges, sup, lo) && (forall|j: int|
                backing_edge(edges, sup, j) ==> #[trigger] edge_total(edges, sup, j) <= edge_total(edges, sup, hi))
                && (forall|j: int|
                supported_edge(edges, sup, j) ==> edge_total(edges, sup, lo) <= #[trigger] edge_total(edges, sup, j))
                ==> {
                let d = sat_add(
                    sat_sub(edge_total(edges, sup, hi), edge_total(edges, sup, lo)),
                    sat_sub(
                        budget,
                        if weight_sum(edges) <= u128::MAX {
                            weight_sum(edges) as u128
                        } else {
                            u128::MAX
                        },
                    ) as int,
                );
                &&& equalize_voter(voter, budget, edges, sup, tolerance).0 == d
                &&& d < tolerance ==> equalize_voter(voter, budget, edges, sup, tolerance).1 == edges
                    && equalize_voter(voter, budget, edges, sup, tolerance).2 == sup
                &&& d >= tolerance ==> rebalances(budget, edges, sup, tolerance)
            },
{
    lemma_backed_totals(edges, sup, true);
    lemma_backed_totals(edges, sup, false);
    lemma_stake_used(edges);
    let bt = backed_totals(edges, sup, true);
    let at = backed_totals(edges, sup, false);
    if exists|j: int| #[trigger] backing_edge(edges, sup, j) {
        let j = choose|j: int| #[trigger] backing_edge(edges, sup, j);
        assert(selected_edge(edges, sup, true, j));
        assert(supported_edge(edges, sup, j));
        assert(backing_edge(edges, sup, j) && supported_edge(edges, sup, j));
    }
    if edges.len() > 0 && (forall|j: int| !#[trigger] backing_edge(edges, sup, j)) {
        if bt.len() > 0 {
            let k = 0int;
            assert(selected_total(edges, sup, true, bt[k]));
            let j = choose|j: int| #[trigger] selected_edge(edges, sup, true, j) && edge_total(edges, sup, j) == bt[k];
            assert(backing_edge(edges, sup, j));
        }
    }
    assert forall|hi: int, lo: int|
        #![trigger backing_edge(edges, sup, hi), supported_edge(edges, sup, lo)]
        backing_edge(edges, sup, hi) && supported_edge(edges, sup, lo) && (forall|j: int|
            backing_edge(edges, sup, j) ==> #[trigger] edge_total(edges, sup, j) <= edge_total(edges, sup, hi))
            && (forall|j: int|
            supported_edge(edges, sup, j) ==> edge_total(edges, sup, lo) <= #[trigger] edge_total(edges, sup, j))
            implies {
            let d = sat_add(
                sat_sub(edge_total(edges, sup, hi), edge_total(edges, sup, lo)),
                sat_sub(
                    budget,
                    if weight_sum(edges) <= u128::MAX {
                        weight_sum(edges) as u128
                    } else {
                        u128::MAX
                    },
                ) as int,
            );
            &&& equalize_voter(voter, budget, edges, sup, tolerance).0 == d
            &&& d < tolerance ==> equalize_voter(voter, budget, edges, sup, tolerance).1 == edges
                && equalize_voter(voter, budget, edges, sup, tolerance).2 == sup
            &&& d >= tolerance ==> rebalances(budget, edges, sup, tolerance)
        } by {
        assert(selected_edge(edges, sup, true, hi));
        assert(selected_edge(edges, sup, false, lo));
        lemma_seq_max(bt);
        lemma_seq_min(at);
        let km = choose|k: int| 0 <= k < bt.len() && bt[k] == seq_max(bt);
        assert(selected_total(edges, sup, true, bt[km]));
        let jm = choose|j: int| #[trigger] selected_edge(edges, sup, true, j) && edge_total(edges, sup, j) == bt[km];
        let kh = choose|k: int| 0 <= k < bt.len() && bt[k] == edge_total(edges, sup, hi);
        assert(bt[kh] <= seq_max(bt));
        assert(edge_total(edges, sup, jm) <= edge_total(edges, sup, hi));
        assert(seq_max(bt) == edge_total(edges, sup, hi));
        let kn = choose|k: int| 0 <= k < at.len() && at[k] == seq_min(at);
        assert(selected_total(edges, sup, false, at[kn]));
        let jn = choose|j: int| #[trigger] selected_edge(edges, sup, false, j) && edge_total(edges, sup, j) == at[kn];
        let kl = choose|k: int| 0 <= k < at.len() && at[k] == edge_total(edges, sup, lo);
        assert(seq_min(at) <= at[kl]);
        assert(edge_total(edges, sup, lo) <= edge_total(edges, sup, jn));
        assert(seq_min(at) == edge_total(edges, sup, lo));
        assert(bt.len() > 0);
    }
}

} // verus!
