//! What spreading a voter's budget anew does: the least supported candidates are lifted to one
//! level, the others keep what they have.

use vstd::prelude::*;
use crate::arith::{sat_add, sat_mul, sat_sub};
use crate::equalize_spec::{
    backs, candidates, cumulate, distinct_candidates, fills_exactly, rebalance, totals_sum,
    water_filled, keyed, lemma_unassign_frame, lift_cost, prefix_keys,
    redistribute, same_support, sorted_from, sorted_taken_back, support_total, taken_back_sorted,
    unassign, unkeyed, weight_of,
    weight_sum, without_voter,
};
use crate::types::{AccountId, PhragmenAssignment, SupportModel};

verus! {

/// Two sequences with the same items, each as often, keep that when every item is mapped.
pub proof fn lemma_map_multiset<A, B>(l1: Seq<A>, l2: Seq<A>, f: spec_fn(A) -> B)
    requires
        l1.to_multiset() == l2.to_multiset(),
    ensures
        l1.map_values(f).to_multiset() == l2.map_values(f).to_multiset(),
    decreases l1.len(),
{
    broadcast use vstd::seq_lib::group_to_multiset_ensures;

    if l1.len() == 0 {
        vstd::seq_lib::to_multiset_len(l1);
        vstd::seq_lib::to_multiset_len(l2);
        assert(l2.len() == 0);
        assert(l1.map_values(f) =~= l2.map_values(f));
    } else {
        let a = l1.last();
        assert(l1.to_multiset().count(a) > 0);
        assert(l2.contains(a));
        let i = l2.index_of(a);
        vstd::seq_lib::to_multiset_remove(l1, l1.len() - 1);
        assert(l1.remove(l1.len() - 1) =~= l1.drop_last());
        vstd::seq_lib::to_multiset_remove(l2, i);
        lemma_map_multiset(l1.drop_last(), l2.remove(i), f);
        assert(l1.map_values(f) =~= l1.drop_last().map_values(f).push(f(a)));
        assert(l2.remove(i).map_values(f) =~= l2.map_values(f).remove(i));
        vstd::seq_lib::to_multiset_remove(l2.map_values(f), i);
        let m = l2.map_values(f).to_multiset();
        assert(m.count(f(a)) > 0);
        assert(m.remove(f(a)).insert(f(a)) =~= m);
    }
}

/// Every item of a sort of keyed edges carries the total of its candidate's support.
pub proof fn lemma_sorted_keys(
    edges: Seq<PhragmenAssignment>,
    sup: Map<AccountId, SupportModel>,
    w: Seq<(u128, PhragmenAssignment)>,
)
    requires
        sorted_from(keyed(edges, sup), w),
    ensures
        forall|i: int| 0 <= i < w.len() ==> (#[trigger] w[i]).0 == support_total(sup, w[i].1.0),
        forall|i: int| 0 <= i < w.len() ==> edges.contains(#[trigger] w[i].1),
{
    broadcast use vstd::seq_lib::group_to_multiset_ensures;

    let v = keyed(edges, sup);
    assert forall|i: int| #![trigger w[i]] 0 <= i < w.len() implies w[i].0 == support_total(sup, w[i].1.0)
        && edges.contains(w[i].1) by {
        assert(w.contains(w[i]));
        assert(w.to_multiset().count(w[i]) > 0);
        assert(v.contains(w[i]));
        let j = choose|j: int| 0 <= j < v.len() && v[j] == w[i];
        assert(w[i].1 == edges[j]);
    }
}

/// With the edges going to distinct candidates, taking the voter's stake back leaves each of
/// them its support less the stake of its edge, without the voter's entries, and clears the edges.
pub proof fn lemma_unassign_distinct(
    voter: AccountId,
    edges: Seq<PhragmenAssignment>,
    sup: Map<AccountId, SupportModel>,
)
    requires
        distinct_candidates(edges),
    ensures
        unassign(voter, edges, sup).0.len() == edges.len(),
        forall|j: int|
            #![trigger edges[j]]
            0 <= j < edges.len() ==> {
                let c = edges[j].0;
                let un = unassign(voter, edges, sup);
                &&& un.0[j] == (c, 0u128)
                &&& un.1.contains_key(c) == sup.contains_key(c)
                &&& sup.contains_key(c) ==> un.1[c] == SupportModel {
                    own: sup[c].own,
                    total: sat_sub(sup[c].total, weight_of(edges, c)),
                    others: without_voter(sup[c].others, voter),
                }
            },
    decreases edges.len(),
{
    if edges.len() > 0 {
        let d = edges.drop_last();
        assert(distinct_candidates(d));
        lemma_unassign_distinct(voter, d, sup);
        lemma_unassign_frame(voter, d, sup);
        let p = unassign(voter, d, sup);
        let un = unassign(voter, edges, sup);
        let last = edges.len() - 1;
        let c = edges[last].0;
        assert(!backs(d, c)) by {
            if backs(d, c) {
                let j = choose|j: int| 0 <= j < d.len() && (#[trigger] d[j]).0 == c;
                assert(edges[j].0 == edges[last].0);
            }
        }
        assert(same_support(p.1, sup, c));
        assert forall|j: int|
            #![trigger edges[j]]
            0 <= j < edges.len() implies {
                let cj = edges[j].0;
                &&& un.0[j] == (cj, 0u128)
                &&& un.1.contains_key(cj) == sup.contains_key(cj)
                &&& sup.contains_key(cj) ==> un.1[cj] == SupportModel {
                    own: sup[cj].own,
                    total: sat_sub(sup[cj].total, weight_of(edges, cj)),
                    others: without_voter(sup[cj].others, voter),
                }
            } by {
            if j < last {
                assert(d[j] == edges[j]);
                assert(edges[j].0 != c);
            }
        }
    }
}

/// With the edges going to distinct candidates that all have a support, the sort of the
/// taken-back edges holds each candidate once, beside its taken-back support, least first.
pub proof fn lemma_sorted_structure(
    voter: AccountId,
    edges: Seq<PhragmenAssignment>,
    sup: Map<AccountId, SupportModel>,
)
    requires
        distinct_candidates(edges),
        forall|j: int| 0 <= j < edges.len() ==> #[trigger] sup.contains_key(edges[j].0),
        taken_back_sorted(voter, edges, sup),
    ensures
        sorted_taken_back(voter, edges, sup).len() == edges.len(),
        forall|i: int|
            #![trigger sorted_taken_back(voter, edges, sup)[i]]
            0 <= i < edges.len() ==> {
                let sk = sorted_taken_back(voter, edges, sup);
                let un = unassign(voter, edges, sup).1;
                let c = sk[i].1.0;
                &&& sup.contains_key(c)
                &&& un.contains_key(c)
                &&& sk[i].1.1 == 0
                &&& sk[i].0 == un[c].total
                &&& un[c] == SupportModel {
                    own: sup[c].own,
                    total: sat_sub(sup[c].total, weight_of(edges, c)),
                    others: without_voter(sup[c].others, voter),
                }
                &&& candidates(edges).contains(c)
            },
        forall|i: int, j: int|
            0 <= i < j < edges.len() ==> (#[trigger] sorted_taken_back(voter, edges, sup)[i]).1.0
                != (#[trigger] sorted_taken_back(voter, edges, sup)[j]).1.0,
{
    let un = unassign(voter, edges, sup);
    let sk = sorted_taken_back(voter, edges, sup);
    let v = keyed(un.0, un.1);
    lemma_unassign_distinct(voter, edges, sup);
    lemma_sorted_keys(un.0, un.1, sk);
    assert forall|i: int| #![trigger sk[i]] 0 <= i < edges.len() implies {
        let c = sk[i].1.0;
        &&& sup.contains_key(c)
        &&& un.1.contains_key(c)
        &&& sk[i].1.1 == 0
        &&& sk[i].0 == un.1[c].total
        &&& un.1[c] == SupportModel {
            own: sup[c].own,
            total: sat_sub(sup[c].total, weight_of(edges, c)),
            others: without_voter(sup[c].others, voter),
        }
        &&& candidates(edges).contains(c)
    } by {
        assert(un.0.contains(sk[i].1));
        let j = choose|j: int| 0 <= j < un.0.len() && un.0[j] == sk[i].1;
        assert(un.0[j] == (edges[j].0, 0u128));
        assert(sup.contains_key(edges[j].0));
        assert(candidates(edges)[j] == edges[j].0);
    }
    lemma_sorted_distinct(voter, edges, sup);
}

/// With the edges going to distinct candidates, the sort of the taken-back edges holds each of
/// them once, cleared.
pub proof fn lemma_sorted_distinct(
    voter: AccountId,
    edges: Seq<PhragmenAssignment>,
    sup: Map<AccountId, SupportModel>,
)
    requires
        distinct_candidates(edges),
        taken_back_sorted(voter, edges, sup),
    ensures
        sorted_taken_back(voter, edges, sup).len() == edges.len(),
        forall|i: int|
            #![trigger sorted_taken_back(voter, edges, sup)[i]]
            0 <= i < edges.len() ==> sorted_taken_back(voter, edges, sup)[i].1.1 == 0 && candidates(
                edges,
            ).contains(sorted_taken_back(voter, edges, sup)[i].1.0),
        forall|i: int, j: int|
            0 <= i < j < edges.len() ==> (#[trigger] sorted_taken_back(voter, edges, sup)[i]).1.0
                != (#[trigger] sorted_taken_back(voter, edges, sup)[j]).1.0,
{
    let un = unassign(voter, edges, sup);
    let sk = sorted_taken_back(voter, edges, sup);
    let v = keyed(un.0, un.1);
    lemma_unassign_distinct(voter, edges, sup);
    lemma_sorted_keys(un.0, un.1, sk);
    assert forall|i: int| #![trigger sk[i]] 0 <= i < edges.len() implies sk[i].1.1 == 0 && candidates(
        edges,
    ).contains(sk[i].1.0) by {
        assert(un.0.contains(sk[i].1));
        let j = choose|j: int| 0 <= j < un.0.len() && un.0[j] == sk[i].1;
        assert(un.0[j] == (edges[j].0, 0u128));
        assert(candidates(edges)[j] == edges[j].0);
    }
    // the keyed edges hold each item once, and so does the sort
    assert(v.no_duplicates()) by {
        assert forall|i: int, j: int| 0 <= i < v.len() && 0 <= j < v.len() && i != j implies v[i] != v[j] by {
            assert(un.0[i] == (edges[i].0, 0u128));
            assert(un.0[j] == (edges[j].0, 0u128));
            if i < j {
                assert(edges[i].0 != edges[j].0);
            } else {
                assert(edges[j].0 != edges[i].0);
            }
        }
    }
    v.lemma_multiset_has_no_duplicates();
    sk.lemma_multiset_has_no_duplicates_conv();
    assert forall|i: int, j: int| 0 <= i < j < edges.len() implies (#[trigger] sk[i]).1.0 != (#[trigger] sk[j]).1.0 by {
        assert(sk[i] != sk[j]);
        if sk[i].1.0 == sk[j].1.0 {
            assert(sk[i].0 == support_total(un.1, sk[i].1.0));
            assert(sk[j].0 == support_total(un.1, sk[j].1.0));
            assert(sk[i] == sk[j]);
        }
    }
}

/// The keys of a list, added up from the left.
pub open spec fn key_adder() -> spec_fn(int, (u128, PhragmenAssignment)) -> int {
    |acc: int, x: (u128, PhragmenAssignment)| acc + x.0
}

/// The first `m` keys added up are the fold of the first `m` items.
pub proof fn lemma_prefix_keys_fold(v: Seq<(u128, PhragmenAssignment)>, m: int)
    requires
        0 <= m <= v.len(),
    ensures
        prefix_keys(v, m) == v.take(m).fold_left(0int, key_adder()),
    decreases m,
{
    if m > 0 {
        lemma_prefix_keys_fold(v, m - 1);
        assert(v.take(m).drop_last() =~= v.take(m - 1));
        assert(v.take(m).last() == v[m - 1]);
    } else {
        assert(v.take(0).len() == 0);
    }
}

/// Two lists with the same items, each as often, have the same keys added up.
pub proof fn lemma_prefix_keys_permutation(v: Seq<(u128, PhragmenAssignment)>, w: Seq<(u128, PhragmenAssignment)>)
    requires
        v.len() == w.len(),
        v.to_multiset() == w.to_multiset(),
    ensures
        prefix_keys(v, v.len() as int) == prefix_keys(w, w.len() as int),
{
    let f = key_adder();
    assert(vstd::seq_lib::commutative_foldl(f)) by {
        assert forall|x: (u128, PhragmenAssignment), y: (u128, PhragmenAssignment), b: int|
            #[trigger] f(f(b, x), y) == f(f(b, y), x) by {}
    }
    vstd::seq_lib::lemma_fold_left_permutation(v, w, f, 0int);
    lemma_prefix_keys_fold(v, v.len() as int);
    lemma_prefix_keys_fold(w, w.len() as int);
    assert(v.take(v.len() as int) =~= v);
    assert(w.take(w.len() as int) =~= w);
}

/// More keys add up to more.
pub proof fn lemma_prefix_keys_monotone(v: Seq<(u128, PhragmenAssignment)>, i: int, j: int)
    requires
        0 <= i <= j <= v.len(),
    ensures
        0 <= prefix_keys(v, i) <= prefix_keys(v, j),
    decreases j,
{
    if i < j {
        lemma_prefix_keys_monotone(v, i, j - 1);
    } else if i > 0 {
        lemma_prefix_keys_monotone(v, i - 1, i - 1);
    }
}

/// The taken-back supports of the first `m` edges add up to no more than their supports.
pub proof fn lemma_keyed_sum(
    voter: AccountId,
    edges: Seq<PhragmenAssignment>,
    sup: Map<AccountId, SupportModel>,
    m: int,
)
    requires
        0 <= m <= edges.len(),
        distinct_candidates(edges),
        forall|j: int| 0 <= j < edges.len() ==> #[trigger] sup.contains_key(edges[j].0),
    ensures
        prefix_keys(keyed(unassign(voter, edges, sup).0, unassign(voter, edges, sup).1), m) <= totals_sum(
            edges.take(m),
            sup,
        ),
    decreases m,
{
    if m > 0 {
        lemma_keyed_sum(voter, edges, sup, m - 1);
        lemma_unassign_distinct(voter, edges, sup);
        let un = unassign(voter, edges, sup);
        assert(edges.take(m).drop_last() =~= edges.take(m - 1));
        assert(edges.take(m).last() == edges[m - 1]);
        assert(un.0[m - 1] == (edges[m - 1].0, 0u128));
        assert(sup.contains_key(edges[m - 1].0));
    } else {
        assert(edges.take(0).len() == 0);
    }
}

/// Walking a sorted list whose every candidate has a support of its key, with nothing large
/// enough to saturate: the walk takes in the keys of every candidate that can be lifted to the
/// level of those before it within the budget, and stops at the first that cannot.
pub proof fn lemma_cumulate_walk(
    sk: Seq<(u128, PhragmenAssignment)>,
    sup: Map<AccountId, SupportModel>,
    budget: u128,
    m: int,
)
    requires
        0 <= m <= sk.len(),
        forall|i: int|
            #![trigger sk[i]]
            0 <= i < sk.len() ==> sup.contains_key(sk[i].1.0) && sup[sk[i].1.0].total == sk[i].0
                && sk[i].0 * sk.len() <= u128::MAX,
        budget + prefix_keys(sk, sk.len() as int) <= u128::MAX,
        sk.len() < u128::MAX,
    ensures
        !cumulate(unkeyed(sk), sup, budget, m).2 ==> {
            &&& cumulate(unkeyed(sk), sup, budget, m).0 == prefix_keys(sk, m)
            &&& cumulate(unkeyed(sk), sup, budget, m).1 == sk.len() - 1
            &&& forall|i: int| 0 <= i < m ==> #[trigger] lift_cost(sk, i) <= budget
        },
        cumulate(unkeyed(sk), sup, budget, m).2 ==> {
            let last = cumulate(unkeyed(sk), sup, budget, m).1;
            &&& 0 <= last
            &&& last + 1 < m
            &&& cumulate(unkeyed(sk), sup, budget, m).0 == prefix_keys(sk, last + 1)
            &&& lift_cost(sk, last + 1) > budget
            &&& forall|i: int| 0 <= i <= last ==> #[trigger] lift_cost(sk, i) <= budget
        },
    decreases m,
{
    if m > 0 {
        let n = sk.len() as int;
        let idx = m - 1;
        lemma_cumulate_walk(sk, sup, budget, idx);
        lemma_prefix_keys_monotone(sk, m, n);
        let sorted = unkeyed(sk);
        let p = cumulate(sorted, sup, budget, idx);
        assert(sorted[idx] == sk[idx].1);
        let a = sk[idx].0;
        assert(sup.contains_key(sk[idx].1.0) && sup[sk[idx].1.0].total == a && a * n <= u128::MAX);
        assert(prefix_keys(sk, m) == prefix_keys(sk, idx) + a);
        assert(a * idx <= a * n) by (nonlinear_arith)
            requires
                0 <= a,
                0 <= idx <= n,
        ;
        if !p.2 {
            assert(sat_mul(a, idx as u128) == a * idx);
            assert(lift_cost(sk, idx) == a * idx - prefix_keys(sk, idx));
            if lift_cost(sk, idx) > budget {
                assert(idx >= 1) by {
                    if idx == 0 {
                        let a0 = sk[0].0 as int;
                        assert(a0 * 0 == 0) by (nonlinear_arith);
                        assert(lift_cost(sk, 0) == 0);
                    }
                }
            } else {
                assert(sat_add(p.0, a as int) == prefix_keys(sk, m));
                assert forall|i: int| 0 <= i < m implies #[trigger] lift_cost(sk, i) <= budget by {
                    if i < idx {
                        assert(lift_cost(sk, i) <= budget);
                    }
                }
            }
        }
    }
}

/// Handing out to the first `m` of a sorted list of distinct candidates, each supported by its
/// key and below `level`: each of them is lifted to `level` with a new entry of the voter, the
/// rest are left as they are.
pub proof fn lemma_redistribute_lifts(
    voter: AccountId,
    sk: Seq<(u128, PhragmenAssignment)>,
    sup: Map<AccountId, SupportModel>,
    share: u128,
    last_stake: u128,
    level: int,
    m: int,
)
    requires
        0 <= m <= sk.len(),
        forall|i: int|
            #![trigger sk[i]]
            0 <= i < sk.len() ==> sup.contains_key(sk[i].1.0) && sup[sk[i].1.0].total == sk[i].0,
        forall|i: int, j: int| 0 <= i < j < sk.len() ==> (#[trigger] sk[i]).1.0 != (#[trigger] sk[j]).1.0,
        level == share + last_stake,
        level <= u128::MAX,
        forall|i: int| 0 <= i < m ==> (#[trigger] sk[i]).0 <= level,
    ensures
        redistribute(voter, unkeyed(sk), sup, share, last_stake, m).0.len() == sk.len(),
        forall|i: int|
            #![trigger sk[i]]
            0 <= i < m ==> {
                let r = redistribute(voter, unkeyed(sk), sup, share, last_stake, m);
                let c = sk[i].1.0;
                &&& r.0[i] == (c, (level - sk[i].0) as u128)
                &&& r.1.contains_key(c)
                &&& r.1[c] == SupportModel {
                    own: sup[c].own,
                    total: level as u128,
                    others: sup[c].others.push((voter, (level - sk[i].0) as u128)),
                }
            },
        forall|i: int|
            #![trigger sk[i]]
            m <= i < sk.len() ==> {
                let r = redistribute(voter, unkeyed(sk), sup, share, last_stake, m);
                let c = sk[i].1.0;
                &&& r.0[i] == sk[i].1
                &&& r.1.contains_key(c)
                &&& r.1[c] == sup[c]
            },
    decreases m,
{
    if m > 0 {
        lemma_redistribute_lifts(voter, sk, sup, share, last_stake, level, m - 1);
        let sorted = unkeyed(sk);
        let p = redistribute(voter, sorted, sup, share, last_stake, m - 1);
        let r = redistribute(voter, sorted, sup, share, last_stake, m);
        let k = m - 1;
        let c = sk[k].1.0;
        assert(sorted[k] == sk[k].1);
        assert(p.1.contains_key(c) && p.1[c] == sup[c]);
        let a = sk[k].0;
        assert(sat_sub(sat_add(share, last_stake as int), a) == (level - a) as u128);
        assert forall|i: int|
            #![trigger sk[i]]
            0 <= i < m implies {
                let ci = sk[i].1.0;
                &&& r.0[i] == (ci, (level - sk[i].0) as u128)
                &&& r.1.contains_key(ci)
                &&& r.1[ci] == SupportModel {
                    own: sup[ci].own,
                    total: level as u128,
                    others: sup[ci].others.push((voter, (level - sk[i].0) as u128)),
                }
            } by {
            if i < k {
                assert(sk[i].1.0 != c);
            }
        }
        assert forall|i: int|
            #![trigger sk[i]]
            m <= i < sk.len() implies {
                let ci = sk[i].1.0;
                &&& r.0[i] == sk[i].1
                &&& r.1.contains_key(ci)
                &&& r.1[ci] == sup[ci]
            } by {
            assert(sk[k].1.0 != sk[i].1.0);
        }
    }
}

/// The stake on edges of which the first `k` carry what their key lacks of `level` and the
/// rest carry nothing, over the first `m` of them.
pub proof fn lemma_weight_sum_filled(
    new_edges: Seq<PhragmenAssignment>,
    sk: Seq<(u128, PhragmenAssignment)>,
    k: int,
    level: int,
    m: int,
)
    requires
        new_edges.len() == sk.len(),
        0 <= k <= sk.len(),
        0 <= m <= sk.len(),
        forall|i: int| 0 <= i < k ==> (#[trigger] new_edges[i]).1 == level - sk[i].0,
        forall|i: int| k <= i < sk.len() ==> (#[trigger] new_edges[i]).1 == 0,
    ensures
        weight_sum(new_edges.take(m)) == if m <= k {
            m * level - prefix_keys(sk, m)
        } else {
            k * level - prefix_keys(sk, k)
        },
    decreases m,
{
    if m > 0 {
        lemma_weight_sum_filled(new_edges, sk, k, level, m - 1);
        assert(new_edges.take(m).drop_last() =~= new_edges.take(m - 1));
        assert(new_edges.take(m).last() == new_edges[m - 1]);
        assert((m - 1) * level + level == m * level) by (nonlinear_arith);
    } else {
        assert(new_edges.take(0).len() == 0);
        assert(0 * level == 0);
    }
}

/// In a list sorted by key, lifting costs more the further down the list.
pub proof fn lemma_lift_cost_monotone(sk: Seq<(u128, PhragmenAssignment)>, i: int, j: int)
    requires
        0 <= i <= j < sk.len(),
        forall|x: int, y: int| 0 <= x <= y < sk.len() ==> (#[trigger] sk[x]).0 <= (#[trigger] sk[y]).0,
    ensures
        lift_cost(sk, i) <= lift_cost(sk, j),
    decreases j - i,
{
    if i < j {
        lemma_lift_cost_monotone(sk, i, j - 1);
        let a = sk[j].0 as int;
        let b = sk[j - 1].0 as int;
        assert(b <= a);
        assert(prefix_keys(sk, j) == prefix_keys(sk, j - 1) + b);
        assert(a * j - b * (j - 1) - b >= 0) by (nonlinear_arith)
            requires
                0 <= b <= a,
                j >= 1,
        ;
    }
}

/// The arithmetic of the split: with `a * k` within `x`, `x - a * k` split `k` ways plus `a` is
/// `x` split `k` ways, at least `a`; what `k` shares of it leave of `x` is the remainder.
pub proof fn lemma_split(x: int, a: int, k: int)
    requires
        k >= 1,
        0 <= a,
        a * k <= x,
    ensures
        (x - a * k) / k + a == x / k,
        a <= x / k,
        x / k <= x,
        k * (x / k) == x - x % k,
        0 <= x % k < k,
{
    vstd::arithmetic::div_mod::lemma_hoist_over_denominator(x - a * k, a, k as nat);
    vstd::arithmetic::div_mod::lemma_fundamental_div_mod(x, k);
    vstd::arithmetic::div_mod::lemma_mod_bound(x, k);
    assert(x - a * k + a * k == x);
    assert(a <= x / k) by (nonlinear_arith)
        requires
            k >= 1,
            a * k <= x,
            x == k * (x / k) + x % k,
            x % k < k,
    ;
    assert(x / k <= x) by (nonlinear_arith)
        requires
            k >= 1,
            x >= 0,
            x == k * (x / k) + x % k,
            0 <= x % k,
    ;
}

/// A key whose `k` copies exceed `x` exceeds `x` split `k` ways.
pub proof fn lemma_above_split(x: int, a: int, k: int)
    requires
        k >= 1,
        a * k > x,
    ensures
        a > x / k,
{
    vstd::arithmetic::div_mod::lemma_fundamental_div_mod(x, k);
    vstd::arithmetic::div_mod::lemma_mod_bound(x, k);
    assert(a > x / k) by (nonlinear_arith)
        requires
            k >= 1,
            a * k > x,
            x == k * (x / k) + x % k,
            0 <= x % k,
    ;
}

/// Spreading the budget anew fills up the least supported candidates: see [`water_filled`],
/// for the number of candidates that the walk takes in.
pub proof fn lemma_water_filling(
    voter: AccountId,
    budget: u128,
    edges: Seq<PhragmenAssignment>,
    sup: Map<AccountId, SupportModel>,
    tolerance: u128,
)
    requires
        fills_exactly(budget, edges, sup, tolerance),
        taken_back_sorted(voter, edges, sup),
    ensures
        water_filled(
            voter,
            budget,
            edges,
            sup,
            cumulate(
                unkeyed(sorted_taken_back(voter, edges, sup)),
                unassign(voter, edges, sup).1,
                budget,
                edges.len() as int,
            ).1 + 1,
            rebalance(voter, budget, edges, sup).0,
            rebalance(voter, budget, edges, sup).1,
        ),
{
    let n = edges.len() as int;
    let un = unassign(voter, edges, sup);
    let sk = sorted_taken_back(voter, edges, sup);
    let sorted = unkeyed(sk);
    lemma_sorted_structure(voter, edges, sup);
    assert(sorted.len() == n);
    // nothing saturates: every key times the number of edges, and the budget plus all keys,
    // stay within u128::MAX
    assert forall|i: int| #![trigger sk[i]] 0 <= i < n implies un.1.contains_key(sk[i].1.0)
        && un.1[sk[i].1.0].total == sk[i].0 && sk[i].0 * n <= u128::MAX by {
        let c = sk[i].1.0;
        assert(candidates(edges).contains(c));
        let j = choose|j: int| 0 <= j < n && candidates(edges)[j] == c;
        assert(edges[j].0 == c);
        let t = sup[edges[j].0].total;
        assert(n * t <= u128::MAX);
        assert(sk[i].0 <= t);
        assert(sk[i].0 * n <= t * n) by (nonlinear_arith)
            requires
                sk[i].0 <= t,
                n >= 0,
        ;
    }
    let kv = keyed(un.0, un.1);
    lemma_unassign_distinct(voter, edges, sup);
    assert(kv.len() == n);
    lemma_prefix_keys_permutation(sk, kv);
    lemma_keyed_sum(voter, edges, sup, n);
    assert(edges.take(n) =~= edges);
    assert(budget + prefix_keys(sk, n) <= u128::MAX);
    // the walk
    lemma_cumulate_walk(sk, un.1, budget, n);
    let cu = cumulate(sorted, un.1, budget, n);
    let k = cu.1 + 1;
    assert(1 <= k <= n);
    assert(cu.0 == prefix_keys(sk, k));
    assert(forall|i: int| 0 <= i < k ==> #[trigger] lift_cost(sk, i) <= budget);
    assert(k < n ==> lift_cost(sk, k) > budget);
    // the split
    let a = sk[k - 1].0;
    let x = budget + prefix_keys(sk, k);
    assert(prefix_keys(sk, k) == prefix_keys(sk, k - 1) + a);
    assert(lift_cost(sk, k - 1) <= budget);
    assert(a * k == a * (k - 1) + a) by (nonlinear_arith);
    assert(a * k <= x);
    assert((k as u128) as int == k);
    lemma_prefix_keys_monotone(sk, k, n);
    assert(sat_add(budget, cu.0 as int) == x);
    // the last edge taken in was cleared: the budget and the supports taken in are split evenly
    assert(sorted[k - 1] == sk[k - 1].1);
    let last_stake = sorted[k - 1].1;
    assert(last_stake == 0);
    assert(sat_mul(last_stake, k as u128) == 0);
    let excess = sat_sub(sat_add(budget, cu.0 as int), sat_mul(last_stake, k as u128));
    assert(excess == x);
    lemma_split(x, a as int, k);
    let share = excess / (k as u128);
    let level = x / k;
    assert(share == level);
    assert forall|i: int| 0 <= i < k implies (#[trigger] sk[i]).0 <= level by {
        assert(sk[i].0 <= sk[k - 1].0);
    }
    lemma_redistribute_lifts(voter, sk, un.1, share, last_stake, level, k);
    let rb = rebalance(voter, budget, edges, sup);
    assert(rb == redistribute(voter, sorted, un.1, share, last_stake, k));
    // the candidates not lifted are above the level
    if k < n {
        assert(sk[k].0 * k - prefix_keys(sk, k) > budget);
        lemma_above_split(x, sk[k].0 as int, k);
        assert forall|i: int| k <= i < n implies (#[trigger] sk[i]).0 >= level by {
            assert(sk[k].0 <= sk[i].0);
        }
    }
    // when all are lifted
    if k == n {
        assert(lift_cost(sk, n - 1) <= budget);
        assert(prefix_keys(sk, n) == prefix_keys(sk, n - 1) + sk[n - 1].0);
        assert(sk[n - 1].0 * n == sk[n - 1].0 * (n - 1) + sk[n - 1].0) by (nonlinear_arith);
    } else {
        lemma_lift_cost_monotone(sk, k, n - 1);
        assert(prefix_keys(sk, n) == prefix_keys(sk, n - 1) + sk[n - 1].0);
        assert(sk[n - 1].0 * n == sk[n - 1].0 * (n - 1) + sk[n - 1].0) by (nonlinear_arith);
    }
    // what is handed out
    assert forall|i: int| 0 <= i < k implies (#[trigger] rb.0[i]).1 == level - sk[i].0 by {
        assert(sk[i].0 <= level);
    }
    assert forall|i: int| k <= i < n implies (#[trigger] rb.0[i]).1 == 0 by {
        assert(rb.0[i] == sk[i].1);
    }
    lemma_weight_sum_filled(rb.0, sk, k, level, n);
    assert(rb.0.take(n) =~= rb.0);
}

} // verus!
