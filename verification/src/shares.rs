//! Turning voters' loads into shares of `ACCURACY` in the elected candidates.

use vstd::prelude::*;
use vstd::arithmetic::div_mod::{
    lemma_div_is_ordered, lemma_div_by_multiple, lemma_div_pos_is_pos, lemma_fundamental_div_mod,
    lemma_fundamental_div_mod_converse, lemma_mod_bound,
};
use vstd::arithmetic::mul::{lemma_mul_inequality, lemma_mul_is_commutative};
use crate::arith::ACCURACY;
use crate::election_spec::{assignments_of, load_sum, normalize, ratio, raw_shares, share_sum};
use crate::types::{AccountId, Edge, PhragmenAssignment, VoterModel};

verus! {

/// A share is at most `ACCURACY` when the edge's load is within the voter's.
pub proof fn lemma_ratio_bound(voter_load: u128, edge_load: u128)
    requires
        edge_load <= voter_load,
    ensures
        ratio(voter_load, edge_load) <= ACCURACY,
        voter_load != edge_load && ACCURACY * edge_load > u128::MAX ==> voter_load / ACCURACY > 0,
{
    let acc: int = ACCURACY as int;
    if voter_load != edge_load {
        if ACCURACY * edge_load <= u128::MAX {
            lemma_mul_inequality(edge_load as int, voter_load as int, acc);
            lemma_mul_is_commutative(edge_load as int, acc);
            lemma_mul_is_commutative(voter_load as int, acc);
            lemma_div_is_ordered(acc * edge_load, acc * voter_load, voter_load as int);
            lemma_div_by_multiple(acc, voter_load as int);
        } else {
            assert(edge_load >= 0x1_0000_0000_0000_0000_0000_0000) by (nonlinear_arith)
                requires
                    acc * edge_load > u128::MAX,
                    acc == 0x1_0000_0000,
            ;
            let q: int = voter_load as int / acc;
            let r: int = voter_load as int % acc;
            lemma_div_is_ordered(0x1_0000_0000_0000_0000_0000_0000, voter_load as int, acc);
            assert(0x1_0000_0000_0000_0000_0000_0000int / 0x1_0000_0000int == 0x1_0000_0000_0000_0000int) by (nonlinear_arith);
            lemma_fundamental_div_mod(voter_load as int, acc);
            lemma_mod_bound(voter_load as int, acc);
            lemma_mul_is_commutative(acc, q);
            lemma_fundamental_div_mod_converse(voter_load as int, q, acc, r);
            lemma_div_is_ordered(edge_load as int, voter_load as int, q);
        }
    }
}

/// The share of an edge: the whole when the edge carries all of the voter's load, else the
/// fraction of the voter's load that it carries.
fn share_ratio(voter_load: u128, edge_load: u128) -> (r: u128)
    requires
        edge_load <= voter_load,
    ensures
        r == ratio(voter_load, edge_load),
        r <= ACCURACY,
{
    proof {
        lemma_ratio_bound(voter_load, edge_load);
    }
    if voter_load == edge_load {
        ACCURACY
    } else {
        let d: u128 = if voter_load == 0 {
            1
        } else {
            voter_load
        };
        match ACCURACY.checked_mul(edge_load) {
            Some(p) => p / d,
            None => edge_load / (d / ACCURACY),
        }
    }
}

/// Whether `who` is among `list`.
fn contains(list: &Vec<AccountId>, who: AccountId) -> (r: bool)
    ensures
        r == list@.contains(who),
{
    let n = list.len();
    for i in 0..n
        invariant
            n == list@.len(),
            forall|k: int| 0 <= k < i ==> list@[k] != who,
    {
        if list[i] == who {
            return true;
        }
    }
    false
}

/// The shares of a voter in the elected candidates it backs, other than itself.
pub fn voter_shares(who: AccountId, load: u128, edges: &Vec<Edge>, winners: &Vec<AccountId>) -> (r: Vec<
    PhragmenAssignment,
>)
    requires
        forall|j: int| 0 <= j < edges@.len() ==> (#[trigger] edges@[j]).load.0 <= load,
    ensures
        r@ == raw_shares(who, load, edges@, winners@),
        forall|k: int| 0 <= k < r@.len() ==> (#[trigger] r@[k]).1 <= ACCURACY,
{
    let mut shares: Vec<PhragmenAssignment> = Vec::new();
    let n = edges.len();
    for j in 0..n
        invariant
            n == edges@.len(),
            forall|j: int| 0 <= j < edges@.len() ==> (#[trigger] edges@[j]).load.0 <= load,
            shares@ == raw_shares(who, load, edges@.take(j as int), winners@),
            forall|k: int| 0 <= k < shares@.len() ==> (#[trigger] shares@[k]).1 <= ACCURACY,
    {
        proof {
            assert(edges@.take(j + 1).drop_last() =~= edges@.take(j as int));
        }
        let e = edges[j];
        if contains(winners, e.who) {
            if e.who != who {
                let r = share_ratio(load, e.load.parts());
                shares.push((e.who, r));
            }
        }
    }
    proof {
        assert(edges@.take(n as int) =~= edges@);
    }
    shares
}

/// The sum of the first `i` shares is within `i` wholes.
proof fn lemma_share_sum_bound(s: Seq<PhragmenAssignment>)
    requires
        forall|k: int| 0 <= k < s.len() ==> (#[trigger] s[k]).1 <= ACCURACY,
    ensures
        0 <= share_sum(s) <= s.len() * ACCURACY,
    decreases s.len(),
{
    if s.len() > 0 {
        assert forall|k: int| 0 <= k < s.drop_last().len() implies (#[trigger] s.drop_last()[k]).1 <= ACCURACY by {
            assert(s[k] == s.drop_last()[k]);
        }
        lemma_share_sum_bound(s.drop_last());
        assert(s.last() == s[s.len() - 1]);
        assert((s.len() - 1) * ACCURACY + ACCURACY == s.len() * ACCURACY) by (nonlinear_arith);
    }
}

/// Spreads what is left of `ACCURACY` over the shares, so that nothing of the voter's stake is
/// wasted: evenly, then one part each to the first ones for the remainder.
pub fn normalize_shares(shares: &mut Vec<PhragmenAssignment>)
    requires
        old(shares)@.len() > 0,
        forall|k: int| 0 <= k < old(shares)@.len() ==> (#[trigger] old(shares)@[k]).1 <= ACCURACY,
    ensures
        final(shares)@ == normalize(old(shares)@),
{
    let ghost s0 = shares@;
    let l = shares.len();
    let vote_count = l as u128;
    let mut sum: u128 = 0;
    for i in 0..l
        invariant
            l == s0.len(),
            shares@ == s0,
            forall|k: int| 0 <= k < s0.len() ==> (#[trigger] s0[k]).1 <= ACCURACY,
            sum == share_sum(s0.take(i as int)),
    {
        proof {
            assert(s0.take(i + 1).drop_last() =~= s0.take(i as int));
            assert forall|k: int| 0 <= k < s0.take(i + 1).len() implies (#[trigger] s0.take(i + 1)[k]).1 <= ACCURACY by {
                assert(s0.take(i + 1)[k] == s0[k]);
            }
            lemma_share_sum_bound(s0.take(i + 1));
            assert((i + 1) * ACCURACY <= u128::MAX) by (nonlinear_arith)
                requires
                    i + 1 <= usize::MAX,
                    ACCURACY == 0x1_0000_0000,
            ;
        }
        sum = sum + shares[i].1;
    }
    proof {
        assert(s0.take(l as int) =~= s0);
    }
    let diff: u128 = match ACCURACY.checked_sub(sum) {
        Some(d) => d,
        None => 0,
    };
    let diff_per_vote = diff / vote_count;
    if diff_per_vote > 0 {
        for i in 0..l
            invariant
                l == s0.len(),
                shares@.len() == l,
                forall|k: int|
                    0 <= k < i ==> #[trigger] shares@[k] == (s0[k].0, crate::arith::sat_add(
                        s0[k].1,
                        diff_per_vote as int,
                    )),
                forall|k: int| i <= k < l ==> #[trigger] shares@[k] == s0[k],
        {
            let (w, v) = shares[i];
            shares[i] = (w, v.saturating_add(diff_per_vote));
        }
    }
    let ghost s1 = shares@;
    proof {
        lemma_fundamental_div_mod(diff as int, vote_count as int);
        lemma_mod_bound(diff as int, vote_count as int);
        lemma_mul_is_commutative(vote_count as int, diff_per_vote as int);
    }
    let remainder = diff - diff_per_vote * vote_count;
    let rem = remainder as usize;
    for i in 0..rem
        invariant
            rem == remainder,
            remainder < l,
            shares@.len() == l,
            forall|k: int|
                0 <= k < i ==> #[trigger] shares@[k] == (s1[k].0, crate::arith::sat_add(s1[k].1, 1)),
            forall|k: int| i <= k < l ==> #[trigger] shares@[k] == s1[k],
    {
        let (w, v) = shares[i];
        shares[i] = (w, v.saturating_add(1));
    }
    proof {
        assert(shares@ =~= normalize(s0));
    }
}

} // verus!

verus! {

/// The load of the edges whose shares are taken: those to a winner other than the voter.
pub open spec fn selected_load(who: AccountId, edges: Seq<Edge>, winners: Seq<AccountId>) -> int
    decreases edges.len(),
{
    if edges.len() == 0 {
        0
    } else {
        selected_load(who, edges.drop_last(), winners) + if winners.contains(edges.last().who)
            && edges.last().who != who {
            edges.last().load.0 as int
        } else {
            0
        }
    }
}

/// The selected load is within the sum of the loads; shares are taken only when some edge is
/// selected.
pub proof fn lemma_selected_load(who: AccountId, load: u128, edges: Seq<Edge>, winners: Seq<AccountId>)
    ensures
        0 <= selected_load(who, edges, winners) <= load_sum(edges),
        raw_shares(who, load, edges, winners).len() > 0 ==> exists|j: int|
            0 <= j < edges.len() && winners.contains((#[trigger] edges[j]).who) && edges[j].who != who,
    decreases edges.len(),
{
    if edges.len() > 0 {
        lemma_selected_load(who, load, edges.drop_last(), winners);
        if raw_shares(who, load, edges, winners).len() > 0 {
            if !(winners.contains(edges.last().who) && edges.last().who != who) {
                let j = choose|j: int|
                    0 <= j < edges.drop_last().len() && winners.contains((#[trigger] edges.drop_last()[j]).who)
                        && edges.drop_last()[j].who != who;
                assert(edges[j] == edges.drop_last()[j]);
            } else {
                assert(edges[edges.len() - 1] == edges.last());
            }
        }
    }
}

/// One share scaled: against the voter's load while `ACCURACY` times it fits, else against the
/// voter's load in wholes.
pub proof fn lemma_ratio_scaled(voter_load: u128, edge_load: u128)
    requires
        edge_load <= voter_load,
        1 <= voter_load,
    ensures
        ACCURACY * voter_load <= u128::MAX ==> ratio(voter_load, edge_load) * voter_load <= ACCURACY
            * edge_load,
        ACCURACY * voter_load > u128::MAX ==> ratio(voter_load, edge_load) * (voter_load / ACCURACY)
            <= edge_load,
        ACCURACY * voter_load > u128::MAX ==> 0x1_0000_0000 <= voter_load / ACCURACY,
{
    let acc: int = ACCURACY as int;
    let nl: int = voter_load as int;
    let el: int = edge_load as int;
    let q: int = nl / acc;
    lemma_fundamental_div_mod(nl, acc);
    lemma_mod_bound(nl, acc);
    if acc * nl > u128::MAX {
        assert(nl >= 0x1_0000_0000_0000_0000_0000_0000) by (nonlinear_arith)
            requires
                acc * nl > u128::MAX,
                acc == 0x1_0000_0000,
        ;
        lemma_div_is_ordered(0x1_0000_0000_0000_0000_0000_0000, nl, acc);
        assert(0x1_0000_0000_0000_0000_0000_0000int / 0x1_0000_0000int == 0x1_0000_0000_0000_0000int) by (nonlinear_arith);
    }
    if voter_load == edge_load {
        if acc * nl > u128::MAX {
            lemma_mul_is_commutative(acc, q);
        }
    } else if acc * el <= u128::MAX {
        let t: int = (acc * el) / nl;
        lemma_fundamental_div_mod(acc * el, nl);
        lemma_mod_bound(acc * el, nl);
        lemma_mul_is_commutative(nl, t);
        assert(t * nl <= acc * el);
        if acc * nl > u128::MAX {
            lemma_div_pos_is_pos(acc * el, nl);
            assert(t * q <= el) by (nonlinear_arith)
                requires
                    t * nl <= acc * el,
                    acc * q <= nl,
                    t >= 0,
                    q >= 0,
                    acc > 0,
            ;
        }
    } else {
        assert(acc * nl > u128::MAX) by (nonlinear_arith)
            requires
                acc * el > u128::MAX,
                el <= nl,
                acc > 0,
        ;
        let t: int = el / q;
        lemma_fundamental_div_mod(el, q);
        lemma_mod_bound(el, q);
        lemma_mul_is_commutative(q, t);
    }
}

/// The shares scaled and added up: against the voter's load while `ACCURACY` times it fits,
/// else against the voter's load in wholes.
pub proof fn lemma_shares_scaled(who: AccountId, load: u128, edges: Seq<Edge>, winners: Seq<AccountId>)
    requires
        1 <= load,
        forall|j: int| 0 <= j < edges.len() ==> (#[trigger] edges[j]).load.0 <= load,
    ensures
        ACCURACY * load <= u128::MAX ==> share_sum(raw_shares(who, load, edges, winners)) * load
            <= ACCURACY * selected_load(who, edges, winners),
        ACCURACY * load > u128::MAX ==> share_sum(raw_shares(who, load, edges, winners)) * (load
            / ACCURACY) <= selected_load(who, edges, winners),
    decreases edges.len(),
{
    if edges.len() > 0 {
        let d = edges.drop_last();
        assert forall|j: int| 0 <= j < d.len() implies (#[trigger] d[j]).load.0 <= load by {
            assert(d[j] == edges[j]);
        }
        lemma_shares_scaled(who, load, d, winners);
        let e = edges.last();
        assert(e == edges[edges.len() - 1]);
        if winners.contains(e.who) && e.who != who {
            let p = raw_shares(who, load, d, winners);
            let r = raw_shares(who, load, edges, winners);
            assert(r == p.push((e.who, ratio(load, e.load.0))));
            assert(r.drop_last() =~= p);
            lemma_ratio_scaled(load, e.load.0);
            let x: int = share_sum(p);
            let y: int = ratio(load, e.load.0) as int;
            let m: int = if ACCURACY * load <= u128::MAX {
                load as int
            } else {
                load as int / ACCURACY as int
            };
            assert((x + y) * m == x * m + y * m) by (nonlinear_arith);
            assert(ACCURACY * (selected_load(who, d, winners) + e.load.0) == ACCURACY * selected_load(
                who,
                d,
                winners,
            ) + ACCURACY * e.load.0) by (nonlinear_arith);
        }
    }
}

/// Each share is within the sum of the shares.
pub proof fn lemma_share_sum_elem(s: Seq<PhragmenAssignment>, i: int)
    requires
        0 <= i < s.len(),
    ensures
        s[i].1 <= share_sum(s),
        0 <= share_sum(s),
    decreases s.len(),
{
    lemma_share_sum_nonneg(s.drop_last());
    if i < s.len() - 1 {
        lemma_share_sum_elem(s.drop_last(), i);
        assert(s.drop_last()[i] == s[i]);
    }
}

/// A sum of shares is never negative.
pub proof fn lemma_share_sum_nonneg(s: Seq<PhragmenAssignment>)
    ensures
        0 <= share_sum(s),
    decreases s.len(),
{
    if s.len() > 0 {
        lemma_share_sum_nonneg(s.drop_last());
    }
}

/// Shares that each grow by `per`, and the first `rem` by one more, add up to that much more.
pub proof fn lemma_share_sum_spread(s: Seq<PhragmenAssignment>, t: Seq<PhragmenAssignment>, per: int, rem: int)
    requires
        s.len() == t.len(),
        0 <= rem,
        forall|i: int|
            0 <= i < s.len() ==> (#[trigger] t[i]).1 == s[i].1 + per + if i < rem {
                1int
            } else {
                0int
            },
    ensures
        share_sum(t) == share_sum(s) + s.len() * per + if rem < s.len() {
            rem
        } else {
            s.len() as int
        },
    decreases s.len(),
{
    if s.len() > 0 {
        assert forall|i: int| 0 <= i < s.drop_last().len() implies (#[trigger] t.drop_last()[i]).1
            == s.drop_last()[i].1 + per + if i < rem {
            1int
        } else {
            0int
        } by {
            assert(t[i] == t.drop_last()[i]);
            assert(s[i] == s.drop_last()[i]);
        }
        lemma_share_sum_spread(s.drop_last(), t.drop_last(), per, rem);
        assert(t[s.len() - 1] == t.last());
        assert((s.len() - 1) * per + per == s.len() * per) by (nonlinear_arith);
    }
}

/// Shares that do not exceed `ACCURACY` together are topped up to exactly `ACCURACY`.
pub proof fn lemma_normalize(s: Seq<PhragmenAssignment>)
    requires
        s.len() > 0,
        share_sum(s) <= ACCURACY,
    ensures
        share_sum(normalize(s)) == ACCURACY,
        normalize(s).len() == s.len(),
        forall|i: int| 0 <= i < s.len() ==> (#[trigger] normalize(s)[i]).0 == s[i].0,
{
    let sum = share_sum(s);
    lemma_share_sum_nonneg(s);
    let diff: int = ACCURACY - sum;
    let l: int = s.len() as int;
    let per = diff / l;
    let rem = diff - per * l;
    lemma_fundamental_div_mod(diff, l);
    lemma_mod_bound(diff, l);
    lemma_div_pos_is_pos(diff, l);
    lemma_mul_is_commutative(l, per);
    assert(per <= diff) by {
        lemma_mul_inequality(1, l, per);
    }
    let t = normalize(s);
    assert forall|i: int| 0 <= i < s.len() implies (#[trigger] t[i]).1 == s[i].1 + per + if i < rem {
        1int
    } else {
        0int
    } by {
        lemma_share_sum_elem(s, i);
    }
    lemma_share_sum_spread(s, t, per, rem);
}

} // verus!

verus! {

/// The shares of a voter whose edges' loads stay within its own, and which carries load once it
/// backs a winner, add up to at most `ACCURACY`.
pub proof fn lemma_voter_shares_bound(n: VoterModel, winners: Seq<AccountId>)
    requires
        load_sum(n.edges) <= n.load,
        forall|j: int|
            0 <= j < n.edges.len() && winners.contains((#[trigger] n.edges[j]).who) ==> n.load >= 1,
    ensures
        share_sum(raw_shares(n.who, n.load, n.edges, winners)) <= ACCURACY,
{
    let raw = raw_shares(n.who, n.load, n.edges, winners);
    lemma_selected_load(n.who, n.load, n.edges, winners);
    if raw.len() > 0 {
        let j = choose|j: int|
            0 <= j < n.edges.len() && winners.contains((#[trigger] n.edges[j]).who) && n.edges[j].who != n.who;
        assert(n.load >= 1);
        assert forall|j: int| 0 <= j < n.edges.len() implies (#[trigger] n.edges[j]).load.0 <= n.load by {
            crate::election_lemmas::lemma_load_sum_elem(n.edges, j);
        }
        lemma_shares_scaled(n.who, n.load, n.edges, winners);
        lemma_ratio_scaled(n.load, 0);
        lemma_share_sum_nonneg(raw);
        let sum: int = share_sum(raw);
        let sel: int = selected_load(n.who, n.edges, winners);
        let nl: int = n.load as int;
        let acc: int = ACCURACY as int;
        if acc * nl <= u128::MAX {
            assert(sum <= acc) by (nonlinear_arith)
                requires
                    sum * nl <= acc * sel,
                    sel <= nl,
                    nl >= 1,
                    acc > 0,
            ;
        } else {
            let q: int = nl / acc;
            lemma_fundamental_div_mod(nl, acc);
            lemma_mod_bound(nl, acc);
            assert(sum <= acc) by (nonlinear_arith)
                requires
                    sum * q <= sel,
                    sel <= nl,
                    nl == acc * q + nl % acc,
                    nl % acc < acc,
                    acc <= q,
                    sum >= 0,
            ;
        }
    }
}

/// Every share taken is in a winner other than the voter.
pub proof fn lemma_raw_targets(who: AccountId, load: u128, edges: Seq<Edge>, winners: Seq<AccountId>)
    ensures
        forall|k: int|
            0 <= k < raw_shares(who, load, edges, winners).len() ==> winners.contains(
                (#[trigger] raw_shares(who, load, edges, winners)[k]).0,
            ) && raw_shares(who, load, edges, winners)[k].0 != who,
    decreases edges.len(),
{
    if edges.len() > 0 {
        lemma_raw_targets(who, load, edges.drop_last(), winners);
        let p = raw_shares(who, load, edges.drop_last(), winners);
        let r = raw_shares(who, load, edges, winners);
        assert forall|k: int| 0 <= k < r.len() implies winners.contains((#[trigger] r[k]).0) && r[k].0 != who by {
            if k < p.len() {
                assert(r[k] == p[k]);
            }
        }
    }
}

/// The shares handed out to each voter, when every voter is loaded soundly: never empty,
/// adding up to exactly `ACCURACY`, each in a winner other than the voter.
pub proof fn lemma_assignments(voters: Seq<VoterModel>, winners: Seq<AccountId>)
    requires
        forall|i: int| 0 <= i < voters.len() ==> load_sum((#[trigger] voters[i]).edges) <= voters[i].load,
        forall|i: int, j: int|
            0 <= i < voters.len() && 0 <= j < voters[i].edges.len() && winners.contains(
                (#[trigger] voters[i].edges[j]).who,
            ) ==> voters[i].load >= 1,
    ensures
        forall|k: int|
            0 <= k < assignments_of(voters, winners).len() ==> {
                let a = #[trigger] assignments_of(voters, winners)[k];
                &&& a.1.len() > 0
                &&& share_sum(a.1) == ACCURACY
                &&& forall|j: int| 0 <= j < a.1.len() ==> winners.contains((#[trigger] a.1[j]).0) && a.1[j].0 != a.0
            },
    decreases voters.len(),
{
    if voters.len() > 0 {
        let d = voters.drop_last();
        assert forall|i: int| 0 <= i < d.len() implies load_sum((#[trigger] d[i]).edges) <= d[i].load by {
            assert(d[i] == voters[i]);
        }
        assert forall|i: int, j: int|
            0 <= i < d.len() && 0 <= j < d[i].edges.len() && winners.contains((#[trigger] d[i].edges[j]).who)
            implies d[i].load >= 1 by {
            assert(d[i] == voters[i]);
        }
        lemma_assignments(d, winners);
        let n = voters.last();
        assert(n == voters[voters.len() - 1]);
        let p = assignments_of(d, winners);
        let r = assignments_of(voters, winners);
        let sh = raw_shares(n.who, n.load, n.edges, winners);
        if sh.len() > 0 {
            lemma_voter_shares_bound(n, winners);
            lemma_normalize(sh);
            lemma_raw_targets(n.who, n.load, n.edges, winners);
        }
        assert forall|k: int| 0 <= k < r.len() implies {
            let a = #[trigger] r[k];
            &&& a.1.len() > 0
            &&& share_sum(a.1) == ACCURACY
            &&& forall|j: int| 0 <= j < a.1.len() ==> winners.contains((#[trigger] a.1[j]).0) && a.1[j].0 != a.0
        } by {
            if k < p.len() {
                assert(r[k] == p[k]);
            } else {
                let a = r[k];
                assert forall|j: int| 0 <= j < a.1.len() implies winners.contains((#[trigger] a.1[j]).0) && a.1[j].0 != a.0 by {
                    assert(a.1[j].0 == sh[j].0);
                }
            }
        }
    }
}

} // verus!

verus! {

/// Topping up keeps the candidates of the shares.
pub proof fn lemma_normalize_keys(s: Seq<PhragmenAssignment>)
    ensures
        normalize(s).len() == s.len(),
        forall|i: int| 0 <= i < s.len() ==> (#[trigger] normalize(s)[i]).0 == s[i].0,
{
}

} // verus!
