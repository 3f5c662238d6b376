//! The data of an election: candidates, voters, their edges, and the results.

use vstd::prelude::*;
use crate::arith::ExtendedBalance;
use crate::per_u128::PerU128;

verus! {

/// Identifier of a candidate or a voter.
pub type AccountId = u64;

/// Means a particular `AccountId` was backed by a ratio of `ExtendedBalance / ACCURACY`.
pub type PhragmenAssignment = (AccountId, ExtendedBalance);

/// A candidate entity for phragmen election.
#[derive(Clone, Copy, Debug, Default)]
pub struct Candidate {
    /// Identifier.
    pub who: AccountId,
    /// Intermediary value used to sort candidates.
    pub score: PerU128,
    /// Sum of the stake of this candidate based on received votes.
    pub approval_stake: ExtendedBalance,
    /// Flag for being elected.
    pub elected: bool,
}

/// A candidate being backed by a voter.
#[derive(Clone, Copy, Debug, Default)]
pub struct Edge {
    /// Identifier.
    pub who: AccountId,
    /// Load of this vote.
    pub load: PerU128,
    /// Index of the candidate stored in the candidates vector.
    pub candidate_index: usize,
}

/// A voter entity.
#[derive(Debug, Default)]
pub struct Voter {
    /// Identifier.
    pub who: AccountId,
    /// List of candidates proposed by this voter.
    pub edges: Vec<Edge>,
    /// The stake of this voter.
    pub budget: ExtendedBalance,
    /// Incremented each time a candidate that this voter voted for has been elected.
    pub load: PerU128,
}

/// The mathematical value of a voter.
pub struct VoterModel {
    pub who: AccountId,
    pub edges: Seq<Edge>,
    pub budget: u128,
    pub load: u128,
}

impl View for Voter {
    type V = VoterModel;

    open spec fn view(&self) -> VoterModel {
        VoterModel { who: self.who, edges: self.edges@, budget: self.budget, load: self.load.0 }
    }
}

/// Final result of the phragmen election.
#[derive(Debug)]
pub struct PhragmenResult {
    /// Just winners.
    pub winners: Vec<AccountId>,
    /// Individual assignments. For each tuple, the first element is a voter and the second
    /// is the list of candidates that it supports.
    pub assignments: Vec<(AccountId, Vec<PhragmenAssignment>)>,
}

/// The mathematical value of an election result.
pub struct Outcome {
    pub winners: Seq<AccountId>,
    pub assignments: Seq<(AccountId, Seq<PhragmenAssignment>)>,
}

/// The view of a list of assignments.
pub open spec fn assignments_view(a: Seq<(AccountId, Vec<PhragmenAssignment>)>) -> Seq<
    (AccountId, Seq<PhragmenAssignment>),
> {
    a.map_values(|x: (AccountId, Vec<PhragmenAssignment>)| (x.0, x.1@))
}

impl View for PhragmenResult {
    type V = Outcome;

    open spec fn view(&self) -> Outcome {
        Outcome { winners: self.winners@, assignments: assignments_view(self.assignments@) }
    }
}

/// How much support a candidate receives: the result seen from the candidate's side.
#[derive(Debug, Default)]
pub struct Support {
    /// The amount of support as the effect of self-vote.
    pub own: ExtendedBalance,
    /// Total support.
    pub total: ExtendedBalance,
    /// Support from voters.
    pub others: Vec<PhragmenAssignment>,
}

/// The mathematical value of a support.
pub struct SupportModel {
    pub own: u128,
    pub total: u128,
    pub others: Seq<PhragmenAssignment>,
}

impl View for Support {
    type V = SupportModel;

    open spec fn view(&self) -> SupportModel {
        SupportModel { own: self.own, total: self.total, others: self.others@ }
    }
}

} // verus!
