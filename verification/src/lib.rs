//! Sequential Phragmén election with equalise post-processing, verified with Verus.
//!
//! The election in [`elect`] distributes the stake of a set of voters over an elected set of
//! candidates; the post-processing in [`equalize`] tries to distribute it more evenly.

pub mod arith;
pub mod per_u128;
pub mod types;
pub mod election_spec;
pub mod election_lemmas;
pub mod shares;
pub mod election;
pub mod equalize_spec;
pub mod filling;
pub mod consistency;
pub mod budget;
pub mod equalize;
pub mod laws;
pub mod election_laws;
pub mod equalize_laws;

pub use arith::{ExtendedBalance, ACCURACY};
pub use election::{elect, elect_staked};
pub use equalize::{do_equalize, equalize, equalize_round};
pub use equalize_spec::SupportMap;
pub use per_u128::PerU128;
pub use types::{AccountId, Candidate, Edge, PhragmenAssignment, PhragmenResult, Support, Voter};
