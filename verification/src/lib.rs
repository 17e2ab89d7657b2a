//! Voting and consensus mechanisms over ternary votes (for / against / abstain):
//! simple tallies, weighted voting, Byzantine agreement rounds, liquid
//! democracy with delegation chains and Condorcet elections.
pub mod byzantine;
pub mod condorcet;
pub mod liquid;
pub mod tally;
pub mod vote;
pub mod weighted;

pub use byzantine::ByzantineAgreement;
pub use condorcet::CondorcetElection;
pub use liquid::LiquidDemocracy;
pub use tally::{VoteTally, quorum_result};
pub use vote::TernaryVote;
pub use weighted::WeightedVoting;
