//! A quorum-based consensus voting engine for privileged operating-system
//! operations.
//!
//! A fixed set of registered nodes jointly decides whether a requested
//! privileged action (a sudo command, a critical file write, a device access)
//! may run. Operations are submitted to a pending store, registered nodes cast
//! at most one vote each, and an evaluator tallies the votes: once a quorum is
//! reached the operation is finalized, archived together with its
//! [`ConsensusResult`], and its votes are purged.
//!
//! Two engines are provided, differing in their decision policy:
//! [`ubuntu_os::Module`] approves when the approve share of the non-abstain
//! votes reaches a configured percentage threshold, while
//! [`ubuntu_secure::Pallet`] approves when a fixed number of approve votes is
//! reached and additionally keeps a reputation score per node: after each
//! finalization it rewards nodes whose vote agreed with the outcome,
//! penalizes the rest, and flags nodes whose score falls below a trust
//! floor.
//!
//! [`ConsensusResult`]: ubuntu_os::ConsensusResult

pub mod bytes;
pub mod table;
pub mod tally;
pub mod ubuntu_os;
pub mod ubuntu_secure;
