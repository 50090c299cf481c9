//! The commit rule of a round-based DAG consensus: it turns a DAG of
//! certified nodes into a totally ordered sequence of committed batches.
pub mod types;
pub mod dag;
pub mod epoch;
pub mod election;
pub mod commit_rule;
pub mod safety;

pub use commit_rule::{BlockInfo, CommitRule, LedgerInfo, OrderedBlocks};
pub use dag::{Dag, DagError};
pub use election::{AnchorElection, RoundRobinAnchorElection};
pub use epoch::{EpochState, ValidatorVerifier};
pub use types::{Author, CertifiedNode, Digest, NodeMetadata, Round};
