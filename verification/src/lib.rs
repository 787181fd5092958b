//! A version-controlled store as a state machine: commits in an acyclic graph,
//! branches and tags that point into it, the checked-out commit, and the
//! remotes. Every operation is an executable function whose contract says how
//! the state changes and when it fails.
//!
//! - `types`, `error`, `semantic`: hashes, names, failures, semantic commits.
//! - `refs`, `graph`: the tables and the graph as contracts see them.
//! - `repository`: the state and its invariant; `branches`, `tags`, `commits`,
//!   `queries`, `remotes`, `gc`: the operations; `ancestry`: descent and merge bases.
//! - `slot`: the single-owner slot through which callers share one backend.
//! - `laws`: what holds across operations.

pub mod types;
pub mod error;
pub mod semantic;
pub mod refs;
pub mod graph;
pub mod repository;
pub mod branches;
pub mod tags;
pub mod commits;
pub mod queries;
pub mod remotes;
pub mod gc;
pub mod ancestry;
pub mod slot;
pub mod laws;
