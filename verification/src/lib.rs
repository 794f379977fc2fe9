//! An incremental computation engine: a versioned, memoizing dependency graph
//! in which derived values are recomputed only where the inputs they were
//! computed from have changed.
//!
//! - `versions`: version numbers and the ledger that issues them.
//! - `registry`: keys, values, and the evaluation functions of the keys;
//!   `formula`: a registry given as data.
//! - `store`: the nodes of the graph and their invariant.
//! - `engine`: answering a query, with early cutoff and cycle detection.
//! - `invalidation`: marking what a changed input may have made stale.
//! - `transaction`: the handles through which a version is read or updated;
//!   `snapshot`: copies of the graph, and what can be asked of a node.
//! - `semantics`: what the value of a key is; `laws`: what holds across calls.
//! - `humanized`: compact renderings of byte counts, rates and counts, for
//!   the observers of the engine; `rounding` and `text` serve it.

pub mod humanized;
pub mod rounding;
pub mod text;
pub mod versions;
pub mod registry;
pub mod error;
pub mod store;
pub mod engine;
pub mod invalidation;
pub mod transaction;
pub mod snapshot;
pub mod semantics;
pub mod laws;
pub mod formula;
