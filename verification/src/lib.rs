//! Commit graph: ancestry and reachability queries over a changeset DAG.
//!
//! The graph is append-only: a changeset is added after its parents, gets a
//! generation one above the highest of theirs, and never changes. Queries
//! walk from heads towards the roots with a frontier of changesets kept by
//! generation, jumping over linear history along skip pointers.
//!
//! - `types`, `graph`: the data and the mathematical model of the graph.
//! - `storage`, `memory`: where the edge records live.
//! - `frontier`, `traversal`: the frontier and how it is built and lowered.
//! - `queries`, `search`, `slicing`, `ancestors_stream`: what can be asked.
//! - `laws`: what holds of every answer.
//! - `bulk_unlink`, `copytrace`, `debugstore`, `edenfsctl`, `gitimport`, `text`:
//!   decisions of the tools around the repository.

pub mod ancestors_stream;
pub mod bulk_unlink;
pub mod copytrace;
pub mod debugstore;
pub mod edenfsctl;
pub mod frontier;
pub mod gitimport;
pub mod graph;
pub mod laws;
pub mod memory;
pub mod order;
pub mod queries;
pub mod search;
pub mod slicing;
pub mod storage;
pub mod text;
pub mod traversal;
pub mod types;

pub use ancestors_stream::AncestorsStreamBuilder;
pub use traversal::CommitGraph;
