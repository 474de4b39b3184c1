//! Commit-history walking and filtering over a commit graph.
//!
//! The library holds the logic of a history viewer: how the options turn
//! into parent-count bounds, which commits the filters keep, how the
//! skip/limit window is applied, how revision expressions become the
//! start and hide sets of a walk, and the walk itself over a commit graph.
//! Reading a repository is left to the caller.

mod args;
pub mod filter;
pub mod graph;
pub mod order;
pub mod pipeline;
pub mod revision;
mod stats;
pub mod window;

pub use args::Args;
pub use graph::CommitGraph;
pub use order::{Order, Sorting};
pub use pipeline::{select, Candidate};
pub use revision::{plan_walk, Revision, WalkPlan};
pub use stats::ShortStat;
pub use window::Window;
