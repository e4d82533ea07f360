//! Messages from the sync worker to the dashboard.

use vstd::prelude::*;

use crate::engine::{Plan, Stats};
use crate::path::PathBuf;

verus! {

/// What the worker reports while it scans, plans and applies.
#[derive(Debug)]
pub enum Message {
    /// Entries discovered under `root`.
    Scanned { root: PathBuf, count: usize },
    /// A destination's plan is ready for review.
    Planned { destination: PathBuf, plan: Plan },
    /// `done` of `total` actions on `destination` are complete.
    Applied { destination: PathBuf, done: usize, total: usize },
    /// All destinations are finished; carries the totals.
    Done { stats: Stats },
    /// The worker cannot go on.
    Error { message: String },
}

} // verus!
