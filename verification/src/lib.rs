//! A dependency-graph task scheduler.
//!
//! Work items are named by `u64` keys and ordered by "must finish before"
//! edges. The crate keeps the bookkeeping of a run: which keys wait, which are
//! in flight and which have finished. The caller performs the work itself and
//! reports each completion; the executor answers with the nodes that became
//! ready to start.
//!
//! * [`model`] is the mathematics: edges, readiness and the abstract state of
//!   a run.
//! * [`laws`] states and proves what holds of every run.
//! * [`diagram`] wraps the `petgraph` graph that is kept for rendering.
//! * [`shared`] holds the per-key bookkeeping record.
//! * [`asynced`] holds the executor itself.

use vstd::prelude::*;

pub mod asynced;
pub mod diagram;
pub mod laws;
pub mod model;
pub mod shared;

pub use asynced::AsyncGraphExecutor;
pub use asynced::ConstructionError;
pub use model::Schedule;
pub use shared::NodeInfo;

verus! {

/// What the executor asks of a work item. How the item runs is the caller's
/// business; the executor only moves it.
pub trait Prioritized {
    /// The priority of the item. It is recorded at construction and plays no
    /// part in scheduling.
    fn get_priority(&self) -> u64;
}

} // verus!
