//! A best-first graph search kernel: A* over an abstract, caller-defined
//! graph.
//!
//! The graph is never represented explicitly. The caller supplies a start
//! node together with four collaborators — successor enumeration, goal test,
//! heuristic estimate, and edge cost — and [`astar`] finds a route from the
//! start to a node satisfying the goal test, returning it as a lazily walked
//! [`Path`]. Nodes are identified by `usize` values and costs are `u64`
//! values whose arithmetic saturates at `u64::MAX`.

use vstd::prelude::*;

mod frontier;
mod measure;
mod path;
mod search;
mod store;

pub use path::Path;
pub use search::astar;
pub use search::is_edge;
pub use search::reach_in;
pub use search::walk;

verus! {

/// Capability bound for node identifiers: equality comparison, hashing, and
/// cheap copying. The kernel keys its search state by `usize` node
/// identifiers, which satisfy this bound; callers whose conceptual graph uses
/// a richer identifier type map it to indices before searching.
pub trait NodeId: Eq + core::hash::Hash + Copy {

}

impl<T: Eq + core::hash::Hash + Copy> NodeId for T {

}

} // verus!
