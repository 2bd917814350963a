//! Rollback-state subsystem of a deterministic lockstep simulation:
//! an object store with typed components, a hierarchical parent/child
//! graph kept acyclic, frame-stamped snapshots that can be captured and
//! restored atomically, and a session controller that advances frames
//! and replays them after a late input correction.

pub mod graph;
pub mod store;
pub mod snapshot;
pub mod session;

use vstd::prelude::*;

verus! {

/// The error taxonomy of the subsystem.
///
/// `UnknownObject`: an identifier was referenced but is not live.
/// `ComponentAbsent`: a typed access to a component the object does not hold.
/// `CycleDetected`: a parent assignment would make the graph cyclic.
/// `SnapshotNotFound`: a restore targeted a frame with no retained snapshot;
/// the session cannot guarantee determinism past this point.
#[derive(Clone, Copy, Debug, PartialEq, Eq, Structural)]
pub enum RollbackError {
    UnknownObject,
    ComponentAbsent,
    CycleDetected,
    SnapshotNotFound,
}

} // verus!
