use vstd::prelude::*;

verus! {

/// Everything that stops a simulation. None of these is retried: each one ends the run
/// with a diagnostic naming what went wrong.
#[derive(Debug, PartialEq, Eq)]
pub enum SimError {
    /// A component name that is empty, does not start with a letter, or holds a
    /// character that names may not hold.
    InvalidName { name: String },
    /// A component name already used by a sibling.
    DuplicateSibling { name: String },
    /// An empty store key.
    InvalidKey,
    /// A store key written twice at one instant with different values.
    AlreadySet { key: String },
    /// A store key read while absent, or holding a value of another kind.
    MissingKey { key: String },
    /// An event payload asked for while absent.
    Payload { event: String, message: String },
    /// An event sent through an `OutPort` that was never connected.
    DisconnectedPort,
    /// An event scheduled to a component that has no worker.
    InactiveTarget { target: usize, event: String },
    /// A worker that did not answer within the configured timeout.
    WorkerStalled { target: usize },
    /// A worker whose channel closed.
    WorkerGone { target: usize },
    /// The store or the component tree was still shared with a worker when the
    /// kernel went to change it.
    SnapshotRetained,
}

} // verus!
