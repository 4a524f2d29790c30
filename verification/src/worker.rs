//! Workers: one per thread, fixed in number for the pool's lifetime.

use vstd::prelude::*;

use crate::message::TaskId;

verus! {

/// The life of one worker thread, as the pool sees it.
#[derive(Clone, Copy, Debug, PartialEq, Eq, Structural)]
pub enum WorkerState {
    /// Blocked on the channel, ready to take the next message.
    Idle,
    /// Executing the task it took. The receive lock is not held meanwhile,
    /// so the other workers keep taking messages.
    Busy(TaskId),
    /// Took the terminate signal and exited its loop; never receives again.
    Terminated,
}

/// One worker: its ordinal id and where it stands in its loop.
#[derive(Clone, Copy, Debug, PartialEq, Eq, Structural)]
pub struct Worker {
    pub id: usize,
    pub state: WorkerState,
}

impl Worker {
    /// A fresh worker, ready to receive.
    pub fn new(id: usize) -> (w: Worker)
        ensures
            w.id == id,
            w.state is Idle,
    {
        Worker { id, state: WorkerState::Idle }
    }
}

} // verus!
