//! Tasks, channel messages, and the actions a worker is told to take.

use vstd::prelude::*;

verus! {

/// Identifies one submitted unit of work.
///
/// The pool routes tasks by identity; the work itself (an owned, one-shot
/// closure) lives outside the verified model and is looked up under this id
/// when a worker is told to execute.
pub type TaskId = u64;

/// One message carried by the dispatch channel: either a new unit of work,
/// or the poison pill telling the worker that receives it to exit.
#[derive(Clone, Copy, Debug, PartialEq, Eq, Structural)]
pub enum Message {
    NewJob(TaskId),
    Terminate,
}

/// What a worker must do with the one message it took from the channel.
#[derive(Clone, Copy, Debug, PartialEq, Eq, Structural)]
pub enum Action {
    /// Run the task, with the receive lock already released.
    Execute(TaskId),
    /// Exit the worker loop; the worker never receives again.
    Exit,
}

} // verus!
