//! The pool's guarantees, stated as laws and proved from the invariant
//! [`ThreadPool::wf`] and the step relations of [`crate::pool`].
//!
//! Each exec operation of the pool ensures `wf` again and describes its
//! effect as one step relation, so these laws hold at every state any
//! interleaving of submitters and workers can reach.

use vstd::multiset::Multiset;
use vstd::prelude::*;
use vstd::seq_lib::lemma_multiset_commutative;

use crate::message::TaskId;
use crate::pool::{
    busy_tasks, dispatch_step, jobs_of, lemma_busy_tasks_empty, lemma_terminated_count_full,
    task_of, terminated_count, terminates_of, ThreadPool,
};
use crate::worker::WorkerState;

verus! {

broadcast use {vstd::multiset::group_multiset_axioms, vstd::seq_lib::group_to_multiset_ensures};

/// Every task executes exactly once. When no job remains in the channel and
/// no worker is still busy — as at shutdown completion, once the channel
/// has drained and every worker has gone idle or exited — the completed
/// ledger holds, as a multiset, exactly the submitted tasks: each submission
/// executed once, none skipped, none duplicated. However the submissions
/// from concurrent callers interleaved, the tasks were moreover started in
/// submission order.
pub proof fn lemma_every_task_exactly_once(p: ThreadPool)
    requires
        p.wf(),
        jobs_of(p.channel@).len() == 0,
        forall|i: int| 0 <= i < p.workers@.len() ==> !((#[trigger] p.workers@[i]).state is Busy),
    ensures
        p.started@ =~= p.submitted@,
        p.completed@.to_multiset() =~= p.submitted@.to_multiset(),
{
    lemma_busy_tasks_empty(p.workers@);
    assert(p.started@ + jobs_of(p.channel@) =~= p.started@);
    assert(p.started@ =~= p.submitted@);
    assert forall|v: TaskId| p.completed@.to_multiset().count(v) == p.submitted@.to_multiset().count(
        v,
    ) by {
        assert(p.completed@.to_multiset().add(busy_tasks(p.workers@)).count(v)
            == p.completed@.to_multiset().count(v) + busy_tasks(p.workers@).count(v));
        assert(busy_tasks(p.workers@).count(v) == Multiset::<TaskId>::empty().count(v));
    }
    assert(p.completed@.to_multiset() =~= p.submitted@.to_multiset());
}

/// Execution is never duplicated, at any moment and under any concurrent
/// submission: at every reachable state, no task has completed more often
/// than it was submitted.
pub proof fn lemma_no_duplication(p: ThreadPool)
    requires
        p.wf(),
    ensures
        forall|v: TaskId|
            p.completed@.to_multiset().count(v) <= #[trigger] p.submitted@.to_multiset().count(v),
{
    lemma_multiset_commutative(p.started@, jobs_of(p.channel@));
    assert(p.submitted@.to_multiset() == p.started@.to_multiset().add(
        jobs_of(p.channel@).to_multiset(),
    ));
    assert forall|v: TaskId|
        p.completed@.to_multiset().count(v) <= #[trigger] p.submitted@.to_multiset().count(
            v,
        ) by {
        assert(p.completed@.to_multiset().add(busy_tasks(p.workers@)).count(v)
            == p.completed@.to_multiset().count(v) + busy_tasks(p.workers@).count(v));
        assert(p.started@.to_multiset().add(jobs_of(p.channel@).to_multiset()).count(v)
            == p.started@.to_multiset().count(v) + jobs_of(p.channel@).to_multiset().count(v));
    }
}

/// Dispatch is first-in-first-out across the whole pool: at every reachable
/// state, the tasks started so far are exactly the first tasks submitted,
/// in submission order. Which worker starts a task is a race; the order in
/// which tasks leave the channel is not.
pub proof fn lemma_fifo_dispatch(p: ThreadPool)
    requires
        p.wf(),
    ensures
        p.started@ =~= p.submitted@.take(p.started@.len() as int),
{
    assert(p.started@ + jobs_of(p.channel@) =~= p.submitted@);
}

/// Once shutdown has been requested and the channel has drained, every
/// worker has exited its loop: shutdown completion leaves no worker
/// running.
pub proof fn lemma_shutdown_leaves_no_worker_running(p: ThreadPool)
    requires
        p.wf(),
        p.shutdown_requested,
        p.channel@.len() == 0,
    ensures
        forall|i: int| 0 <= i < p.workers@.len() ==> (#[trigger] p.workers@[i]).state
            is Terminated,
{
    assert(terminates_of(p.channel@) == 0);
    assert(terminated_count(p.workers@) == p.workers@.len());
    lemma_terminated_count_full(p.workers@);
}

/// Tasks may execute in parallel: a worker takes the receive lock only to
/// take one message, never while executing, so dispatching a job to one
/// idle worker leaves a busy worker busy. After the step, both hold a task
/// at once — execution is not serialized through the lock.
pub proof fn lemma_parallel_execution(
    pre: ThreadPool,
    post: ThreadPool,
    w: int,
    j: int,
    t: TaskId,
)
    requires
        pre.wf(),
        dispatch_step(pre, post, w, t),
        0 <= j < pre.workers@.len(),
        j != w,
        pre.workers@[j].state is Busy,
    ensures
        post.workers@[w].state == WorkerState::Busy(t),
        post.workers@[j] == pre.workers@[j],
        post.workers@[j].state is Busy,
{
}

/// With a single worker, execution is serial and in submission order: the
/// tasks completed so far are exactly the first tasks started, at most one
/// task is ever in flight, and tasks start in submission order. So when two
/// tasks are submitted in turn to a pool of one worker, the first completes
/// before the second starts.
pub proof fn lemma_single_worker_serial(p: ThreadPool)
    requires
        p.wf(),
        p.workers@.len() == 1,
    ensures
        p.started@ =~= p.submitted@.take(p.started@.len() as int),
        p.completed@ =~= p.started@.take(p.completed@.len() as int),
        p.started@.len() <= p.completed@.len() + 1,
{
    lemma_fifo_dispatch(p);
    assert(p.completed@ + task_of(p.workers@[0].state) =~= p.started@);
    assert(task_of(p.workers@[0].state).len() <= 1);
}

} // verus!
