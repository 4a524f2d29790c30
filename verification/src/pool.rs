//! The pool: owner of the dispatch channel's sending end and of the fixed
//! collection of workers; submission, dispatch and orderly shutdown.
//!
//! The pool is modelled as one state: the channel, the workers, and three
//! ledgers — the tasks submitted, started and completed so far. Each
//! operation is one atomic step of the model; a real deployment interleaves
//! these steps from many threads, and every interleaving keeps [`ThreadPool::wf`].

use vstd::multiset::Multiset;
use vstd::prelude::*;

use crate::channel::Channel;
use crate::message::{Action, Message, TaskId};
use crate::worker::{Worker, WorkerState};

verus! {

broadcast use {vstd::multiset::group_multiset_axioms, vstd::seq_lib::group_to_multiset_ensures};

/// Why a pool operation was refused.
#[derive(Clone, Copy, Debug, PartialEq, Eq, Structural)]
pub enum PoolError {
    /// A pool must have at least one worker.
    ZeroThreads,
    /// Shutdown has begun; the pool accepts no further work.
    ShutDown,
}

/// The task ids of the jobs a message sequence carries, oldest first.
pub open spec fn jobs_of(msgs: Seq<Message>) -> Seq<TaskId>
    decreases msgs.len(),
{
    if msgs.len() == 0 {
        Seq::empty()
    } else {
        (match msgs[0] {
            Message::NewJob(t) => seq![t],
            Message::Terminate => Seq::empty(),
        }) + jobs_of(msgs.drop_first())
    }
}

/// How many terminate signals a message sequence carries.
pub open spec fn terminates_of(msgs: Seq<Message>) -> nat
    decreases msgs.len(),
{
    if msgs.len() == 0 {
        0
    } else {
        (match msgs[0] {
            Message::NewJob(_) => 0nat,
            Message::Terminate => 1nat,
        }) + terminates_of(msgs.drop_first())
    }
}

/// The task a single worker is busy with, as a sequence: one element while
/// busy, none otherwise.
pub open spec fn task_of(s: WorkerState) -> Seq<TaskId> {
    match s {
        WorkerState::Busy(t) => seq![t],
        _ => Seq::empty(),
    }
}

/// The same, as a multiset.
pub open spec fn busy_contrib(s: WorkerState) -> Multiset<TaskId> {
    match s {
        WorkerState::Busy(t) => Multiset::empty().insert(t),
        _ => Multiset::empty(),
    }
}

/// The multiset of tasks in execution, one occurrence per busy worker.
pub open spec fn busy_tasks(ws: Seq<Worker>) -> Multiset<TaskId>
    decreases ws.len(),
{
    if ws.len() == 0 {
        Multiset::empty()
    } else {
        busy_contrib(ws[0].state).add(busy_tasks(ws.drop_first()))
    }
}

/// How many workers have exited their loop.
pub open spec fn terminated_count(ws: Seq<Worker>) -> nat
    decreases ws.len(),
{
    if ws.len() == 0 {
        0
    } else {
        (if ws[0].state is Terminated {
            1nat
        } else {
            0nat
        }) + terminated_count(ws.drop_first())
    }
}

/// Appending a message adds its job, if it is one, at the back of the jobs.
pub proof fn lemma_jobs_push(msgs: Seq<Message>, m: Message)
    ensures
        jobs_of(msgs.push(m)) =~= jobs_of(msgs) + (match m {
            Message::NewJob(t) => seq![t],
            Message::Terminate => Seq::<TaskId>::empty(),
        }),
    decreases msgs.len(),
{
    if msgs.len() == 0 {
        assert(msgs.push(m)[0] == m);
        assert(msgs.push(m).drop_first() =~= Seq::<Message>::empty());
        assert(jobs_of(msgs.push(m).drop_first()) =~= Seq::<TaskId>::empty());
        assert(jobs_of(msgs) =~= Seq::<TaskId>::empty());
    } else {
        assert(msgs.push(m)[0] == msgs[0]);
        assert(msgs.push(m).drop_first() =~= msgs.drop_first().push(m));
        lemma_jobs_push(msgs.drop_first(), m);
    }
}

/// Appending a message adds one to the terminate count exactly when it is
/// the terminate signal.
pub proof fn lemma_terminates_push(msgs: Seq<Message>, m: Message)
    ensures
        terminates_of(msgs.push(m)) == terminates_of(msgs) + (if m is Terminate {
            1nat
        } else {
            0nat
        }),
    decreases msgs.len(),
{
    if msgs.len() == 0 {
        assert(msgs.push(m)[0] == m);
        assert(msgs.push(m).drop_first() =~= Seq::<Message>::empty());
        assert(terminates_of(msgs.push(m).drop_first()) == 0);
        assert(terminates_of(msgs) == 0);
    } else {
        assert(msgs.push(m)[0] == msgs[0]);
        assert(msgs.push(m).drop_first() =~= msgs.drop_first().push(m));
        lemma_terminates_push(msgs.drop_first(), m);
    }
}

/// Replacing one worker's state exchanges exactly its own contribution to
/// the multiset of tasks in execution.
pub proof fn lemma_busy_tasks_update(ws: Seq<Worker>, i: int, w: Worker)
    requires
        0 <= i < ws.len(),
    ensures
        busy_tasks(ws.update(i, w)).add(busy_contrib(ws[i].state)) =~= busy_tasks(ws).add(
            busy_contrib(w.state),
        ),
    decreases ws.len(),
{
    if i == 0 {
        assert(ws.update(0, w)[0] == w);
        assert(ws.update(0, w).drop_first() =~= ws.drop_first());
        assert(busy_tasks(ws.update(0, w)) == busy_contrib(w.state).add(
            busy_tasks(ws.drop_first()),
        ));
        assert(busy_tasks(ws) == busy_contrib(ws[0].state).add(busy_tasks(ws.drop_first())));
        assert forall|v: TaskId|
            busy_tasks(ws.update(0, w)).add(busy_contrib(ws[0].state)).count(v) == busy_tasks(
                ws,
            ).add(busy_contrib(w.state)).count(v) by {
            assert(busy_contrib(w.state).add(busy_tasks(ws.drop_first())).count(v)
                == busy_contrib(w.state).count(v) + busy_tasks(ws.drop_first()).count(v));
            assert(busy_contrib(ws[0].state).add(busy_tasks(ws.drop_first())).count(v)
                == busy_contrib(ws[0].state).count(v) + busy_tasks(ws.drop_first()).count(v));
        }
    } else {
        assert(ws.update(i, w)[0] == ws[0]);
        assert(ws.update(i, w).drop_first() =~= ws.drop_first().update(i - 1, w));
        lemma_busy_tasks_update(ws.drop_first(), i - 1, w);
        assert(ws.drop_first()[i - 1] == ws[i]);
        assert(busy_tasks(ws.update(i, w)) == busy_contrib(ws[0].state).add(
            busy_tasks(ws.drop_first().update(i - 1, w)),
        ));
        assert(busy_tasks(ws) == busy_contrib(ws[0].state).add(busy_tasks(ws.drop_first())));
        assert forall|v: TaskId|
            busy_tasks(ws.update(i, w)).add(busy_contrib(ws[i].state)).count(v) == busy_tasks(
                ws,
            ).add(busy_contrib(w.state)).count(v) by {
            assert(busy_tasks(ws.drop_first().update(i - 1, w)).add(
                busy_contrib(ws.drop_first()[i - 1].state),
            ).count(v) == busy_tasks(ws.drop_first()).add(busy_contrib(w.state)).count(v));
            assert(busy_contrib(ws[0].state).add(
                busy_tasks(ws.drop_first().update(i - 1, w)),
            ).count(v) == busy_contrib(ws[0].state).count(v) + busy_tasks(
                ws.drop_first().update(i - 1, w),
            ).count(v));
            assert(busy_contrib(ws[0].state).add(busy_tasks(ws.drop_first())).count(v)
                == busy_contrib(ws[0].state).count(v) + busy_tasks(ws.drop_first()).count(v));
        }
    }
}

/// An idle worker beginning task `t` adds one occurrence of `t` to the
/// tasks in execution.
pub proof fn lemma_busy_tasks_dispatch(ws: Seq<Worker>, i: int, w: Worker, t: TaskId)
    requires
        0 <= i < ws.len(),
        ws[i].state is Idle,
        w.state == WorkerState::Busy(t),
    ensures
        busy_tasks(ws.update(i, w)) == busy_tasks(ws).insert(t),
{
    lemma_busy_tasks_update(ws, i, w);
    assert forall|v: TaskId| busy_tasks(ws.update(i, w)).count(v) == busy_tasks(ws).insert(
        t,
    ).count(v) by {
        assert(busy_tasks(ws.update(i, w)).add(busy_contrib(ws[i].state)).count(v)
            == busy_tasks(ws).add(busy_contrib(w.state)).count(v));
    }
    assert(busy_tasks(ws.update(i, w)) =~= busy_tasks(ws).insert(t));
}

/// A worker moving between two states in which it executes nothing leaves
/// the tasks in execution unchanged.
pub proof fn lemma_busy_tasks_unchanged(ws: Seq<Worker>, i: int, w: Worker)
    requires
        0 <= i < ws.len(),
        !(ws[i].state is Busy),
        !(w.state is Busy),
    ensures
        busy_tasks(ws.update(i, w)) == busy_tasks(ws),
{
    lemma_busy_tasks_update(ws, i, w);
    assert forall|v: TaskId| busy_tasks(ws.update(i, w)).count(v) == busy_tasks(ws).count(
        v,
    ) by {
        assert(busy_tasks(ws.update(i, w)).add(busy_contrib(ws[i].state)).count(v)
            == busy_tasks(ws).add(busy_contrib(w.state)).count(v));
    }
    assert(busy_tasks(ws.update(i, w)) =~= busy_tasks(ws));
}

/// A worker finishing task `t` removes one occurrence of `t` from the
/// tasks in execution.
pub proof fn lemma_busy_tasks_complete(ws: Seq<Worker>, i: int, w: Worker, t: TaskId)
    requires
        0 <= i < ws.len(),
        ws[i].state == WorkerState::Busy(t),
        !(w.state is Busy),
    ensures
        busy_tasks(ws.update(i, w)).insert(t) == busy_tasks(ws),
{
    lemma_busy_tasks_update(ws, i, w);
    assert forall|v: TaskId| busy_tasks(ws.update(i, w)).insert(t).count(v) == busy_tasks(
        ws,
    ).count(v) by {
        assert(busy_tasks(ws.update(i, w)).add(busy_contrib(ws[i].state)).count(v)
            == busy_tasks(ws).add(busy_contrib(w.state)).count(v));
    }
    assert(busy_tasks(ws.update(i, w)).insert(t) =~= busy_tasks(ws));
}

/// Replacing one worker's state changes the terminated count by exactly its
/// own contribution.
pub proof fn lemma_terminated_count_update(ws: Seq<Worker>, i: int, w: Worker)
    requires
        0 <= i < ws.len(),
    ensures
        terminated_count(ws.update(i, w)) + (if ws[i].state is Terminated {
            1nat
        } else {
            0nat
        }) == terminated_count(ws) + (if w.state is Terminated {
            1nat
        } else {
            0nat
        }),
    decreases ws.len(),
{
    if i == 0 {
        assert(ws.update(0, w)[0] == w);
        assert(ws.update(0, w).drop_first() =~= ws.drop_first());
        assert(terminated_count(ws.update(0, w)) == (if w.state is Terminated {
            1nat
        } else {
            0nat
        }) + terminated_count(ws.drop_first()));
        assert(terminated_count(ws) == (if ws[0].state is Terminated {
            1nat
        } else {
            0nat
        }) + terminated_count(ws.drop_first()));
    } else {
        assert(ws.update(i, w)[0] == ws[0]);
        assert(ws.update(i, w).drop_first() =~= ws.drop_first().update(i - 1, w));
        lemma_terminated_count_update(ws.drop_first(), i - 1, w);
        assert(ws.drop_first()[i - 1] == ws[i]);
        assert(terminated_count(ws.update(i, w)) == (if ws[0].state is Terminated {
            1nat
        } else {
            0nat
        }) + terminated_count(ws.drop_first().update(i - 1, w)));
        assert(terminated_count(ws) == (if ws[0].state is Terminated {
            1nat
        } else {
            0nat
        }) + terminated_count(ws.drop_first()));
    }
}

/// When no worker is busy, no task is in execution.
pub proof fn lemma_busy_tasks_empty(ws: Seq<Worker>)
    requires
        forall|i: int| 0 <= i < ws.len() ==> !((#[trigger] ws[i]).state is Busy),
    ensures
        busy_tasks(ws) =~= Multiset::<TaskId>::empty(),
    decreases ws.len(),
{
    if ws.len() > 0 {
        assert(!(ws[0].state is Busy));
        assert forall|i: int| 0 <= i < ws.drop_first().len() implies !((#[trigger] ws.drop_first()[i]).state
            is Busy) by {
            assert(ws.drop_first()[i] == ws[i + 1]);
        }
        lemma_busy_tasks_empty(ws.drop_first());
    }
}

/// When no worker has terminated, the terminated count is zero.
pub proof fn lemma_terminated_count_zero(ws: Seq<Worker>)
    requires
        forall|i: int| 0 <= i < ws.len() ==> !((#[trigger] ws[i]).state is Terminated),
    ensures
        terminated_count(ws) == 0,
    decreases ws.len(),
{
    if ws.len() > 0 {
        assert(!(ws[0].state is Terminated));
        assert forall|i: int| 0 <= i < ws.drop_first().len() implies !((#[trigger] ws.drop_first()[i]).state
            is Terminated) by {
            assert(ws.drop_first()[i] == ws[i + 1]);
        }
        lemma_terminated_count_zero(ws.drop_first());
    }
}

/// The terminated count never exceeds the worker count.
pub proof fn lemma_terminated_count_le(ws: Seq<Worker>)
    ensures
        terminated_count(ws) <= ws.len(),
    decreases ws.len(),
{
    if ws.len() > 0 {
        lemma_terminated_count_le(ws.drop_first());
    }
}

/// A full terminated count means every worker has terminated.
pub proof fn lemma_terminated_count_full(ws: Seq<Worker>)
    requires
        terminated_count(ws) == ws.len(),
    ensures
        forall|i: int| 0 <= i < ws.len() ==> (#[trigger] ws[i]).state is Terminated,
    decreases ws.len(),
{
    if ws.len() > 0 {
        lemma_terminated_count_le(ws.drop_first());
        lemma_terminated_count_full(ws.drop_first());
        assert forall|i: int| 0 <= i < ws.len() implies (#[trigger] ws[i]).state is Terminated by {
            if i > 0 {
                assert(ws.drop_first()[i - 1] == ws[i]);
            }
        }
    }
}

/// The pool model: the dispatch channel, the fixed collection of workers,
/// whether shutdown has begun, and the three ledgers of its history.
pub struct ThreadPool {
    /// The workers, in ordinal order; the count is fixed at construction.
    pub workers: Vec<Worker>,
    /// The dispatch channel; the pool alone sends into it.
    pub channel: Channel,
    /// Set once shutdown begins; no submission is accepted afterwards.
    pub shutdown_requested: bool,
    /// Every task submitted, in submission order.
    pub submitted: Vec<TaskId>,
    /// Every task a worker has begun executing, in dispatch order.
    pub started: Vec<TaskId>,
    /// Every task a worker has finished, in completion order.
    pub completed: Vec<TaskId>,
}

impl ThreadPool {
    /// The pool invariant. Every reachable state satisfies it:
    /// - there is at least one worker, and worker `i` has id `i`;
    /// - the tasks started, followed by the jobs still in the channel, are
    ///   exactly the tasks submitted, in order: nothing is lost, invented
    ///   or reordered on the way to a worker;
    /// - the tasks completed together with the tasks in execution are
    ///   exactly the tasks started, as a multiset: nothing finishes that
    ///   did not start, and nothing starts twice;
    /// - terminate signals are conserved: the signals still in the channel
    ///   plus the workers already exited account for exactly one signal per
    ///   worker once shutdown has begun, and none before;
    /// - with a single worker, completion order is dispatch order: the
    ///   tasks completed, followed by the task in execution if any, are
    ///   exactly the tasks started.
    pub open spec fn wf(self) -> bool {
        &&& self.workers@.len() >= 1
        &&& forall|i: int| 0 <= i < self.workers@.len() ==> (#[trigger] self.workers@[i]).id == i
        &&& self.started@ + jobs_of(self.channel@) =~= self.submitted@
        &&& self.completed@.to_multiset().add(busy_tasks(self.workers@))
            =~= self.started@.to_multiset()
        &&& terminates_of(self.channel@) + terminated_count(self.workers@) == (
        if self.shutdown_requested {
            self.workers@.len()
        } else {
            0nat
        })
        &&& self.workers@.len() == 1 ==> self.completed@ + task_of(self.workers@[0].state)
            =~= self.started@
    }
}

/// The two pool states agree everywhere: no field changed.
pub open spec fn state_eq(a: ThreadPool, b: ThreadPool) -> bool {
    &&& a.workers@ =~= b.workers@
    &&& a.channel@ =~= b.channel@
    &&& a.shutdown_requested == b.shutdown_requested
    &&& a.submitted@ =~= b.submitted@
    &&& a.started@ =~= b.started@
    &&& a.completed@ =~= b.completed@
}

/// One submission: the task is appended to the channel, behind every message
/// in flight, and to the submission ledger. Nothing else moves.
pub open spec fn submit_step(pre: ThreadPool, post: ThreadPool, t: TaskId) -> bool {
    &&& !pre.shutdown_requested
    &&& post.channel@ =~= pre.channel@.push(Message::NewJob(t))
    &&& post.submitted@ =~= pre.submitted@.push(t)
    &&& post.workers@ =~= pre.workers@
    &&& post.started@ =~= pre.started@
    &&& post.completed@ =~= pre.completed@
    &&& post.shutdown_requested == pre.shutdown_requested
}

/// One dispatch: idle worker `w` takes the oldest message, the job `t`, and
/// begins executing it. Every other worker is untouched.
pub open spec fn dispatch_step(pre: ThreadPool, post: ThreadPool, w: int, t: TaskId) -> bool {
    &&& 0 <= w < pre.workers@.len()
    &&& pre.workers@[w].state is Idle
    &&& pre.channel@.len() > 0
    &&& pre.channel@[0] == Message::NewJob(t)
    &&& post.channel@ =~= pre.channel@.drop_first()
    &&& post.workers@ =~= pre.workers@.update(
        w,
        (Worker { id: pre.workers@[w].id, state: WorkerState::Busy(t) }),
    )
    &&& post.started@ =~= pre.started@.push(t)
    &&& post.submitted@ =~= pre.submitted@
    &&& post.completed@ =~= pre.completed@
    &&& post.shutdown_requested == pre.shutdown_requested
}

/// One exit: idle worker `w` takes the oldest message, the terminate
/// signal, and leaves its loop for good.
pub open spec fn exit_step(pre: ThreadPool, post: ThreadPool, w: int) -> bool {
    &&& 0 <= w < pre.workers@.len()
    &&& pre.workers@[w].state is Idle
    &&& pre.channel@.len() > 0
    &&& pre.channel@[0] == Message::Terminate
    &&& post.channel@ =~= pre.channel@.drop_first()
    &&& post.workers@ =~= pre.workers@.update(
        w,
        (Worker { id: pre.workers@[w].id, state: WorkerState::Terminated }),
    )
    &&& post.started@ =~= pre.started@
    &&& post.submitted@ =~= pre.submitted@
    &&& post.completed@ =~= pre.completed@
    &&& post.shutdown_requested == pre.shutdown_requested
}

/// One completion: busy worker `w` finishes task `t`, which joins the
/// completed ledger, and turns back to the channel.
pub open spec fn complete_step(pre: ThreadPool, post: ThreadPool, w: int, t: TaskId) -> bool {
    &&& 0 <= w < pre.workers@.len()
    &&& pre.workers@[w].state == WorkerState::Busy(t)
    &&& post.workers@ =~= pre.workers@.update(
        w,
        (Worker { id: pre.workers@[w].id, state: WorkerState::Idle }),
    )
    &&& post.completed@ =~= pre.completed@.push(t)
    &&& post.channel@ =~= pre.channel@
    &&& post.started@ =~= pre.started@
    &&& post.submitted@ =~= pre.submitted@
    &&& post.shutdown_requested == pre.shutdown_requested
}

/// The shutdown request: one terminate signal per worker is enqueued behind
/// every message in flight, and no further submission is accepted.
pub open spec fn shutdown_step(pre: ThreadPool, post: ThreadPool) -> bool {
    &&& !pre.shutdown_requested
    &&& post.shutdown_requested
    &&& post.channel@ =~= pre.channel@ + Seq::new(
        pre.workers@.len(),
        |i: int| Message::Terminate,
    )
    &&& post.workers@ =~= pre.workers@
    &&& post.submitted@ =~= pre.submitted@
    &&& post.started@ =~= pre.started@
    &&& post.completed@ =~= pre.completed@
}

impl ThreadPool {
    /// Create a pool of `num_threads` workers, all idle, with an empty
    /// channel and empty ledgers. Fails, with no worker created, exactly
    /// when `num_threads` is zero.
    pub fn new(num_threads: usize) -> (r: Result<ThreadPool, PoolError>)
        ensures
            num_threads == 0 <==> r is Err,
            r matches Err(e) ==> e == PoolError::ZeroThreads,
            r matches Ok(p) ==> ({
                &&& p.wf()
                &&& p.workers@.len() == num_threads
                &&& forall|i: int|
                    0 <= i < num_threads ==> (#[trigger] p.workers@[i]).state is Idle
                &&& p.channel@ =~= Seq::<Message>::empty()
                &&& !p.shutdown_requested
                &&& p.submitted@ =~= Seq::<TaskId>::empty()
                &&& p.started@ =~= Seq::<TaskId>::empty()
                &&& p.completed@ =~= Seq::<TaskId>::empty()
            }),
    {
        if num_threads == 0 {
            return Err(PoolError::ZeroThreads);
        }
        let mut workers: Vec<Worker> = Vec::new();
        let mut id: usize = 0;
        while id < num_threads
            invariant
                id <= num_threads,
                workers@.len() == id,
                forall|i: int|
                    0 <= i < id ==> (#[trigger] workers@[i]).id == i && workers@[i].state is Idle,
            decreases num_threads - id,
        {
            workers.push(Worker::new(id));
            id = id + 1;
        }
        let pool = ThreadPool {
            workers,
            channel: Channel::new(),
            shutdown_requested: false,
            submitted: Vec::new(),
            started: Vec::new(),
            completed: Vec::new(),
        };
        proof {
            lemma_busy_tasks_empty(pool.workers@);
            lemma_terminated_count_zero(pool.workers@);
            assert(pool.started@ + jobs_of(pool.channel@) =~= pool.submitted@);
            assert(pool.completed@.to_multiset().add(busy_tasks(pool.workers@))
                =~= pool.started@.to_multiset());
        }
        Ok(pool)
    }

    /// The worker count fixed at construction.
    pub fn num_threads(&self) -> (n: usize)
        ensures
            n == self.workers@.len(),
    {
        self.workers.len()
    }

    /// How many messages are still in flight in the dispatch channel.
    pub fn queue_len(&self) -> (n: usize)
        ensures
            n == self.channel@.len(),
    {
        self.channel.len()
    }

    /// Submit one task. Never blocks: the job is appended behind the
    /// messages in flight and some worker will take it, in arrival order.
    /// Refused exactly when shutdown has begun, and then changes nothing.
    pub fn execute(&mut self, task: TaskId) -> (r: Result<(), PoolError>)
        requires
            old(self).wf(),
        ensures
            final(self).wf(),
            !old(self).shutdown_requested ==> r is Ok && submit_step(
                *old(self),
                *final(self),
                task,
            ),
            old(self).shutdown_requested ==> ({
                &&& r matches Err(e)
                &&& e == PoolError::ShutDown
                &&& state_eq(*old(self), *final(self))
            }),
    {
        if self.shutdown_requested {
            return Err(PoolError::ShutDown);
        }
        self.channel.send(Message::NewJob(task));
        self.submitted.push(task);
        proof {
            lemma_jobs_push(old(self).channel@, Message::NewJob(task));
            lemma_terminates_push(old(self).channel@, Message::NewJob(task));
            assert(self.started@ + jobs_of(self.channel@) =~= self.submitted@);
        }
        Ok(())
    }

    /// One worker takes the receive lock just long enough to take the
    /// oldest message, if any, and is told what to do with it: execute the
    /// job, or exit on the terminate signal. Returns `None` when nothing is
    /// waiting — a real worker blocks at that point. Only an idle worker
    /// receives: a busy one is executing, a terminated one is gone.
    pub fn try_receive(&mut self, worker_id: usize) -> (r: Option<Action>)
        requires
            old(self).wf(),
            worker_id < old(self).workers@.len(),
            old(self).workers@[worker_id as int].state is Idle,
        ensures
            final(self).wf(),
            match r {
                Option::None => old(self).channel@.len() == 0 && state_eq(
                    *old(self),
                    *final(self),
                ),
                Option::Some(a) => match a {
                    Action::Execute(t) => dispatch_step(
                        *old(self),
                        *final(self),
                        worker_id as int,
                        t,
                    ),
                    Action::Exit => exit_step(*old(self), *final(self), worker_id as int),
                },
            },
    {
        match self.channel.recv() {
            None => None,
            Some(Message::NewJob(t)) => {
                let id = self.workers[worker_id].id;
                self.workers.set(
                    worker_id,
                    Worker { id, state: WorkerState::Busy(t) },
                );
                self.started.push(t);
                proof {
                    let pre = *old(self);
                    let w = worker_id as int;
                    lemma_busy_tasks_dispatch(pre.workers@, w, self.workers@[w], t);
                    lemma_terminated_count_update(pre.workers@, w, self.workers@[w]);
                    assert(busy_tasks(self.workers@) == busy_tasks(pre.workers@).insert(t));
                    assert(self.started@.to_multiset() == pre.started@.to_multiset().insert(t));
                    assert(jobs_of(pre.channel@) =~= seq![t] + jobs_of(self.channel@));
                    assert(self.started@ + jobs_of(self.channel@) =~= self.submitted@);
                    assert forall|v: TaskId|
                        self.completed@.to_multiset().add(busy_tasks(self.workers@)).count(v)
                            == self.started@.to_multiset().count(v) by {
                        assert(self.completed@.to_multiset().add(busy_tasks(self.workers@)).count(
                            v,
                        ) == self.completed@.to_multiset().count(v) + busy_tasks(
                            self.workers@,
                        ).count(v));
                        assert(pre.completed@.to_multiset().add(busy_tasks(pre.workers@)).count(v)
                            == pre.completed@.to_multiset().count(v) + busy_tasks(
                            pre.workers@,
                        ).count(v));
                        assert(busy_tasks(pre.workers@).insert(t).count(v) == busy_tasks(
                            pre.workers@,
                        ).count(v) + Multiset::<TaskId>::singleton(t).count(v));
                        assert(pre.started@.to_multiset().insert(t).count(v)
                            == pre.started@.to_multiset().count(v) + Multiset::<TaskId>::singleton(
                            t,
                        ).count(v));
                    }
                    assert(self.completed@.to_multiset().add(busy_tasks(self.workers@))
                        =~= self.started@.to_multiset());
                    if pre.workers@.len() == 1 {
                        assert(self.completed@ + task_of(self.workers@[0].state)
                            =~= self.started@);
                    }
                }
                Some(Action::Execute(t))
            },
            Some(Message::Terminate) => {
                let id = self.workers[worker_id].id;
                self.workers.set(
                    worker_id,
                    Worker { id, state: WorkerState::Terminated },
                );
                proof {
                    let pre = *old(self);
                    let w = worker_id as int;
                    lemma_busy_tasks_unchanged(pre.workers@, w, self.workers@[w]);
                    lemma_terminated_count_update(pre.workers@, w, self.workers@[w]);
                    assert(busy_tasks(self.workers@) == busy_tasks(pre.workers@));
                    assert(jobs_of(pre.channel@) =~= jobs_of(self.channel@));
                    assert(self.started@ + jobs_of(self.channel@) =~= self.submitted@);
                    assert(self.completed@.to_multiset().add(busy_tasks(self.workers@))
                        =~= self.started@.to_multiset());
                }
                Some(Action::Exit)
            },
        }
    }

    /// The worker that was executing a task reports it finished: the task
    /// joins the completed ledger and the worker turns back to the channel.
    /// Returns the completed task.
    pub fn complete(&mut self, worker_id: usize) -> (t: TaskId)
        requires
            old(self).wf(),
            worker_id < old(self).workers@.len(),
            old(self).workers@[worker_id as int].state is Busy,
        ensures
            final(self).wf(),
            old(self).workers@[worker_id as int].state == WorkerState::Busy(t),
            complete_step(*old(self), *final(self), worker_id as int, t),
    {
        let w = self.workers[worker_id];
        match w.state {
            WorkerState::Busy(t) => {
                self.workers.set(worker_id, Worker { id: w.id, state: WorkerState::Idle });
                self.completed.push(t);
                proof {
                    let pre = *old(self);
                    let wi = worker_id as int;
                    lemma_busy_tasks_complete(pre.workers@, wi, self.workers@[wi], t);
                    lemma_terminated_count_update(pre.workers@, wi, self.workers@[wi]);
                    assert(busy_tasks(self.workers@).insert(t) == busy_tasks(pre.workers@));
                    assert(self.completed@.to_multiset() == pre.completed@.to_multiset().insert(
                        t,
                    ));
                    assert forall|v: TaskId|
                        self.completed@.to_multiset().add(busy_tasks(self.workers@)).count(v)
                            == self.started@.to_multiset().count(v) by {
                        assert(self.completed@.to_multiset().add(busy_tasks(self.workers@)).count(
                            v,
                        ) == self.completed@.to_multiset().count(v) + busy_tasks(
                            self.workers@,
                        ).count(v));
                        assert(pre.completed@.to_multiset().add(busy_tasks(pre.workers@)).count(v)
                            == pre.completed@.to_multiset().count(v) + busy_tasks(
                            pre.workers@,
                        ).count(v));
                        assert(busy_tasks(self.workers@).insert(t).count(v) == busy_tasks(
                            self.workers@,
                        ).count(v) + Multiset::<TaskId>::singleton(t).count(v));
                        assert(pre.completed@.to_multiset().insert(t).count(v)
                            == pre.completed@.to_multiset().count(v) + Multiset::<TaskId>::singleton(
                            t,
                        ).count(v));
                    }
                    assert(self.completed@.to_multiset().add(busy_tasks(self.workers@))
                        =~= self.started@.to_multiset());
                    if pre.workers@.len() == 1 {
                        assert(self.completed@ + task_of(self.workers@[0].state)
                            =~= self.started@);
                    }
                }
                t
            },
            _ => vstd::pervasive::unreached(),
        }
    }

    /// Begin shutdown: enqueue one terminate signal per worker, behind
    /// every message in flight. The channel is first-in-first-out, so every
    /// job already submitted is dispatched before any worker sees a signal.
    /// Refused, changing nothing, when shutdown has already begun.
    pub fn shutdown_request(&mut self) -> (r: Result<(), PoolError>)
        requires
            old(self).wf(),
        ensures
            final(self).wf(),
            !old(self).shutdown_requested ==> r is Ok && shutdown_step(*old(self), *final(self)),
            old(self).shutdown_requested ==> ({
                &&& r matches Err(e)
                &&& e == PoolError::ShutDown
                &&& state_eq(*old(self), *final(self))
            }),
    {
        if self.shutdown_requested {
            return Err(PoolError::ShutDown);
        }
        let n = self.workers.len();
        let mut k: usize = 0;
        while k < n
            invariant
                k <= n,
                n == self.workers@.len(),
                self.workers@ =~= old(self).workers@,
                self.submitted@ =~= old(self).submitted@,
                self.started@ =~= old(self).started@,
                self.completed@ =~= old(self).completed@,
                self.shutdown_requested == false,
                self.channel@ =~= old(self).channel@ + Seq::new(
                    k as nat,
                    |i: int| Message::Terminate,
                ),
                jobs_of(self.channel@) =~= jobs_of(old(self).channel@),
                terminates_of(self.channel@) == terminates_of(old(self).channel@) + k,
            decreases n - k,
        {
            let ghost before = self.channel@;
            self.channel.send(Message::Terminate);
            proof {
                lemma_jobs_push(before, Message::Terminate);
                lemma_terminates_push(before, Message::Terminate);
            }
            k = k + 1;
        }
        self.shutdown_requested = true;
        proof {
            assert(terminates_of(old(self).channel@) + terminated_count(old(self).workers@)
                == 0);
            assert(self.started@ + jobs_of(self.channel@) =~= self.submitted@);
        }
        Ok(())
    }

    /// True exactly when every worker has exited its loop.
    pub fn all_terminated(&self) -> (b: bool)
        ensures
            b == (forall|i: int|
                0 <= i < self.workers@.len() ==> (#[trigger] self.workers@[i]).state
                    is Terminated),
    {
        let mut k: usize = 0;
        while k < self.workers.len()
            invariant
                k <= self.workers@.len(),
                forall|i: int| 0 <= i < k ==> (#[trigger] self.workers@[i]).state is Terminated,
            decreases self.workers@.len() - k,
        {
            match self.workers[k].state {
                WorkerState::Terminated => {
                    k = k + 1;
                },
                _ => {
                    return false;
                },
            }
        }
        true
    }
}

} // verus!
