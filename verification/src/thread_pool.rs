//! The work-dispatch engine: a pool with a fixed worker count and one
//! FIFO job queue. Jobs are submitted fire-and-forget; disposal closes
//! the queue and hands every accepted job out for execution, in
//! submission order, exactly once. Submissions made after disposal has
//! begun are dropped silently rather than failing.
//!
//! The pool here is the engine's sequential core: it decides which jobs
//! are accepted and in what order they are delivered. Running the
//! delivered jobs on operating-system threads is left to the embedding
//! program, which drains the pool with `dispose` and executes the jobs
//! it is handed.
use vstd::prelude::*;

use crate::Config;

verus! {

broadcast use vstd::seq::group_seq_axioms;

/// One unit of deferred work: search one file. The configuration's
/// `file_path` holds the fully resolved path of that file, captured at
/// submission time so that no job depends on an ambient working
/// directory.
pub struct Job {
    /// The configuration the job runs with.
    pub config: Config,
}

/// A fixed-size worker pool with one FIFO job queue.
pub struct ThreadPool {
    worker_count: usize,
    open: bool,
    queue: Vec<Job>,
    accepted: Ghost<Seq<Job>>,
}

impl ThreadPool {
    /// The number of workers the pool was created with.
    pub closed spec fn worker_count(&self) -> int {
        self.worker_count as int
    }

    /// Whether the queue still accepts submissions.
    pub closed spec fn is_open(&self) -> bool {
        self.open
    }

    /// The jobs waiting to be delivered, in submission order.
    pub closed spec fn pending(&self) -> Seq<Job> {
        self.queue@
    }

    /// Every job accepted since the pool was created, in submission
    /// order.
    pub closed spec fn submitted(&self) -> Seq<Job> {
        self.accepted@
    }

    /// The pool's invariant: at least one worker, and while the queue is
    /// open every accepted job is still pending; once closed, nothing is.
    pub closed spec fn wf(&self) -> bool {
        &&& self.worker_count >= 1
        &&& (self.open ==> self.queue@ == self.accepted@)
        &&& (!self.open ==> self.queue@.len() == 0)
    }

    /// Create a new pool with `size` workers. A pool of zero workers is
    /// a precondition violation, mirroring the fatal rejection at
    /// construction time.
    pub fn new(size: usize) -> (p: ThreadPool)
        requires
            size >= 1,
        ensures
            p.wf(),
            p.worker_count() == size,
            p.is_open(),
            p.submitted() == Seq::<Job>::empty(),
            p.pending() == Seq::<Job>::empty(),
    {
        ThreadPool { worker_count: size, open: true, queue: Vec::new(), accepted: Ghost(Seq::empty()) }
    }

    /// Submit a job. Never blocks on the job's completion. While the
    /// pool is open the job is queued; once disposal has begun the job
    /// is dropped silently and the pool is left exactly as it was.
    pub fn execute(&mut self, job: Job)
        requires
            old(self).wf(),
        ensures
            final(self).wf(),
            final(self).worker_count() == old(self).worker_count(),
            final(self).is_open() == old(self).is_open(),
            old(self).is_open() ==> {
                &&& final(self).submitted() == old(self).submitted().push(job)
                &&& final(self).pending() == old(self).pending().push(job)
            },
            !old(self).is_open() ==> *final(self) == *old(self),
    {
        if self.open {
            self.queue.push(job);
            proof {
                self.accepted@ = self.accepted@.push(job);
            }
        }
    }

    /// Dispose of the pool: close the queue and hand back the pending
    /// jobs in FIFO submission order, for the embedding program to run.
    /// On an open pool this is every accepted job, each exactly once; a
    /// second disposal finds nothing left and returns an empty batch.
    pub fn dispose(&mut self) -> (jobs: Vec<Job>)
        requires
            old(self).wf(),
        ensures
            final(self).wf(),
            !final(self).is_open(),
            final(self).worker_count() == old(self).worker_count(),
            final(self).submitted() == old(self).submitted(),
            final(self).pending() == Seq::<Job>::empty(),
            jobs@ == old(self).pending(),
            old(self).is_open() ==> jobs@ == old(self).submitted(),
    {
        self.open = false;
        let mut jobs: Vec<Job> = Vec::new();
        core::mem::swap(&mut jobs, &mut self.queue);
        jobs
    }
}

/// Every job accepted by an open pool is still pending, exactly once
/// and in submission order: together with the contract of `dispose`,
/// disposal delivers each submitted job exactly once.
pub proof fn lemma_open_pool_retains_all(p: ThreadPool)
    requires
        p.wf(),
        p.is_open(),
    ensures
        p.pending() == p.submitted(),
{
}

/// The lifecycle of one worker: it waits for a job, executes it, and
/// waits again, until the closed and drained queue tells it to
/// terminate.
#[derive(Clone, Copy, PartialEq, Eq, Debug, Structural)]
pub enum WorkerState {
    /// Blocked on the queue, ready to receive.
    Waiting,
    /// Running the job it received.
    Executing,
    /// Exited its receive loop; it never runs again.
    Terminated,
}

/// The worker's transition relation. While waiting, receiving a job
/// starts execution and end-of-stream terminates the worker; an
/// executing worker finishes its job and returns to waiting, whatever
/// arrives meanwhile; a terminated worker never changes state again.
pub open spec fn worker_next(s: WorkerState, received: Option<Job>) -> WorkerState {
    match s {
        WorkerState::Waiting => if received is Some {
            WorkerState::Executing
        } else {
            WorkerState::Terminated
        },
        WorkerState::Executing => WorkerState::Waiting,
        WorkerState::Terminated => WorkerState::Terminated,
    }
}

/// One step of the worker loop: the state after `received` arrives,
/// together with the job to run now, if any.
pub fn worker_step(state: WorkerState, received: Option<Job>) -> (r: (WorkerState, Option<Job>))
    ensures
        r.0 == worker_next(state, received),
        r.1 is Some <==> (state is Waiting && received is Some),
        (state is Waiting && received is Some) ==> r.1 == received,
{
    match state {
        WorkerState::Waiting => match received {
            Some(job) => (WorkerState::Executing, Some(job)),
            None => (WorkerState::Terminated, None),
        },
        WorkerState::Executing => (WorkerState::Waiting, None),
        WorkerState::Terminated => (WorkerState::Terminated, None),
    }
}

/// A terminated worker never re-enters the waiting or executing state.
pub proof fn lemma_terminated_is_final(received: Option<Job>)
    ensures
        worker_next(WorkerState::Terminated, received) == WorkerState::Terminated,
{
}

} // verus!
