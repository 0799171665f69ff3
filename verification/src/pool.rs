//! The coordination of a fixed-size thread pool: the job queue, the count of
//! unfinished jobs, and what each worker does next. Threads, locks and the
//! running of jobs are the caller's; each call here is one step that the
//! caller makes under its lock.
use crate::job::{Job, JobHandle};
use crate::pool_model::{Message, PoolView, WorkerState};
use crate::text::{panic_report, PanicPayload};
use std::collections::VecDeque;
use std::sync::mpsc::channel;
use vstd::prelude::*;

verus! {

/// What a worker does next.
pub enum Next<J> {
    /// Wait until something is put into the queue, then ask again.
    Wait,
    /// Run this job and report its end.
    Run(J),
    /// Stop.
    Exit,
}

/// What is to be done after a job has ended.
pub struct Completion {
    /// A line to log.
    pub report: Option<String>,
    /// No job is left: whoever waits for that is to be woken.
    pub all_done: bool,
}

/// What a thread that waits for all jobs does next.
#[derive(Clone, Copy, Debug, PartialEq, Eq, Structural)]
pub enum JoinStep {
    /// Wait until it is woken, then ask again.
    Wait,
    /// Go on: every job submitted has finished.
    Done,
}

/// A fixed-size pool of workers that run submitted jobs. `J` is a job in the
/// form in which a worker runs it.
pub struct ThreadPool<J> {
    workers: Vec<WorkerState>,
    queue: VecDeque<Message<J>>,
    active_jobs: usize,
    connected: bool,
    stopping: bool,
    submitted: Ghost<Seq<J>>,
    started: Ghost<int>,
    tickets: Ghost<Seq<int>>,
    finished: Ghost<Set<int>>,
}

impl<J> View for ThreadPool<J> {
    type V = PoolView<J>;

    closed spec fn view(&self) -> PoolView<J> {
        PoolView {
            workers: self.workers@,
            queue: self.queue@,
            active: self.active_jobs as int,
            connected: self.connected,
            stopping: self.stopping,
            submitted: self.submitted@,
            started: self.started@,
            tickets: self.tickets@,
            finished: self.finished@,
        }
    }
}

impl<J> ThreadPool<J> {
    /// A pool of `size` workers. There must be at least one: a pool without
    /// workers could never make progress on anything submitted to it.
    pub fn new(size: usize) -> (pool: ThreadPool<J>)
        requires
            size > 0,
        ensures
            pool@.wf(),
            pool@ == PoolView::<J>::initial(size as int),
            pool@.workers.len() == size,
            forall|w: int| 0 <= w < size ==> pool@.workers[w] == WorkerState::Idle,
            pool@.queue.len() == 0,
            pool@.submitted.len() == 0,
            pool@.active == 0,
            pool@.started == 0,
            pool@.finished == Set::<int>::empty(),
            pool@.connected,
            !pool@.stopping,
    {
        let mut workers: Vec<WorkerState> = Vec::new();
        let mut id: usize = 0;
        while id < size
            invariant
                id <= size,
                workers@.len() == id,
                forall|w: int| 0 <= w < id ==> workers@[w] == WorkerState::Idle,
            decreases size - id,
        {
            workers.push(WorkerState::Idle);
            id = id + 1;
        }
        let pool = ThreadPool {
            workers,
            queue: VecDeque::new(),
            active_jobs: 0,
            connected: true,
            stopping: false,
            submitted: Ghost(Seq::empty()),
            started: Ghost(0),
            tickets: Ghost(Seq::new(size as nat, |i: int| 0int)),
            finished: Ghost(Set::empty()),
        };
        proof {
            crate::pool_model::lemma_initial_wf::<J>(size as int);
            assert(pool@.workers =~= PoolView::<J>::initial(size as int).workers);
        }
        pool
    }

    /// Submits `work`, in the form that `pack` gives it, and returns the handle
    /// that its result comes back by.
    pub fn execute<F, T, W>(&mut self, work: F, pack: W) -> (handle: JobHandle<T>) where
        F: FnOnce() -> T,
        W: FnOnce(Job<F, T>) -> J,

        requires
            old(self)@.wf(),
            old(self)@.accepting(),
            old(self)@.active < usize::MAX,
            forall|job: Job<F, T>| job.work() == work ==> #[trigger] pack.requires((job,)),
        ensures
            final(self)@.wf(),
            exists|job: Job<F, T>, packed: J|
                {
                    &&& job.work() == work
                    &&& #[trigger] pack.ensures((job,), packed)
                    &&& call_ensures(channel::<T>, (), (job.results(), handle.receiver()))
                    &&& final(self)@ == old(self)@.submit(packed)
                    &&& final(self)@.queue == old(self)@.queue.push(Message::NewJob(packed))
                    &&& final(self)@.submitted == old(self)@.submitted.push(packed)
                },
            final(self)@.active == old(self)@.active + 1,
            final(self)@.workers == old(self)@.workers,
            final(self)@.tickets == old(self)@.tickets,
            final(self)@.started == old(self)@.started,
            final(self)@.finished == old(self)@.finished,
            final(self)@.connected == old(self)@.connected,
            final(self)@.stopping == old(self)@.stopping,
    {
        let (job, handle) = Job::new(work);
        let ghost made = job;
        let packed = pack(job);
        assert(pack.ensures((made,), packed));
        self.active_jobs = self.active_jobs + 1;
        proof {
            crate::pool_model::lemma_submit_wf(old(self)@, packed);
        }
        self.submitted = Ghost(self.submitted@.push(packed));
        self.queue.push_back(Message::NewJob(packed));
        assert(self@ == old(self)@.submit(packed));
        handle
    }

    /// Worker `id` asks for its next message.
    pub fn next(&mut self, id: usize) -> (next: Next<J>)
        requires
            old(self)@.wf(),
            old(self)@.worker_is(id as int, WorkerState::Idle),
        ensures
            final(self)@.wf(),
            match next {
                Next::Wait => old(self)@.must_wait() && final(self)@ == old(self)@,
                Next::Run(job) => {
                    &&& old(self)@.job_is_next()
                    &&& old(self)@.queue[0] == Message::NewJob(job)
                    &&& job == old(self)@.submitted[old(self)@.started]
                    &&& final(self)@ == old(self)@.begin(id as int)
                },
                Next::Exit => {
                    &&& !old(self)@.must_wait()
                    &&& !old(self)@.job_is_next()
                    &&& final(self)@ == old(self)@.exit(id as int)
                },
            },
            next is Wait <==> old(self)@.queue.len() == 0 && old(self)@.connected,
            next is Run <==> old(self)@.queue.len() > 0 && old(self)@.queue[0] is NewJob,
            next is Wait ==> final(self)@ == old(self)@,
            old(self)@.started < old(self)@.submitted.len() <==> next is Run,
            crate::pool_laws::answered(old(self)@, id as int, next, final(self)@),
            next matches Next::Run(job) ==> {
                &&& old(self)@.queue[0] == Message::NewJob(job)
                &&& final(self)@.workers == old(self)@.workers.update(
                    id as int,
                    WorkerState::Running,
                )
                &&& final(self)@.tickets == old(self)@.tickets.update(
                    id as int,
                    old(self)@.started,
                )
                &&& final(self)@.started == old(self)@.started + 1
            },
            next is Exit ==> {
                &&& final(self)@.workers == old(self)@.workers.update(
                    id as int,
                    WorkerState::Exited,
                )
                &&& final(self)@.tickets == old(self)@.tickets
                &&& final(self)@.started == old(self)@.started
            },
            final(self)@.queue == (if old(self)@.queue.len() > 0 {
                old(self)@.queue.subrange(1, old(self)@.queue.len() as int)
            } else {
                old(self)@.queue
            }),
            final(self)@.submitted == old(self)@.submitted,
            final(self)@.active == old(self)@.active,
            final(self)@.finished == old(self)@.finished,
            final(self)@.connected == old(self)@.connected,
            final(self)@.stopping == old(self)@.stopping,
    {
        match self.queue.pop_front() {
            Some(Message::NewJob(job)) => {
                proof {
                    crate::pool_model::lemma_begin_wf(old(self)@, id as int);
                }
                self.workers[id] = WorkerState::Running;
                self.tickets = Ghost(self.tickets@.update(id as int, self.started@));
                self.started = Ghost(self.started@ + 1);
                assert(self@.queue =~= old(self)@.queue.skip(1));
                Next::Run(job)
            },
            Some(Message::Shutdown) => {
                proof {
                    crate::pool_model::lemma_exit_wf(old(self)@, id as int);
                }
                self.workers[id] = WorkerState::Exited;
                assert(self@.queue =~= old(self)@.queue.skip(1));
                Next::Exit
            },
            None => {
                if self.connected {
                    Next::Wait
                } else {
                    proof {
                        crate::pool_model::lemma_exit_wf(old(self)@, id as int);
                    }
                    self.workers[id] = WorkerState::Exited;
                    Next::Exit
                }
            },
        }
    }

    /// Worker `id` reports the end of its job: that it returned (`None`), or
    /// what it panicked with. A panic is logged; it takes neither the worker nor
    /// the count of unfinished jobs down with it.
    pub fn finish(&mut self, id: usize, panicked: Option<PanicPayload>) -> (done: Completion)
        requires
            old(self)@.wf(),
            old(self)@.worker_is(id as int, WorkerState::Running),
        ensures
            final(self)@.wf(),
            final(self)@ == old(self)@.finish(id as int),
            final(self)@.workers == old(self)@.workers.update(id as int, WorkerState::Idle),
            final(self)@.active == old(self)@.active - 1,
            final(self)@.finished == old(self)@.finished.insert(old(self)@.tickets[id as int]),
            final(self)@.queue == old(self)@.queue,
            final(self)@.submitted == old(self)@.submitted,
            final(self)@.started == old(self)@.started,
            final(self)@.tickets == old(self)@.tickets,
            final(self)@.connected == old(self)@.connected,
            final(self)@.stopping == old(self)@.stopping,
            done.all_done <==> final(self)@.active == 0,
            match panicked {
                Some(payload) => done.report matches Some(line) && line@
                    == crate::text::panic_line(id as nat, payload),
                None => done.report is None,
            },
    {
        let report: Option<String> = match panicked {
            Some(payload) => Some(panic_report(id, &payload)),
            None => None,
        };
        proof {
            crate::pool_model::lemma_finish_wf(old(self)@, id as int);
        }
        self.active_jobs = self.active_jobs - 1;
        self.workers[id] = WorkerState::Idle;
        self.finished = Ghost(self.finished@.insert(self.tickets@[id as int]));
        Completion { report, all_done: self.active_jobs == 0 }
    }

    /// What a thread does that waits until every job submitted so far has
    /// finished running, whether it returned normally or panicked.
    pub fn join(&self) -> (step: JoinStep)
        requires
            self@.wf(),
        ensures
            step == JoinStep::Done <==> self@.active == 0,
            step == JoinStep::Done <==> forall|k: int|
                0 <= k < self@.submitted.len() ==> #[trigger] self@.finished.contains(k),
    {
        proof {
            crate::pool_laws::idle_iff_all_finished(self@);
        }
        if self.active_jobs != 0 {
            JoinStep::Wait
        } else {
            JoinStep::Done
        }
    }

    /// Number of workers.
    pub fn worker_count(&self) -> (count: usize)
        ensures
            count == self@.workers.len(),
    {
        self.workers.len()
    }

    /// Number of jobs submitted and not finished.
    pub fn active_jobs(&self) -> (count: usize)
        ensures
            count == self@.active,
    {
        self.active_jobs
    }

    /// Whether jobs can be submitted.
    pub fn is_accepting(&self) -> (yes: bool)
        ensures
            yes == self@.accepting(),
            yes <==> self@.connected && !self@.stopping,
    {
        self.connected && !self.stopping
    }

    /// What worker `id` is doing.
    pub fn worker_state(&self, id: usize) -> (state: WorkerState)
        requires
            id < self@.workers.len(),
        ensures
            state == self@.workers[id as int],
    {
        self.workers[id]
    }

    /// Sends one shutdown token for each worker. They land behind every job
    /// already submitted, so the workers run all of those first: when they have
    /// come to rest each has stopped, and no job was abandoned.
    pub fn shutdown(&mut self)
        requires
            old(self)@.wf(),
            old(self)@.accepting(),
        ensures
            final(self)@.wf(),
            final(self)@ == old(self)@.shut_down(),
            final(self)@.queue.len() == old(self)@.queue.len() + old(self)@.workers.len(),
            final(self)@.queue.take(old(self)@.queue.len() as int) == old(self)@.queue,
            forall|i: int|
                old(self)@.queue.len() <= i < final(self)@.queue.len()
                    ==> #[trigger] final(self)@.queue[i] == Message::<J>::Shutdown,
            final(self)@.workers == old(self)@.workers,
            final(self)@.tickets == old(self)@.tickets,
            final(self)@.submitted == old(self)@.submitted,
            final(self)@.started == old(self)@.started,
            final(self)@.finished == old(self)@.finished,
            final(self)@.active == old(self)@.active,
            final(self)@.connected == old(self)@.connected,
            final(self)@.stopping,
            forall|run: Seq<PoolView<J>>| #[trigger]
                crate::pool_laws::at_rest(run) && run[0] == final(self)@ ==> {
                    &&& crate::pool_laws::drained(run.last())
                    &&& run.last().submitted == old(self)@.submitted
                },
    {
        let count: usize = self.workers.len();
        let mut sent: usize = 0;
        while sent < count
            invariant
                sent <= count,
                count == old(self)@.workers.len(),
                self@ == (PoolView {
                    queue: old(self)@.queue + Seq::new(
                        sent as nat,
                        |i: int| Message::<J>::Shutdown,
                    ),
                    ..old(self)@
                }),
            decreases count - sent,
        {
            self.queue.push_back(Message::Shutdown);
            sent = sent + 1;
            assert(self@.queue =~= old(self)@.queue + Seq::new(
                sent as nat,
                |i: int| Message::<J>::Shutdown,
            ));
        }
        self.stopping = true;
        proof {
            crate::pool_model::lemma_shut_down_wf(old(self)@);
            assert forall|run: Seq<PoolView<J>>| #[trigger]
                crate::pool_laws::at_rest(run) && run[0] == old(self)@.shut_down() implies {
                &&& crate::pool_laws::drained(run.last())
                &&& run.last().submitted == old(self)@.submitted
            } by {
                crate::pool_laws::shutdown_runs_every_job(old(self)@, run);
            }
        }
    }

    /// Takes the sending end of the queue away: a worker that finds the queue
    /// empty stops.
    pub fn disconnect(&mut self)
        requires
            old(self)@.wf(),
        ensures
            final(self)@.wf(),
            final(self)@ == old(self)@.disconnected(),
            final(self)@ == (PoolView { connected: false, ..old(self)@ }),
    {
        proof {
            crate::pool_model::lemma_disconnected_wf(old(self)@);
        }
        self.connected = false;
    }
}

} // verus!
