//! What a thread pool is and does, as a transition system, and what holds of
//! every state that it can be in.
use vstd::prelude::*;

verus! {

/// What travels through the job queue.
pub enum Message<J> {
    /// A job to run.
    NewJob(J),
    /// The worker that takes this stops.
    Shutdown,
}

/// What a worker is doing.
#[derive(Clone, Copy, Debug, PartialEq, Eq, Structural)]
pub enum WorkerState {
    /// It is about to take a message from the queue.
    Idle,
    /// It is running a job.
    Running,
    /// It has stopped for good.
    Exited,
}

/// How many workers are in `state`.
pub open spec fn tally(workers: Seq<WorkerState>, state: WorkerState) -> int
    decreases workers.len(),
{
    if workers.len() == 0 {
        0
    } else {
        tally(workers.drop_last(), state) + (if workers.last() == state {
            1int
        } else {
            0int
        })
    }
}

/// What a pool is. Jobs are numbered in the order of their submission.
pub struct PoolView<J> {
    /// The workers.
    pub workers: Seq<WorkerState>,
    /// The job queue, the next message first.
    pub queue: Seq<Message<J>>,
    /// The count of jobs that are not finished.
    pub active: int,
    /// The sending end of the queue still exists.
    pub connected: bool,
    /// The shutdown tokens have been sent.
    pub stopping: bool,
    /// Every job ever submitted.
    pub submitted: Seq<J>,
    /// How many of them a worker has taken.
    pub started: int,
    /// For each running worker, the number of its job.
    pub tickets: Seq<int>,
    /// The numbers of the jobs that have run to their end, normally or by a
    /// panic.
    pub finished: Set<int>,
}

impl<J> PoolView<J> {
    /// A pool of `size` idle workers with nothing to do.
    pub open spec fn initial(size: int) -> PoolView<J> {
        PoolView {
            workers: Seq::new(size as nat, |i: int| WorkerState::Idle),
            queue: Seq::empty(),
            active: 0,
            connected: true,
            stopping: false,
            submitted: Seq::empty(),
            started: 0,
            tickets: Seq::new(size as nat, |i: int| 0int),
            finished: Set::empty(),
        }
    }

    /// How many jobs are waiting in the queue.
    pub open spec fn pending(self) -> int {
        self.submitted.len() - self.started
    }

    /// How many shutdown tokens are waiting in the queue.
    pub open spec fn tokens(self) -> int {
        self.queue.len() - self.pending()
    }

    /// Worker `w` is in `state`.
    pub open spec fn worker_is(self, w: int, state: WorkerState) -> bool {
        0 <= w < self.workers.len() && self.workers[w] == state
    }

    /// The queue holds the jobs not yet taken, in the order of their submission,
    /// and behind them the shutdown tokens.
    pub open spec fn queue_in_order(self) -> bool {
        &&& 0 <= self.started <= self.submitted.len()
        &&& self.pending() <= self.queue.len()
        &&& forall|i: int|
            0 <= i < self.pending() ==> #[trigger] self.queue[i] == Message::NewJob(
                self.submitted[self.started + i],
            )
        &&& forall|i: int|
            self.pending() <= i < self.queue.len() ==> #[trigger] self.queue[i]
                == Message::<J>::Shutdown
    }

    /// Every job that was taken is either finished or being run, by one worker.
    pub open spec fn jobs_accounted(self) -> bool {
        &&& forall|w: int|
            #[trigger] self.worker_is(w, WorkerState::Running) ==> 0 <= self.tickets[w] < self.started
                && !self.finished.contains(self.tickets[w])
        &&& forall|v: int, w: int|
            #[trigger] self.worker_is(v, WorkerState::Running) && #[trigger] self.worker_is(
                w,
                WorkerState::Running,
            ) && v != w ==> self.tickets[v] != self.tickets[w]
        &&& forall|k: int|
            0 <= k < self.started && !(#[trigger] self.finished.contains(k)) ==> exists|w: int|
                #[trigger] self.worker_is(w, WorkerState::Running) && self.tickets[w] == k
        &&& forall|k: int| #[trigger] self.finished.contains(k) ==> 0 <= k < self.started
    }

    /// There is one shutdown token for each worker that has not taken one; and
    /// no worker has stopped while a job was waiting.
    pub open spec fn exits_in_order(self) -> bool {
        &&& self.stopping ==> self.tokens() + tally(self.workers, WorkerState::Exited)
            == self.workers.len()
        &&& !self.stopping ==> self.tokens() == 0
        &&& tally(self.workers, WorkerState::Exited) > 0 ==> self.pending() == 0 && (self.stopping
            || !self.connected)
    }

    /// The invariant of the pool.
    pub open spec fn wf(self) -> bool {
        &&& self.workers.len() > 0
        &&& self.tickets.len() == self.workers.len()
        &&& self.queue_in_order()
        &&& self.active == self.pending() + tally(self.workers, WorkerState::Running)
        &&& self.jobs_accounted()
        &&& self.exits_in_order()
    }

    /// The pool takes jobs: nothing has told it to stop.
    pub open spec fn accepting(self) -> bool {
        self.connected && !self.stopping
    }

    /// A job is submitted.
    pub open spec fn submit(self, job: J) -> PoolView<J> {
        PoolView {
            queue: self.queue.push(Message::NewJob(job)),
            active: self.active + 1,
            submitted: self.submitted.push(job),
            ..self
        }
    }

    /// A worker that asks for a message has to wait.
    pub open spec fn must_wait(self) -> bool {
        self.queue.len() == 0 && self.connected
    }

    /// The next message is a job.
    pub open spec fn job_is_next(self) -> bool {
        self.queue.len() > 0 && self.queue[0] is NewJob
    }

    /// Worker `w` takes the next job.
    pub open spec fn begin(self, w: int) -> PoolView<J> {
        PoolView {
            workers: self.workers.update(w, WorkerState::Running),
            queue: self.queue.skip(1),
            started: self.started + 1,
            tickets: self.tickets.update(w, self.started),
            ..self
        }
    }

    /// Worker `w` takes a shutdown token, or finds the queue empty and its
    /// sending end gone, and stops.
    pub open spec fn exit(self, w: int) -> PoolView<J> {
        PoolView {
            workers: self.workers.update(w, WorkerState::Exited),
            queue: if self.queue.len() > 0 {
                self.queue.skip(1)
            } else {
                self.queue
            },
            ..self
        }
    }

    /// The job of worker `w` ends.
    pub open spec fn finish(self, w: int) -> PoolView<J> {
        PoolView {
            workers: self.workers.update(w, WorkerState::Idle),
            active: self.active - 1,
            finished: self.finished.insert(self.tickets[w]),
            ..self
        }
    }

    /// One shutdown token for each worker is sent.
    pub open spec fn shut_down(self) -> PoolView<J> {
        PoolView {
            queue: self.queue + Seq::new(self.workers.len(), |i: int| Message::<J>::Shutdown),
            stopping: true,
            ..self
        }
    }

    /// The sending end of the queue goes away.
    pub open spec fn disconnected(self) -> PoolView<J> {
        PoolView { connected: false, ..self }
    }
}

/// Changing one worker's state moves one unit of the tally.
pub(crate) proof fn lemma_tally_update(
    workers: Seq<WorkerState>,
    w: int,
    new: WorkerState,
    state: WorkerState,
)
    requires
        0 <= w < workers.len(),
    ensures
        tally(workers.update(w, new), state) == tally(workers, state) - (if workers[w] == state {
            1int
        } else {
            0int
        }) + (if new == state {
            1int
        } else {
            0int
        }),
    decreases workers.len(),
{
    let updated = workers.update(w, new);
    if w == workers.len() - 1 {
        assert(updated.drop_last() =~= workers.drop_last());
    } else {
        assert(updated.drop_last() =~= workers.drop_last().update(w, new));
        lemma_tally_update(workers.drop_last(), w, new, state);
    }
}

/// The tally of a state is between zero and the number of workers; it is zero
/// just where no worker is in that state, and full just where all are.
pub(crate) proof fn lemma_tally_bounds(workers: Seq<WorkerState>, state: WorkerState)
    ensures
        0 <= tally(workers, state) <= workers.len(),
        tally(workers, state) == 0 <==> forall|w: int|
            0 <= w < workers.len() ==> #[trigger] workers[w] != state,
        tally(workers, state) == workers.len() <==> forall|w: int|
            0 <= w < workers.len() ==> #[trigger] workers[w] == state,
    decreases workers.len(),
{
    if workers.len() > 0 {
        let rest = workers.drop_last();
        lemma_tally_bounds(rest, state);
        let last = workers.len() - 1;
        if tally(workers, state) == 0 {
            assert forall|w: int| 0 <= w < workers.len() implies #[trigger] workers[w] != state by {
                if w < last {
                    assert(rest[w] != state);
                }
            }
        } else if tally(rest, state) > 0 {
            let w = choose|w: int| 0 <= w < rest.len() && #[trigger] rest[w] == state;
            assert(workers[w] == state);
        } else {
            assert(workers[last] == state);
        }
        if tally(workers, state) == workers.len() {
            assert forall|w: int| 0 <= w < workers.len() implies #[trigger] workers[w] == state by {
                if w < last {
                    assert(rest[w] == state);
                }
            }
        } else if tally(rest, state) < rest.len() {
            let w = choose|w: int| 0 <= w < rest.len() && #[trigger] rest[w] != state;
            assert(workers[w] != state);
        } else {
            assert(workers[last] != state);
        }
    }
}

/// Every worker is in one of the three states.
pub(crate) proof fn lemma_tally_total(workers: Seq<WorkerState>)
    ensures
        tally(workers, WorkerState::Idle) + tally(workers, WorkerState::Running) + tally(
            workers,
            WorkerState::Exited,
        ) == workers.len(),
    decreases workers.len(),
{
    if workers.len() > 0 {
        lemma_tally_total(workers.drop_last());
    }
}

/// Where the same workers run the same jobs, the same jobs are accounted for.
proof fn lemma_same_jobs<J>(before: PoolView<J>, after: PoolView<J>)
    requires
        before.jobs_accounted(),
        forall|w: int| #[trigger]
            before.worker_is(w, WorkerState::Running) <==> after.worker_is(
                w,
                WorkerState::Running,
            ),
        after.tickets == before.tickets,
        after.started == before.started,
        after.finished == before.finished,
    ensures
        after.jobs_accounted(),
{
    assert forall|w: int| #[trigger] after.worker_is(w, WorkerState::Running) implies 0
        <= after.tickets[w] < after.started && !after.finished.contains(after.tickets[w]) by {
        assert(before.worker_is(w, WorkerState::Running));
    }
    assert forall|v: int, w: int|
        #[trigger] after.worker_is(v, WorkerState::Running) && #[trigger] after.worker_is(
            w,
            WorkerState::Running,
        ) && v != w implies after.tickets[v] != after.tickets[w] by {
        assert(before.worker_is(v, WorkerState::Running));
        assert(before.worker_is(w, WorkerState::Running));
    }
    assert forall|k: int|
        0 <= k < after.started && !(#[trigger] after.finished.contains(k)) implies exists|w: int|
        #[trigger] after.worker_is(w, WorkerState::Running) && after.tickets[w] == k by {
        let w = choose|w: int| #[trigger]
            before.worker_is(w, WorkerState::Running) && before.tickets[w] == k;
        assert(after.worker_is(w, WorkerState::Running));
    }
}

/// A new pool is well formed.
pub(crate) proof fn lemma_initial_wf<J>(size: int)
    requires
        size > 0,
    ensures
        PoolView::<J>::initial(size).wf(),
{
    let pool = PoolView::<J>::initial(size);
    lemma_tally_bounds(pool.workers, WorkerState::Running);
    lemma_tally_bounds(pool.workers, WorkerState::Exited);
}

/// Submitting a job keeps the pool well formed.
pub(crate) proof fn lemma_submit_wf<J>(pool: PoolView<J>, job: J)
    requires
        pool.wf(),
        pool.accepting(),
    ensures
        pool.submit(job).wf(),
{
    let after = pool.submit(job);
    lemma_tally_bounds(pool.workers, WorkerState::Exited);
    lemma_same_jobs(pool, after);
}

/// Taking a job keeps the pool well formed.
pub(crate) proof fn lemma_begin_wf<J>(pool: PoolView<J>, w: int)
    requires
        pool.wf(),
        pool.worker_is(w, WorkerState::Idle),
        pool.job_is_next(),
    ensures
        pool.pending() > 0,
        pool.queue[0] == Message::NewJob(pool.submitted[pool.started]),
        pool.begin(w).wf(),
{
    let after = pool.begin(w);
    assert(pool.pending() > 0);
    lemma_tally_update(pool.workers, w, WorkerState::Running, WorkerState::Running);
    lemma_tally_update(pool.workers, w, WorkerState::Running, WorkerState::Exited);
    assert forall|v: int| #[trigger]
        after.worker_is(v, WorkerState::Running) && v != w implies pool.worker_is(
        v,
        WorkerState::Running,
    ) by {}
    assert forall|k: int|
        0 <= k < after.started && !(#[trigger] after.finished.contains(k)) implies exists|v: int|
        #[trigger] after.worker_is(v, WorkerState::Running) && after.tickets[v] == k by {
        if k == pool.started {
            assert(after.worker_is(w, WorkerState::Running));
        } else {
            let v = choose|v: int| #[trigger]
                pool.worker_is(v, WorkerState::Running) && pool.tickets[v] == k;
            assert(after.worker_is(v, WorkerState::Running));
        }
    }
    assert forall|i: int| 0 <= i < after.pending() implies #[trigger] after.queue[i]
        == Message::NewJob(after.submitted[after.started + i]) by {
        assert(after.queue[i] == pool.queue[i + 1]);
    }
    assert forall|i: int| after.pending() <= i < after.queue.len() implies #[trigger] after.queue[i]
        == Message::<J>::Shutdown by {
        assert(after.queue[i] == pool.queue[i + 1]);
    }
}

/// A worker that stops leaves the pool well formed.
pub(crate) proof fn lemma_exit_wf<J>(pool: PoolView<J>, w: int)
    requires
        pool.wf(),
        pool.worker_is(w, WorkerState::Idle),
        !pool.must_wait(),
        !pool.job_is_next(),
    ensures
        pool.pending() == 0,
        pool.exit(w).wf(),
{
    let after = pool.exit(w);
    if pool.pending() > 0 {
        assert(pool.queue[0] == Message::NewJob(pool.submitted[pool.started + 0]));
    }
    lemma_tally_update(pool.workers, w, WorkerState::Exited, WorkerState::Running);
    lemma_tally_update(pool.workers, w, WorkerState::Exited, WorkerState::Exited);
    lemma_tally_bounds(pool.workers, WorkerState::Exited);
    lemma_same_jobs(pool, after);
    if pool.queue.len() > 0 {
        assert forall|i: int| 0 <= i < after.queue.len() implies #[trigger] after.queue[i]
            == Message::<J>::Shutdown by {
            assert(after.queue[i] == pool.queue[i + 1]);
        }
        assert(pool.stopping);
    }
}

/// The end of a job keeps the pool well formed.
pub(crate) proof fn lemma_finish_wf<J>(pool: PoolView<J>, w: int)
    requires
        pool.wf(),
        pool.worker_is(w, WorkerState::Running),
    ensures
        pool.active > 0,
        pool.finish(w).wf(),
{
    let after = pool.finish(w);
    lemma_tally_bounds(pool.workers, WorkerState::Running);
    lemma_tally_update(pool.workers, w, WorkerState::Idle, WorkerState::Running);
    lemma_tally_update(pool.workers, w, WorkerState::Idle, WorkerState::Exited);
    assert forall|v: int| #[trigger]
        after.worker_is(v, WorkerState::Running) implies pool.worker_is(v, WorkerState::Running)
        && v != w by {}
    assert forall|k: int|
        0 <= k < after.started && !(#[trigger] after.finished.contains(k)) implies exists|v: int|
        #[trigger] after.worker_is(v, WorkerState::Running) && after.tickets[v] == k by {
        assert(!pool.finished.contains(k));
        let v = choose|v: int| #[trigger]
            pool.worker_is(v, WorkerState::Running) && pool.tickets[v] == k;
        assert(after.worker_is(v, WorkerState::Running));
    }
}

/// Sending the shutdown tokens keeps the pool well formed.
pub(crate) proof fn lemma_shut_down_wf<J>(pool: PoolView<J>)
    requires
        pool.wf(),
        pool.accepting(),
    ensures
        pool.shut_down().wf(),
{
    let after = pool.shut_down();
    lemma_tally_bounds(pool.workers, WorkerState::Exited);
    lemma_same_jobs(pool, after);
}

/// Losing the sending end keeps the pool well formed.
pub(crate) proof fn lemma_disconnected_wf<J>(pool: PoolView<J>)
    requires
        pool.wf(),
    ensures
        pool.disconnected().wf(),
{
    let after = pool.disconnected();
    lemma_same_jobs(pool, after);
}

} // verus!
