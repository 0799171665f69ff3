//! What holds of every thread pool, however its workers interleave.
use crate::pool::Next;
use crate::pool_model::{Message, PoolView, WorkerState};
use vstd::prelude::*;

verus! {

/// The count of unfinished jobs is zero just where every job ever submitted has
/// run to its end: a thread that waits for zero waits for all of them, and for
/// nothing else.
pub proof fn idle_iff_all_finished<J>(pool: PoolView<J>)
    requires
        pool.wf(),
    ensures
        pool.active == 0 <==> forall|k: int|
            0 <= k < pool.submitted.len() ==> #[trigger] pool.finished.contains(k),
{
    crate::pool_model::lemma_tally_bounds(pool.workers, WorkerState::Running);
    if pool.active == 0 {
        assert forall|k: int| 0 <= k < pool.submitted.len() implies #[trigger]
            pool.finished.contains(k) by {
            if !pool.finished.contains(k) {
                let w = choose|w: int| #[trigger]
                    pool.worker_is(w, WorkerState::Running) && pool.tickets[w] == k;
                assert(pool.workers[w] == WorkerState::Running);
            }
        }
    } else if forall|k: int|
        0 <= k < pool.submitted.len() ==> #[trigger] pool.finished.contains(k) {
        if pool.pending() > 0 {
            assert(pool.finished.contains(pool.started));
        } else {
            let w = choose|w: int|
                0 <= w < pool.workers.len() && #[trigger] pool.workers[w] == WorkerState::Running;
            assert(pool.worker_is(w, WorkerState::Running));
            assert(pool.finished.contains(pool.tickets[w]));
        }
    }
}

/// Jobs start in the order of their submission: the job at the head of the queue
/// is the oldest that was never taken, and the worker that takes it runs that
/// one.
pub proof fn jobs_start_in_order<J>(pool: PoolView<J>, w: int)
    requires
        pool.wf(),
        pool.worker_is(w, WorkerState::Idle),
        pool.job_is_next(),
    ensures
        pool.queue[0] == Message::NewJob(pool.submitted[pool.started]),
        pool.begin(w).wf(),
        pool.begin(w).worker_is(w, WorkerState::Running),
        pool.begin(w).tickets[w] == pool.started,
        pool.begin(w).started == pool.started + 1,
{
    crate::pool_model::lemma_begin_wf(pool, w);
}

/// No job runs twice: a job that a worker runs is neither finished, nor waiting,
/// nor run by another worker.
pub proof fn no_job_runs_twice<J>(pool: PoolView<J>, v: int, w: int)
    requires
        pool.wf(),
        pool.worker_is(v, WorkerState::Running),
        pool.worker_is(w, WorkerState::Running),
    ensures
        !pool.finished.contains(pool.tickets[w]),
        0 <= pool.tickets[w] < pool.started,
        v != w ==> pool.tickets[v] != pool.tickets[w],
{
}

/// When a job ends, by a panic or not, its worker is ready for the next one, and
/// no other worker and nothing in the queue is touched.
pub proof fn a_worker_outlives_its_job<J>(pool: PoolView<J>, w: int, v: int)
    requires
        pool.wf(),
        pool.worker_is(w, WorkerState::Running),
        0 <= v < pool.workers.len(),
    ensures
        pool.finish(w).wf(),
        pool.finish(w).worker_is(w, WorkerState::Idle),
        pool.finish(w).finished.contains(pool.tickets[w]),
        pool.finish(w).active == pool.active - 1,
        v != w ==> pool.finish(w).workers[v] == pool.workers[v],
        pool.finish(w).queue == pool.queue,
{
    crate::pool_model::lemma_finish_wf(pool, w);
}

/// A worker stops only when no job is waiting.
pub proof fn workers_stop_only_without_jobs<J>(pool: PoolView<J>, w: int)
    requires
        pool.wf(),
        pool.worker_is(w, WorkerState::Exited),
    ensures
        pool.pending() == 0,
        pool.started == pool.submitted.len(),
        !pool.accepting(),
{
    crate::pool_model::lemma_tally_bounds(pool.workers, WorkerState::Exited);
    assert(pool.workers[w] == WorkerState::Exited);
}

/// Once every worker has stopped, every job ever submitted has run to its end,
/// and nothing is left in the queue.
pub proof fn stopped_pool_abandons_nothing<J>(pool: PoolView<J>)
    requires
        pool.wf(),
        forall|w: int|
            0 <= w < pool.workers.len() ==> #[trigger] pool.workers[w] == WorkerState::Exited,
    ensures
        pool.queue.len() == 0,
        pool.active == 0,
        forall|k: int| 0 <= k < pool.submitted.len() ==> #[trigger] pool.finished.contains(k),
{
    crate::pool_model::lemma_tally_bounds(pool.workers, WorkerState::Exited);
    crate::pool_model::lemma_tally_bounds(pool.workers, WorkerState::Running);
    assert(pool.workers[0] == WorkerState::Exited);
    idle_iff_all_finished(pool);
}

/// Worker `w` does something: it takes a job, stops, or ends its job.
pub open spec fn worker_step<J>(before: PoolView<J>, after: PoolView<J>, w: int) -> bool {
    ||| {
        &&& before.worker_is(w, WorkerState::Idle)
        &&& before.job_is_next()
        &&& after == before.begin(w)
    }
    ||| {
        &&& before.worker_is(w, WorkerState::Idle)
        &&& !before.job_is_next()
        &&& !before.must_wait()
        &&& after == before.exit(w)
    }
    ||| {
        &&& before.worker_is(w, WorkerState::Running)
        &&& after == before.finish(w)
    }
}

/// Some worker does something.
pub open spec fn some_worker_step<J>(before: PoolView<J>, after: PoolView<J>) -> bool {
    exists|w: int| worker_step(before, after, w)
}

/// A bound on the steps that the workers can still make: two for each waiting
/// job, one for each running job, and one for each worker that has not stopped.
pub open spec fn steps_left<J>(pool: PoolView<J>) -> int {
    2 * pool.pending() + crate::pool_model::tally(pool.workers, WorkerState::Running)
        + pool.workers.len() - crate::pool_model::tally(pool.workers, WorkerState::Exited)
}

/// Every step of a worker keeps the pool well formed and submits nothing, and
/// the bound on the steps left goes down.
pub proof fn worker_steps_run_out<J>(before: PoolView<J>, after: PoolView<J>, w: int)
    requires
        before.wf(),
        worker_step(before, after, w),
    ensures
        after.wf(),
        after.submitted == before.submitted,
        after.connected == before.connected,
        after.stopping == before.stopping,
        after.workers.len() == before.workers.len(),
        0 <= steps_left(after) < steps_left(before),
{
    if before.worker_is(w, WorkerState::Running) {
        crate::pool_model::lemma_finish_wf(before, w);
    } else if before.job_is_next() {
        crate::pool_model::lemma_begin_wf(before, w);
    } else {
        crate::pool_model::lemma_exit_wf(before, w);
    }
    crate::pool_model::lemma_tally_bounds(after.workers, WorkerState::Running);
    crate::pool_model::lemma_tally_bounds(after.workers, WorkerState::Exited);
    crate::pool_model::lemma_tally_update(
        before.workers,
        w,
        after.workers[w],
        WorkerState::Running,
    );
    crate::pool_model::lemma_tally_update(
        before.workers,
        w,
        after.workers[w],
        WorkerState::Exited,
    );
}

/// While a job is unfinished some worker can make a step: waiting for the jobs
/// never waits on a pool that stands still.
pub proof fn unfinished_jobs_make_progress<J>(pool: PoolView<J>)
    requires
        pool.wf(),
        pool.active > 0,
    ensures
        exists|after: PoolView<J>, w: int| #[trigger] worker_step(pool, after, w),
        exists|w: int|
            {
                &&& 0 <= w < pool.workers.len()
                &&& #[trigger] pool.workers[w] == WorkerState::Running || pool.workers[w]
                    == WorkerState::Idle && pool.queue.len() > 0 && pool.queue[0] is NewJob
            },
{
    crate::pool_model::lemma_tally_bounds(pool.workers, WorkerState::Running);
    crate::pool_model::lemma_tally_bounds(pool.workers, WorkerState::Exited);
    crate::pool_model::lemma_tally_total(pool.workers);
    if crate::pool_model::tally(pool.workers, WorkerState::Running) > 0 {
        let w = choose|w: int|
            0 <= w < pool.workers.len() && #[trigger] pool.workers[w] == WorkerState::Running;
        assert(pool.worker_is(w, WorkerState::Running));
        assert(worker_step(pool, pool.finish(w), w));
    } else {
        assert(pool.workers[0] != WorkerState::Running);
        assert(pool.workers[0] != WorkerState::Exited);
        assert(pool.worker_is(0, WorkerState::Idle));
        assert(pool.queue[0] == Message::NewJob(pool.submitted[pool.started + 0]));
        assert(worker_step(pool, pool.begin(0), 0));
    }
}

/// A worker of a pool that was told to stop can make a step until it has stopped:
/// stopping the pool never waits on one that stands still.
pub proof fn stopping_makes_progress<J>(pool: PoolView<J>, w: int)
    requires
        pool.wf(),
        !pool.accepting(),
        0 <= w < pool.workers.len(),
        pool.workers[w] != WorkerState::Exited,
    ensures
        exists|after: PoolView<J>| #[trigger] worker_step(pool, after, w),
{
    crate::pool_model::lemma_tally_bounds(pool.workers, WorkerState::Exited);
    if pool.workers[w] == WorkerState::Running {
        assert(pool.worker_is(w, WorkerState::Running));
        assert(worker_step(pool, pool.finish(w), w));
    } else {
        assert(pool.worker_is(w, WorkerState::Idle));
        if pool.job_is_next() {
            assert(worker_step(pool, pool.begin(w), w));
        } else {
            assert(!pool.must_wait());
            assert(worker_step(pool, pool.exit(w), w));
        }
    }
}

/// The states of a pool while nobody submits: each follows from the one before
/// by a step of some worker.
pub open spec fn worker_run<J>(run: Seq<PoolView<J>>) -> bool {
    &&& run.len() > 0
    &&& forall|i: int|
        0 <= i < run.len() - 1 ==> some_worker_step(#[trigger] run[i], run[i + 1])
}

/// A run at whose end no worker can make a step.
pub open spec fn at_rest<J>(run: Seq<PoolView<J>>) -> bool {
    &&& worker_run(run)
    &&& forall|after: PoolView<J>, w: int| !(#[trigger] worker_step(run.last(), after, w))
}

/// Every worker has stopped, every job ever submitted has run to its end, and
/// nothing is left in the queue.
pub open spec fn drained<J>(pool: PoolView<J>) -> bool {
    &&& forall|w: int|
        0 <= w < pool.workers.len() ==> #[trigger] pool.workers[w] == WorkerState::Exited
    &&& forall|k: int| 0 <= k < pool.submitted.len() ==> #[trigger] pool.finished.contains(k)
    &&& pool.queue.len() == 0
    &&& pool.active == 0
}

/// A run of the workers is no longer than the bound at its start allows.
pub proof fn worker_runs_are_bounded<J>(run: Seq<PoolView<J>>)
    requires
        worker_run(run),
        run[0].wf(),
    ensures
        run.last().wf(),
        run.last().submitted == run[0].submitted,
        run.last().connected == run[0].connected,
        run.last().stopping == run[0].stopping,
        run.last().workers.len() == run[0].workers.len(),
        steps_left(run.last()) >= 0,
        run.len() - 1 + steps_left(run.last()) <= steps_left(run[0]),
    decreases run.len(),
{
    if run.len() == 1 {
        crate::pool_model::lemma_tally_bounds(run[0].workers, WorkerState::Running);
        crate::pool_model::lemma_tally_bounds(run[0].workers, WorkerState::Exited);
    } else {
        let shorter = run.drop_last();
        assert forall|i: int| 0 <= i < shorter.len() - 1 implies some_worker_step(
            #[trigger] shorter[i],
            shorter[i + 1],
        ) by {
            assert(some_worker_step(run[i], run[i + 1]));
        }
        worker_runs_are_bounded(shorter);
        let i = run.len() - 2;
        assert(shorter.last() == run[i]);
        assert(some_worker_step(run[i], run[i + 1]));
        let w = choose|w: int| #[trigger] worker_step(run[i], run[i + 1], w);
        worker_steps_run_out(run[i], run[i + 1], w);
    }
}

/// Waiting for the jobs comes to an end: when the workers of a pool that nobody
/// submits to can make no further step, which is after at most as many steps as
/// the bound at the start, every job submitted has finished.
pub proof fn waiting_for_jobs_ends<J>(run: Seq<PoolView<J>>)
    requires
        at_rest(run),
        run[0].wf(),
    ensures
        run.len() - 1 <= steps_left(run[0]),
        run.last().active == 0,
        forall|k: int|
            0 <= k < run[0].submitted.len() ==> #[trigger] run.last().finished.contains(k),
{
    worker_runs_are_bounded(run);
    if run.last().active > 0 {
        unfinished_jobs_make_progress(run.last());
    } else {
        crate::pool_model::lemma_tally_bounds(run.last().workers, WorkerState::Running);
    }
    idle_iff_all_finished(run.last());
}

/// Stopping a pool abandons no job: once the shutdown tokens are sent the
/// workers come to a stop, after at most as many steps as the bound at the
/// start, and then every worker has stopped and every job submitted before has
/// finished.
pub proof fn shutdown_runs_every_job<J>(pool: PoolView<J>, run: Seq<PoolView<J>>)
    requires
        pool.wf(),
        pool.accepting(),
        at_rest(run),
        run[0] == pool.shut_down(),
    ensures
        run.len() - 1 <= steps_left(pool.shut_down()),
        drained(run.last()),
        run.last().submitted == pool.submitted,
        run.last().workers.len() == pool.workers.len(),
{
    crate::pool_model::lemma_shut_down_wf(pool);
    worker_runs_are_bounded(run);
    assert forall|w: int| 0 <= w < pool.workers.len() implies #[trigger] run.last().workers[w]
        == WorkerState::Exited by {
        if run.last().workers[w] != WorkerState::Exited {
            stopping_makes_progress(run.last(), w);
        }
    }
    stopped_pool_abandons_nothing(run.last());
}

/// The states of a pool in which worker `w` alone is at work.
pub open spec fn lone_run<J>(run: Seq<PoolView<J>>, w: int) -> bool {
    &&& run.len() > 0
    &&& forall|i: int| 0 <= i < run.len() - 1 ==> worker_step(#[trigger] run[i], run[i + 1], w)
}

/// In its turn number `i` of a run, counted from zero, worker `w` takes the job
/// that stood at place `i` of the queue when the run began, runs it, and ends it.
pub open spec fn job_turn<J>(run: Seq<PoolView<J>>, w: int, i: int) -> bool {
    let job = run[0].started + i;
    &&& run[2 * i].queue[0] == Message::NewJob(run[0].submitted[job])
    &&& run[2 * i + 1] == run[2 * i].begin(w)
    &&& run[2 * i + 1].tickets[w] == job
    &&& run[2 * i + 2] == run[2 * i + 1].finish(w)
}

/// What holds of a lone worker after its first `i` turns.
proof fn lemma_lone_turns<J>(run: Seq<PoolView<J>>, w: int, i: int)
    requires
        lone_run(run, w),
        run[0].wf(),
        run[0].worker_is(w, WorkerState::Idle),
        run.last().worker_is(w, WorkerState::Exited),
        0 <= i <= run[0].pending(),
    ensures
        2 * i + 1 < run.len(),
        run[2 * i].wf(),
        run[2 * i].worker_is(w, WorkerState::Idle),
        run[2 * i].submitted == run[0].submitted,
        run[2 * i].started == run[0].started + i,
        run[2 * i].active == run[0].active - i,
        forall|j: int| 0 <= j < i ==> #[trigger] job_turn(run, w, j),
        forall|k: int|
            #[trigger] run[2 * i].finished.contains(k) <==> run[0].finished.contains(k)
                || run[0].started <= k < run[0].started + i,
    decreases i,
{
    if i > 0 {
        lemma_lone_turns(run, w, i - 1);
        let a = 2 * (i - 1);
        let idle = run[a];
        assert(idle.queue[0] == Message::NewJob(idle.submitted[idle.started + 0]));
        assert(worker_step(run[a], run[a + 1], w));
        crate::pool_model::lemma_begin_wf(idle, w);
        let running = run[a + 1];
        assert(running.worker_is(w, WorkerState::Running));
        assert(a + 1 < run.len() - 1);
        assert(worker_step(run[a + 1], run[a + 1 + 1], w));
        crate::pool_model::lemma_finish_wf(running, w);
        assert(job_turn(run, w, i - 1));
        assert(run[a + 2].worker_is(w, WorkerState::Idle));
    }
}

/// One worker alone takes every job in the queue once, in order, one ending
/// before the next begins, lowers the count of unfinished jobs by as many, and
/// only then stops.
pub proof fn lone_worker_runs_the_queue<J>(run: Seq<PoolView<J>>, w: int)
    requires
        lone_run(run, w),
        run[0].wf(),
        run[0].worker_is(w, WorkerState::Idle),
        run.last().worker_is(w, WorkerState::Exited),
    ensures
        run.len() == 2 * run[0].pending() + 2,
        forall|i: int| 0 <= i < run[0].pending() ==> #[trigger] job_turn(run, w, i),
        run.last() == run[2 * run[0].pending()].exit(w),
        run.last().wf(),
        run.last().pending() == 0,
        run.last().active == run[0].active - run[0].pending(),
        forall|k: int|
            #[trigger] run.last().finished.contains(k) <==> run[0].finished.contains(k)
                || run[0].started <= k < run[0].submitted.len(),
{
    let n = run[0].pending();
    lemma_lone_turns(run, w, n);
    let idle = run[2 * n];
    if idle.queue.len() > 0 {
        assert(idle.queue[0] == Message::<J>::Shutdown);
    }
    assert(worker_step(run[2 * n], run[2 * n + 1], w));
    crate::pool_model::lemma_exit_wf(idle, w);
    assert(run[2 * n + 1].worker_is(w, WorkerState::Exited));
    if 2 * n + 1 < run.len() - 1 {
        assert(worker_step(run[2 * n + 1], run[2 * n + 1 + 1], w));
    }
}

/// A new pool has as many workers as were asked for, all of them idle, nothing to
/// do, and nothing that keeps it from taking jobs.
pub proof fn a_new_pool_has_the_workers_asked_for<J>(size: int)
    requires
        size > 0,
    ensures
        PoolView::<J>::initial(size).workers.len() == size,
        forall|w: int|
            0 <= w < size ==> #[trigger] PoolView::<J>::initial(size).workers[w]
                == WorkerState::Idle,
        PoolView::<J>::initial(size).queue.len() == 0,
        PoolView::<J>::initial(size).submitted.len() == 0,
        PoolView::<J>::initial(size).active == 0,
        PoolView::<J>::initial(size).started == 0,
        forall|k: int| !#[trigger] PoolView::<J>::initial(size).finished.contains(k),
        PoolView::<J>::initial(size).connected,
        !PoolView::<J>::initial(size).stopping,
{
}

/// The queue of a pool holds the jobs that no worker has taken, in the order of
/// their submission, and behind them nothing but tokens. The count of unfinished
/// jobs is that of the waiting ones and of the workers that run one.
pub proof fn the_queue_holds_the_jobs_not_taken<J>(pool: PoolView<J>)
    requires
        pool.wf(),
    ensures
        0 <= pool.submitted.len() - pool.started <= pool.queue.len(),
        forall|i: int|
            0 <= i < pool.submitted.len() - pool.started ==> #[trigger] pool.queue[i]
                == Message::NewJob(pool.submitted[pool.started + i]),
        forall|i: int|
            pool.submitted.len() - pool.started <= i < pool.queue.len()
                ==> #[trigger] pool.queue[i] == Message::<J>::Shutdown,
        pool.active == pool.submitted.len() - pool.started + crate::pool_model::tally(
            pool.workers,
            WorkerState::Running,
        ),
        forall|w: int, state: WorkerState|
            #[trigger] pool.worker_is(w, state) <==> 0 <= w < pool.workers.len()
                && pool.workers[w] == state,
{
}

/// One more worker is counted for its own state and for no other.
pub proof fn a_worker_counts_once(workers: Seq<WorkerState>, one: WorkerState, state: WorkerState)
    ensures
        crate::pool_model::tally(Seq::empty(), state) == 0,
        crate::pool_model::tally(workers.push(one), state) - crate::pool_model::tally(
            workers,
            state,
        ) == (if one == state {
            1int
        } else {
            0int
        }),
{
    assert(workers.push(one).drop_last() =~= workers);
}

/// A pool takes jobs just as long as its sending end exists and no token was
/// sent.
pub proof fn a_pool_accepts_until_told_to_stop<J>(pool: PoolView<J>)
    ensures
        pool.accepting() <==> pool.connected && !pool.stopping,
{
}

/// Every submission appends its job and raises the count by one, however many
/// workers there are and however long the queue is; nothing else changes.
pub proof fn every_submission_appends_its_job<J>(pool: PoolView<J>, job: J)
    ensures
        pool.submit(job).queue.len() == pool.queue.len() + 1,
        pool.submit(job).queue.last() == Message::NewJob(job),
        pool.submit(job).queue.drop_last() == pool.queue,
        pool.submit(job).submitted.len() == pool.submitted.len() + 1,
        pool.submit(job).submitted.last() == job,
        pool.submit(job).submitted.drop_last() == pool.submitted,
        pool.submit(job).active == pool.active + 1,
        pool.submit(job).workers == pool.workers,
        pool.submit(job).tickets == pool.tickets,
        pool.submit(job).started == pool.started,
        pool.submit(job).finished == pool.finished,
        pool.submit(job).connected == pool.connected,
        pool.submit(job).stopping == pool.stopping,
{
    assert(pool.submit(job).queue.drop_last() =~= pool.queue);
    assert(pool.submit(job).submitted.drop_last() =~= pool.submitted);
}

/// Two jobs submitted one after the other both wait, in that order, behind what
/// waited before.
pub proof fn two_submissions_queue_in_order<J>(pool: PoolView<J>, first: J, second: J)
    ensures
        pool.submit(first).submit(second).queue == pool.queue + seq![
            Message::NewJob(first),
            Message::NewJob(second),
        ],
        pool.submit(first).submit(second).active == pool.active + 2,
{
    every_submission_appends_its_job(pool, first);
    every_submission_appends_its_job(pool.submit(first), second);
    assert(pool.submit(first).submit(second).queue =~= pool.queue + seq![
        Message::NewJob(first),
        Message::NewJob(second),
    ]) by {
        let one = pool.submit(first).queue;
        let two = pool.submit(first).submit(second).queue;
        assert(two.drop_last() == one);
        assert(one.drop_last() == pool.queue);
        assert forall|i: int| 0 <= i < pool.queue.len() implies two[i] == pool.queue[i] by {
            assert(two[i] == two.drop_last()[i]);
            assert(one[i] == one.drop_last()[i]);
        }
        assert(two[pool.queue.len() as int] == two.drop_last()[pool.queue.len() as int]);
    }
}

/// A worker waits only where no message is in the queue: a waiting job is taken,
/// whatever the number of workers and of waiting jobs.
pub proof fn a_worker_waits_only_on_an_empty_queue<J>(pool: PoolView<J>)
    ensures
        pool.must_wait() <==> pool.queue.len() == 0 && pool.connected,
        pool.job_is_next() <==> pool.queue.len() > 0 && exists|job: J|
            pool.queue[0] == Message::NewJob(job),
{
    if pool.queue.len() > 0 {
        match pool.queue[0] {
            Message::NewJob(job) => {
                assert(pool.queue[0] == Message::NewJob(job));
            },
            Message::Shutdown => {},
        }
    }
}

/// What worker `w` of a pool is told when it asks for its next message, and what
/// that makes of the pool.
pub open spec fn answered<J>(
    before: PoolView<J>,
    w: int,
    next: Next<J>,
    after: PoolView<J>,
) -> bool {
    match next {
        Next::Wait => before.must_wait() && after == before,
        Next::Run(job) => {
            &&& before.job_is_next()
            &&& before.queue[0] == Message::NewJob(job)
            &&& after == before.begin(w)
        },
        Next::Exit => {
            &&& !before.must_wait()
            &&& !before.job_is_next()
            &&& after == before.exit(w)
        },
    }
}

/// A worker that asks while a job waits is told to run the one that was submitted
/// first of those not yet taken; it is told to wait only where no message is in
/// the queue and more may come, and to stop only where none of the jobs is left.
pub proof fn asking_gives_the_oldest_waiting_job<J>(
    before: PoolView<J>,
    w: int,
    next: Next<J>,
    after: PoolView<J>,
)
    requires
        before.wf(),
        before.worker_is(w, WorkerState::Idle),
        answered(before, w, next, after),
    ensures
        before.started < before.submitted.len() ==> next == Next::Run(
            before.submitted[before.started],
        ),
        before.queue.len() > 0 ==> (next matches Next::Run(job) ==> before.queue[0]
            == Message::NewJob(job)),
        before.queue.len() > 0 && before.queue[0] is NewJob ==> next is Run,
        before.queue.len() > 0 && before.queue[0] is Shutdown ==> next is Exit,
        before.queue.len() == 0 && before.connected ==> next is Wait,
        before.queue.len() == 0 && !before.connected ==> next is Exit,
        next is Wait ==> after == before && before.queue.len() == 0 && before.connected,
        next is Exit ==> before.started == before.submitted.len(),
{
    if before.started < before.submitted.len() {
        assert(before.queue[0] == Message::NewJob(before.submitted[before.started + 0]));
    }
}

/// A job number is counted as finished only by the step in which the worker that
/// runs that job ends it.
pub proof fn only_its_worker_finishes_a_job<J>(
    before: PoolView<J>,
    after: PoolView<J>,
    w: int,
    k: int,
)
    requires
        before.wf(),
        worker_step(before, after, w),
        !before.finished.contains(k),
        after.finished.contains(k),
    ensures
        before.worker_is(w, WorkerState::Running),
        before.tickets[w] == k,
        after.worker_is(w, WorkerState::Idle),
        after.active == before.active - 1,
{
}

/// Taking a job takes the first message and nothing else out of the queue, gives
/// the job the next number, and finishes none.
pub proof fn taking_a_job_takes_the_first_message<J>(pool: PoolView<J>, w: int)
    requires
        0 <= w < pool.workers.len(),
        pool.tickets.len() == pool.workers.len(),
        pool.queue.len() > 0,
    ensures
        seq![pool.queue[0]] + pool.begin(w).queue == pool.queue,
        pool.begin(w).workers.len() == pool.workers.len(),
        pool.begin(w).workers[w] == WorkerState::Running,
        pool.begin(w).tickets[w] == pool.started,
        forall|v: int|
            0 <= v < pool.workers.len() && v != w ==> #[trigger] pool.begin(w).workers[v]
                == pool.workers[v],
        forall|v: int|
            0 <= v < pool.workers.len() && v != w ==> #[trigger] pool.begin(w).tickets[v]
                == pool.tickets[v],
        pool.begin(w).started == pool.started + 1,
        pool.begin(w).active == pool.active,
        pool.begin(w).submitted == pool.submitted,
        pool.begin(w).finished == pool.finished,
        pool.begin(w).connected == pool.connected,
        pool.begin(w).stopping == pool.stopping,
{
    assert(seq![pool.queue[0]] + pool.begin(w).queue =~= pool.queue);
}

/// A worker that stops takes at most the one message that told it to; no job is
/// counted as started or finished by that.
pub proof fn stopping_takes_one_token<J>(pool: PoolView<J>, w: int)
    requires
        0 <= w < pool.workers.len(),
    ensures
        pool.queue.len() > 0 ==> seq![pool.queue[0]] + pool.exit(w).queue == pool.queue,
        pool.queue.len() == 0 ==> pool.exit(w).queue.len() == 0,
        pool.exit(w).workers.len() == pool.workers.len(),
        pool.exit(w).workers[w] == WorkerState::Exited,
        forall|v: int|
            0 <= v < pool.workers.len() && v != w ==> #[trigger] pool.exit(w).workers[v]
                == pool.workers[v],
        pool.exit(w).active == pool.active,
        pool.exit(w).submitted == pool.submitted,
        pool.exit(w).started == pool.started,
        pool.exit(w).tickets == pool.tickets,
        pool.exit(w).finished == pool.finished,
        pool.exit(w).connected == pool.connected,
        pool.exit(w).stopping == pool.stopping,
{
    if pool.queue.len() > 0 {
        assert(seq![pool.queue[0]] + pool.exit(w).queue =~= pool.queue);
    }
}

/// The end of a job finishes that job and no other, lowers the count by one, and
/// leaves its worker idle; nothing else changes.
pub proof fn an_ending_job_finishes_itself_alone<J>(pool: PoolView<J>, w: int)
    requires
        0 <= w < pool.workers.len(),
    ensures
        forall|k: int|
            #[trigger] pool.finish(w).finished.contains(k) <==> pool.finished.contains(k) || k
                == pool.tickets[w],
        pool.finish(w).active == pool.active - 1,
        pool.finish(w).workers.len() == pool.workers.len(),
        pool.finish(w).workers[w] == WorkerState::Idle,
        forall|v: int|
            0 <= v < pool.workers.len() && v != w ==> #[trigger] pool.finish(w).workers[v]
                == pool.workers[v],
        pool.finish(w).queue == pool.queue,
        pool.finish(w).submitted == pool.submitted,
        pool.finish(w).started == pool.started,
        pool.finish(w).tickets == pool.tickets,
        pool.finish(w).connected == pool.connected,
        pool.finish(w).stopping == pool.stopping,
{
}

/// Stopping the pool leaves every queued message where it is and puts one token
/// for each worker behind them: no job is thrown away, started or finished by
/// it, and the count of unfinished jobs stays.
pub proof fn shutdown_keeps_every_queued_job<J>(pool: PoolView<J>)
    ensures
        pool.shut_down().queue.len() == pool.queue.len() + pool.workers.len(),
        forall|i: int|
            0 <= i < pool.queue.len() ==> #[trigger] pool.shut_down().queue[i] == pool.queue[i],
        forall|i: int|
            pool.queue.len() <= i < pool.shut_down().queue.len()
                ==> #[trigger] pool.shut_down().queue[i] == Message::<J>::Shutdown,
        pool.shut_down().workers == pool.workers,
        pool.shut_down().tickets == pool.tickets,
        pool.shut_down().submitted == pool.submitted,
        pool.shut_down().started == pool.started,
        pool.shut_down().finished == pool.finished,
        pool.shut_down().active == pool.active,
        pool.shut_down().connected == pool.connected,
        pool.shut_down().stopping,
{
}

/// Losing the sending end changes nothing but that.
pub proof fn disconnecting_keeps_everything_else<J>(pool: PoolView<J>)
    ensures
        !pool.disconnected().connected,
        pool.disconnected().queue == pool.queue,
        pool.disconnected().workers == pool.workers,
        pool.disconnected().tickets == pool.tickets,
        pool.disconnected().submitted == pool.submitted,
        pool.disconnected().started == pool.started,
        pool.disconnected().finished == pool.finished,
        pool.disconnected().active == pool.active,
        pool.disconnected().stopping == pool.stopping,
{
}

/// Every job that is queued when the pool is told to stop, and every job that is
/// running, ends in a step in which the worker that runs it ends it, before the
/// workers come to rest.
pub proof fn every_job_ends_in_its_own_step<J>(pool: PoolView<J>, run: Seq<PoolView<J>>, k: int)
    requires
        pool.wf(),
        pool.connected,
        !pool.stopping,
        at_rest(run),
        run[0] == pool.shut_down(),
        0 <= k < pool.submitted.len(),
        !pool.finished.contains(k),
    ensures
        exists|i: int, w: int|
            {
                &&& 0 <= i < run.len() - 1
                &&& #[trigger] run[i].worker_is(w, WorkerState::Running)
                &&& run[i].tickets[w] == k
                &&& !run[i].finished.contains(k)
                &&& run[i + 1].finished.contains(k)
            },
{
    shutdown_runs_every_job(pool, run);
    shutdown_keeps_every_queued_job(pool);
    assert(run.last().finished.contains(k));
    lemma_first_finish(run, k, run.len() - 1);
}

/// A job unfinished at the start of a run and finished at place `n` ended in
/// some step before.
proof fn lemma_first_finish<J>(run: Seq<PoolView<J>>, k: int, n: int)
    requires
        worker_run(run),
        0 <= n < run.len(),
        !run[0].finished.contains(k),
        run[n].finished.contains(k),
    ensures
        exists|i: int, w: int|
            {
                &&& 0 <= i < run.len() - 1
                &&& #[trigger] run[i].worker_is(w, WorkerState::Running)
                &&& run[i].tickets[w] == k
                &&& !run[i].finished.contains(k)
                &&& run[i + 1].finished.contains(k)
            },
    decreases n,
{
    if n > 0 {
        if run[n - 1].finished.contains(k) {
            lemma_first_finish(run, k, n - 1);
        } else {
            assert(some_worker_step(run[n - 1], run[n - 1 + 1]));
            let before = run[n - 1];
            let after = run[n];
            let w = choose|w: int| #[trigger] worker_step(before, after, w);
            assert(before.worker_is(w, WorkerState::Running));
        }
    }
}

} // verus!
