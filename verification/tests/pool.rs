use rust_internals::job::{Job, JobHandle, JobPanicked};
use rust_internals::pool::{JoinStep, Next, ThreadPool};
use rust_internals::pool_model::WorkerState;
use rust_internals::text::{decimal_text, panic_message, panic_report, worker_name, PanicPayload};
use std::cell::{Cell, RefCell};
use std::rc::Rc;
use std::sync::mpsc::RecvError;

type Packed = Box<dyn FnOnce()>;

fn pack<F, T>(job: Job<F, T>) -> Packed
where
    F: FnOnce() -> T + 'static,
    T: 'static,
{
    Box::new(move || job.run())
}

fn submit<F, T>(pool: &mut ThreadPool<Packed>, work: F) -> JobHandle<T>
where
    F: FnOnce() -> T + 'static,
    T: 'static,
{
    pool.execute(work, pack)
}

/// One turn of every worker that is idle: it takes a message and, if it is a
/// job, runs it. Tells whether any worker did something.
fn turn(pool: &mut ThreadPool<Packed>) -> bool {
    let mut busy = false;
    for id in 0..pool.worker_count() {
        if pool.worker_state(id) != WorkerState::Idle {
            continue;
        }
        match pool.next(id) {
            Next::Wait => {}
            Next::Run(job) => {
                job();
                pool.finish(id, None);
                busy = true;
            }
            Next::Exit => busy = true,
        }
    }
    busy
}

fn drive(pool: &mut ThreadPool<Packed>) {
    while turn(pool) {}
}

fn take(pool: &mut ThreadPool<Packed>, id: usize) -> Packed {
    match pool.next(id) {
        Next::Run(job) => job,
        _ => panic!("no job for worker {}", id),
    }
}

#[test]
fn executes_and_returns_result() {
    let mut pool = ThreadPool::new(2);
    let handle = submit(&mut pool, || 2 + 2);
    drive(&mut pool);
    assert_eq!(handle.join().unwrap(), 4);
}

#[test]
fn runs_many_jobs_and_join_waits_for_all_of_them() {
    let mut pool = ThreadPool::new(4);
    let counter = Rc::new(Cell::new(0));
    for _ in 0..200 {
        let counter = counter.clone();
        submit(&mut pool, move || {
            counter.set(counter.get() + 1);
        });
    }
    let mut turns = 0;
    while pool.join() == JoinStep::Wait {
        assert!(counter.get() < 200);
        assert!(turn(&mut pool));
        turns += 1;
    }
    assert_eq!(counter.get(), 200);
    assert_eq!(turns, 50);
}

#[test]
fn job_panic_is_reported_and_pool_keeps_working() {
    let mut pool = ThreadPool::new(2);

    let failed = submit(&mut pool, || -> i32 { panic!("boom") });
    // A job that unwinds is gone without having sent anything.
    drop(take(&mut pool, 0));
    let done = pool.finish(0, Some(PanicPayload::Str("boom")));
    assert_eq!(done.report.unwrap(), "worker 0: job panicked: boom");
    assert!(done.all_done);
    assert!(failed.join().is_err());

    // The pool should still be usable after a panicking job.
    assert_eq!(pool.worker_state(0), WorkerState::Idle);
    let ok = submit(&mut pool, || 41 + 1);
    drive(&mut pool);
    assert_eq!(ok.join().unwrap(), 42);
}

#[test]
fn join_blocks_until_slow_jobs_finish() {
    let mut pool = ThreadPool::new(3);
    let results = Rc::new(RefCell::new(Vec::new()));
    for i in 0..6 {
        let results = results.clone();
        submit(&mut pool, move || results.borrow_mut().push(i));
    }
    let mut ended = 0;
    while pool.active_jobs() > 0 {
        // All three start before the first of them ends.
        let jobs: Vec<Packed> = (0..3).map(|id| take(&mut pool, id)).collect();
        for (id, job) in jobs.into_iter().enumerate() {
            assert_eq!(pool.join(), JoinStep::Wait);
            job();
            ended += 1;
            assert_eq!(pool.finish(id, None).all_done, ended == 6);
        }
    }
    assert_eq!(pool.join(), JoinStep::Done);
    assert_eq!(results.borrow().len(), 6);
}

#[test]
fn dropping_the_pool_waits_for_queued_jobs() {
    let results = Rc::new(RefCell::new(Vec::new()));
    let mut pool = ThreadPool::new(2);
    for i in 0..10 {
        let results = results.clone();
        submit(&mut pool, move || results.borrow_mut().push(i));
    }
    pool.shutdown();
    assert!(!pool.is_accepting());
    drive(&mut pool);
    for id in 0..2 {
        assert_eq!(pool.worker_state(id), WorkerState::Exited);
    }
    assert_eq!(results.borrow().len(), 10);
    assert_eq!(*results.borrow(), (0..10).collect::<Vec<i32>>());
    assert_eq!(pool.join(), JoinStep::Done);
}

#[test]
fn a_worker_stops_only_behind_the_last_job() {
    let mut pool = ThreadPool::new(2);
    let ran = Rc::new(Cell::new(0));
    for _ in 0..3 {
        let ran = ran.clone();
        submit(&mut pool, move || ran.set(ran.get() + 1));
    }
    let slow = take(&mut pool, 1);
    pool.shutdown();
    for _ in 0..2 {
        let job = take(&mut pool, 0);
        job();
        assert!(!pool.finish(0, None).all_done);
    }
    assert!(matches!(pool.next(0), Next::Exit));
    assert_eq!(pool.worker_state(0), WorkerState::Exited);
    assert_eq!(pool.worker_state(1), WorkerState::Running);
    assert_eq!(pool.join(), JoinStep::Wait);
    slow();
    assert!(pool.finish(1, None).all_done);
    assert!(matches!(pool.next(1), Next::Exit));
    assert_eq!(ran.get(), 3);
}

#[test]
fn an_idle_worker_waits_while_the_queue_is_empty() {
    let mut pool: ThreadPool<Packed> = ThreadPool::new(1);
    assert_eq!(pool.worker_count(), 1);
    assert_eq!(pool.active_jobs(), 0);
    assert!(pool.is_accepting());
    assert_eq!(pool.join(), JoinStep::Done);
    assert!(matches!(pool.next(0), Next::Wait));
    assert_eq!(pool.worker_state(0), WorkerState::Idle);
}

#[test]
fn workers_of_a_disconnected_pool_finish_the_queue_and_stop() {
    let mut pool = ThreadPool::new(2);
    let handle = submit(&mut pool, || 5);
    pool.disconnect();
    assert!(!pool.is_accepting());
    take(&mut pool, 0)();
    pool.finish(0, None);
    assert!(matches!(pool.next(0), Next::Exit));
    assert!(matches!(pool.next(1), Next::Exit));
    assert_eq!(handle.join().unwrap(), 5);
}

#[test]
fn a_result_that_nobody_wants_is_discarded() {
    let mut pool = ThreadPool::new(1);
    drop(submit(&mut pool, || 1));
    drive(&mut pool);
    assert_eq!(pool.join(), JoinStep::Done);
}

#[test]
fn a_job_runs_without_a_pool() {
    let (job, handle) = Job::new(|| "done");
    job.run();
    assert_eq!(handle.join().unwrap(), "done");

    let (job, handle) = Job::new(|| 1);
    drop(job);
    assert_eq!(handle.join(), Err(JobPanicked));
}

#[test]
fn outcome_of_what_came_through_the_channel() {
    assert_eq!(JobHandle::outcome(Ok(3)), Ok(3));
    assert_eq!(JobHandle::<u8>::outcome(Err(RecvError)), Err(JobPanicked));
    assert_eq!(
        JobPanicked.message(),
        "the worker running this job panicked before producing a result"
    );
}

#[test]
fn panic_payloads_are_shown() {
    assert_eq!(panic_message(&PanicPayload::Str("literal")), "literal");
    assert_eq!(panic_message(&PanicPayload::Text(String::from("owned"))), "owned");
    assert_eq!(panic_message(&PanicPayload::Other), "non-string panic payload");
    assert_eq!(
        panic_report(17, &PanicPayload::Other),
        "worker 17: job panicked: non-string panic payload"
    );
}

#[test]
fn numbers_are_written_in_decimal() {
    assert_eq!(decimal_text(0), "0");
    assert_eq!(decimal_text(10), "10");
    assert_eq!(decimal_text(1234567890), "1234567890");
    assert_eq!(decimal_text(usize::MAX), usize::MAX.to_string());
    assert_eq!(worker_name(0), "worker-0");
    assert_eq!(worker_name(12), "worker-12");
}
