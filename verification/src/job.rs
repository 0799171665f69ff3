//! A job on its way through the pool, and the handle by which its result comes
//! back.
use std::sync::mpsc::{channel, Receiver, RecvError, SendError, Sender};
use vstd::prelude::*;
use vstd::string::StringExecFns;

verus! {

/// `std::sync::mpsc::Receiver`, carried but never looked into.
#[verifier::external_type_specification]
#[verifier::external_body]
#[verifier::reject_recursive_types(T)]
pub struct ExReceiver<T>(std::sync::mpsc::Receiver<T>);

/// `std::sync::mpsc::Sender`, carried but never looked into.
#[verifier::external_type_specification]
#[verifier::external_body]
#[verifier::reject_recursive_types(T)]
pub struct ExSender<T>(std::sync::mpsc::Sender<T>);

/// `std::sync::mpsc::RecvError`: every sender is gone and nothing is left.
#[verifier::external_type_specification]
#[verifier::external_body]
pub struct ExRecvError(std::sync::mpsc::RecvError);

/// `std::sync::mpsc::SendError`: the receiver is gone.
#[verifier::external_type_specification]
#[verifier::external_body]
#[verifier::reject_recursive_types(T)]
pub struct ExSendError<T>(std::sync::mpsc::SendError<T>);

/// `std::sync::mpsc::channel` makes a channel. Nothing is claimed of the two
/// ends.
pub assume_specification<T>[ channel::<T> ]() -> (ends: (Sender<T>, Receiver<T>));

/// `Sender::send` puts a value into the channel. Whether the receiver is still
/// there is up to another thread, so nothing is claimed of the result.
pub assume_specification<T>[ Sender::<T>::send ](sender: &Sender<T>, value: T) -> (sent: Result<
    (),
    SendError<T>,
>);

/// `Receiver::recv` waits for the next value. What comes, or that every sender
/// is gone, is up to another thread, so nothing is claimed of the result. The
/// receiver is used up: nothing can be asked of it again.
#[verifier::external_body]
fn recv_once<T>(receiver: Receiver<T>) -> (received: Result<T, RecvError>) {
    receiver.recv()
}

/// Returned by [`JobHandle::join`] when the job panicked instead of returning a
/// value.
#[derive(Clone, Copy, Debug, PartialEq, Eq, Structural)]
pub struct JobPanicked;

impl JobPanicked {
    /// The error in words.
    pub fn message(&self) -> (text: String)
        ensures
            text@ == "the worker running this job panicked before producing a result"@,
    {
        String::from_str("the worker running this job panicked before producing a result")
    }
}

/// A piece of work, with the way its result takes.
#[verifier::reject_recursive_types(T)]
pub struct Job<F, T> {
    work: F,
    results: Sender<T>,
}

/// A handle to a job's eventual result.
#[verifier::reject_recursive_types(T)]
pub struct JobHandle<T> {
    receiver: Receiver<T>,
}

impl<F, T> Job<F, T> {
    /// What the job is to do.
    pub closed spec fn work(self) -> F {
        self.work
    }

    /// Where its result goes.
    pub closed spec fn results(self) -> Sender<T> {
        self.results
    }
}

impl<F, T> Job<F, T> where F: FnOnce() -> T {
    /// Turns `work` into a job, together with the handle to its result.
    pub fn new(work: F) -> (made: (Job<F, T>, JobHandle<T>))
        ensures
            made.0.work() == work,
            call_ensures(channel::<T>, (), (made.0.results(), made.1.receiver())),
    {
        let (results, receiver) = channel::<T>();
        (Job { work, results }, JobHandle { receiver })
    }

    /// Does the work and sends the result to the handle. Where the handle is
    /// gone the result is discarded. Where the work panics nothing is sent, and
    /// the way to the handle is cut.
    pub fn run(self)
        requires
            self.work().requires(()),
        ensures
            exists|result: T, sent: Result<(), SendError<T>>|
                self.work().ensures((), result) && #[trigger] call_ensures(
                    Sender::<T>::send,
                    (&self.results(), result),
                    sent,
                ),
    {
        let Job { work, results } = self;
        let result = work();
        let sent = results.send(result);
        assert(call_ensures(Sender::<T>::send, (&self.results(), result), sent));
    }
}

impl<T> JobHandle<T> {
    /// Where the result comes from.
    pub closed spec fn receiver(self) -> Receiver<T> {
        self.receiver
    }

    /// The one wait on the handle's receiver gave `received`.
    pub closed spec fn gave(self, received: Result<T, RecvError>) -> bool {
        call_ensures(recv_once::<T>, (self.receiver(),), received)
    }

    /// What a handle returns, given what came through the channel: the value,
    /// or `JobPanicked` where the job ended without sending one.
    pub open spec fn outcome_of(received: Result<T, RecvError>) -> Result<T, JobPanicked> {
        match received {
            Ok(value) => Ok(value),
            Err(_) => Err(JobPanicked),
        }
    }

    /// What a handle returns, given what came through the channel.
    pub fn outcome(received: Result<T, RecvError>) -> (result: Result<T, JobPanicked>)
        ensures
            result == Self::outcome_of(received),
            received matches Ok(value) ==> result == Ok::<T, JobPanicked>(value),
            received is Err ==> result is Err,
    {
        match received {
            Ok(value) => Ok(value),
            Err(_) => Err(JobPanicked),
        }
    }

    /// Blocks until the job finishes, returning its result, or
    /// `Err(JobPanicked)` if the job panicked instead of completing normally.
    pub fn join(self) -> (result: Result<T, JobPanicked>)
        ensures
            exists|received: Result<T, RecvError>|
                result == #[trigger] Self::outcome_of(received) && self.gave(received),
    {
        let received = recv_once(self.receiver);
        Self::outcome(received)
    }
}

/// A wait gave what the one receive on the handle's own receiver gave.
proof fn a_wait_is_a_receive<T>(handle: JobHandle<T>, received: Result<T, RecvError>)
    ensures
        handle.gave(received) <==> call_ensures(recv_once::<T>, (handle.receiver,), received),
{
}

/// What a one-shot channel gives to its receiver: the value that was sent, or,
/// where the sender went away without sending one, an error.
pub open spec fn one_shot<T>(sent: Option<T>, received: Result<T, RecvError>) -> bool {
    match sent {
        Some(value) => received == Ok::<T, RecvError>(value),
        None => received is Err,
    }
}

/// Over a one-shot channel a handle gives `Ok(value)` just where its job sent
/// `value`, as a job does that returns it, and `Err(JobPanicked)` just where its
/// job sent nothing, as a job does that panics.
pub proof fn handle_answers_for_its_job<T>(
    sent: Option<T>,
    received: Result<T, RecvError>,
    result: Result<T, JobPanicked>,
)
    requires
        one_shot(sent, received),
        result == JobHandle::<T>::outcome_of(received),
    ensures
        forall|value: T| result == Ok::<T, JobPanicked>(value) <==> sent == Some(value),
        result == Err::<T, JobPanicked>(JobPanicked) <==> sent is None,
{
}

} // verus!
