//! The shrine: one resource owned by one worker, reached from any number of
//! threads through handles that queue closures to run against it.
//!
//! A handle (`Miko`) sends work items down a queue; the worker takes them one
//! at a time, in arrival order, and runs each against the resource
//! (`ShrineInbox::serve_one`). Calls that want an answer give the work item a
//! private reply queue of its own.

use vstd::prelude::*;

verus! {

#[verifier::external_type_specification]
#[verifier::external_body]
#[verifier::reject_recursive_types(M)]
pub struct ExSender<M>(std::sync::mpsc::Sender<M>);

#[verifier::external_type_specification]
#[verifier::external_body]
#[verifier::reject_recursive_types(M)]
pub struct ExReceiver<M>(std::sync::mpsc::Receiver<M>);

/// Why a call through a handle did not give a result.
#[derive(Debug, Clone, PartialEq, Eq)]
pub enum ShrineError {
    /// The worker is gone: nothing takes work from the queue any more, or
    /// it dropped the work item without answering.
    ActorUnavailable,
    /// The closure ran and returned this error.
    WorkItemFailed(String),
}

/// A unit of deferred work against a resource of type `T`.
pub trait WorkItem<T>: Send {
    /// Running this item on the resource behind `kami` can leave it as
    /// `*final(kami)` and return `r`.
    spec fn ran(&self, kami: &mut T, r: Result<(), String>) -> bool;

    /// Runs the item against the resource.
    fn execute(self: Box<Self>, kami: &mut T) -> (r: Result<(), String>)
        ensures
            exists|k: &mut T| *k == *old(kami) && *final(k) == *final(kami) && #[trigger] (*self).ran(k, r),
    ;
}

/// What travels down the queue to the worker.
#[verifier::reject_recursive_types(T)]
pub enum ShrineMessage<T> {
    Work(Box<dyn WorkItem<T>>),
    Stop,
}

/// A closure waiting in the queue, which accepts any resource.
pub struct Messenger<T, F: FnOnce(&mut T) -> Result<(), String>> {
    f: F,
    /// Names the resource type, which the closure's bound and the invariant
    /// speak of; it carries no value.
    resource: Ghost<Option<T>>,
}

impl<T, F: FnOnce(&mut T) -> Result<(), String>> Messenger<T, F> {
    #[verifier::type_invariant]
    spec fn callable(&self) -> bool {
        forall|k: &mut T| #[trigger] self.f.requires((k,))
    }
}

impl<T, F: FnOnce(&mut T) -> Result<(), String> + Send> WorkItem<T> for Messenger<T, F> {
    closed spec fn ran(&self, kami: &mut T, r: Result<(), String>) -> bool {
        self.f.ensures((kami,), r)
    }

    fn execute(self: Box<Self>, kami: &mut T) -> (r: Result<(), String>) {
        let me = *self;
        proof {
            use_type_invariant(&me);
        }
        let f = me.f;
        let r = f(kami);
        proof {
            let k = choose|k: &mut T| *k == *old(kami) && *final(k) == *kami && f.ensures((k,), r);
            assert(me.ran(k, r));
        }
        r
    }
}

/// What the worker did with the next message of its queue.
#[derive(Debug, PartialEq, Eq)]
pub enum WorkerStep {
    /// It ran a work item, which returned this; the worker goes on either way.
    Ran(Result<(), String>),
    /// It met the stop sentinel, or the queue has no senders left.
    Stop,
}

/// Relies on std::sync::mpsc::channel: a new queue, its sending and its
/// receiving end.
#[verifier::external_body]
fn new_queue<M>() -> (r: (std::sync::mpsc::Sender<M>, std::sync::mpsc::Receiver<M>)) {
    std::sync::mpsc::channel()
}

/// Relies on std::sync::mpsc::Sender::send: true when the message was
/// queued, false when the receiving end is gone.
#[verifier::external_body]
fn post<M>(chan: &std::sync::mpsc::Sender<M>, m: M) -> (r: bool) {
    chan.send(m).is_ok()
}

/// Relies on std::sync::mpsc::Receiver::recv: the next message, waiting for
/// one, or None once the queue is empty and every sender is gone.
#[verifier::external_body]
fn receive<M>(chan: &std::sync::mpsc::Receiver<M>) -> (r: Option<M>) {
    chan.recv().ok()
}

/// Relies on Clone for std::sync::mpsc::Sender: another sender into the same
/// queue.
#[verifier::external_body]
fn another_sender<M>(chan: &std::sync::mpsc::Sender<M>) -> (r: std::sync::mpsc::Sender<M>) {
    chan.clone()
}

/// The result of queueing a work item, from whether the queue took it.
pub fn enqueue_outcome(delivered: bool) -> (r: Result<(), ShrineError>)
    ensures
        delivered ==> r == Ok::<(), ShrineError>(()),
        !delivered ==> r == Err::<(), ShrineError>(ShrineError::ActorUnavailable),
{
    if delivered {
        Ok(())
    } else {
        Err(ShrineError::ActorUnavailable)
    }
}

/// The result of a call that waited for its reply: the closure's value, the
/// closure's error, or, when no reply came, an unavailable worker.
pub fn reply_outcome<R>(reply: Option<Result<R, String>>) -> (r: Result<R, ShrineError>)
    ensures
        match reply {
            None => r == Err::<R, ShrineError>(ShrineError::ActorUnavailable),
            Some(Ok(v)) => r == Ok::<R, ShrineError>(v),
            Some(Err(e)) => r == Err::<R, ShrineError>(ShrineError::WorkItemFailed(e)),
        },
{
    match reply {
        None => Err(ShrineError::ActorUnavailable),
        Some(Ok(v)) => Ok(v),
        Some(Err(e)) => Err(ShrineError::WorkItemFailed(e)),
    }
}

/// The message that asks the worker to run `the_fn`: a work item whose runs
/// are exactly the closure's.
pub fn work_message<T: 'static, F: FnOnce(&mut T) -> Result<(), String> + Send + 'static>(the_fn: F) -> (m: ShrineMessage<T>)
    requires
        forall|k: &mut T| #[trigger] the_fn.requires((k,)),
    ensures
        m matches ShrineMessage::Work(w) && forall|k: &mut T, x: Result<(), String>| #[trigger] w.ran(k, x) <==> the_fn.ensures((k,), x),
{
    let item = Messenger { f: the_fn, resource: Ghost(None) };
    ShrineMessage::Work(Box::new(item))
}

/// The message that stops the worker.
pub fn stop_message<T>() -> (m: ShrineMessage<T>)
    ensures
        m is Stop,
{
    ShrineMessage::Stop
}

/// What the worker does with one message: it runs a work item against the
/// resource and goes on whatever the item returned; it stops at the sentinel
/// or when the queue has no senders left.
pub fn worker_step<T>(message: Option<ShrineMessage<T>>, kami: &mut T) -> (r: WorkerStep)
    ensures
        match message {
            Some(ShrineMessage::Work(w)) => r matches WorkerStep::Ran(x) && exists|k: &mut T| *k == *old(kami) && *final(k) == *final(kami) && #[trigger] w.ran(k, x),
            _ => r == WorkerStep::Stop && *final(kami) == *old(kami),
        },
{
    match message {
        Some(ShrineMessage::Work(w)) => WorkerStep::Ran(w.execute(kami)),
        Some(ShrineMessage::Stop) => WorkerStep::Stop,
        None => WorkerStep::Stop,
    }
}

/// A handle on a shrine: any number of them, on any threads, reach the one
/// worker and its one resource.
#[verifier::reject_recursive_types(T)]
#[derive(Debug)]
pub struct Miko<T> {
    chan: std::sync::mpsc::Sender<ShrineMessage<T>>,
}

/// The worker's end of a shrine's queue.
#[verifier::reject_recursive_types(T)]
pub struct ShrineInbox<T> {
    chan: std::sync::mpsc::Receiver<ShrineMessage<T>>,
}

/// A new shrine queue: the first handle on it and the worker's end.
pub fn open_shrine<T>() -> (r: (Miko<T>, ShrineInbox<T>)) {
    let (tx, rx) = new_queue();
    (Miko { chan: tx }, ShrineInbox { chan: rx })
}

impl<T> ShrineInbox<T> {
    /// Waits for the next message and handles it as `worker_step` says: the
    /// resource is left alone unless a work item ran on it.
    pub fn serve_one(&self, kami: &mut T) -> (r: WorkerStep)
        ensures
            r is Stop ==> *final(kami) == *old(kami),
            r matches WorkerStep::Ran(x) ==> exists|w: Box<dyn WorkItem<T>>, k: &mut T|
                *k == *old(kami) && *final(k) == *final(kami) && #[trigger] w.ran(k, x),
    {
        let message = receive(&self.chan);
        worker_step(message, kami)
    }
}

impl<T> Clone for Miko<T> {
    fn clone(&self) -> Self {
        Miko { chan: another_sender(&self.chan) }
    }
}

impl<T: 'static> Miko<T> {
    /// Queues the stop sentinel: the worker stops when it reaches it, after
    /// the work queued before it.
    pub fn send_stop(&self) -> (r: Result<(), ShrineError>)
        ensures
            r is Ok || r == Err::<(), ShrineError>(ShrineError::ActorUnavailable),
    {
        enqueue_outcome(post(&self.chan, stop_message()))
    }

    /// Queues `the_fn` to run against the resource, without waiting for it.
    pub fn send_raw_messenger<F: FnOnce(&mut T) -> Result<(), String> + Send + 'static>(&self, the_fn: F) -> (r: Result<(), ShrineError>)
        requires
            forall|k: &mut T| #[trigger] the_fn.requires((k,)),
        ensures
            r is Ok || r == Err::<(), ShrineError>(ShrineError::ActorUnavailable),
    {
        let message = work_message(the_fn);
        enqueue_outcome(post(&self.chan, message))
    }

    /// Queues `messenger` to run against the resource with exclusive access,
    /// and gives the queue on which its reply will come.
    pub fn send_mutating_messenger_get_channel<R: Send + 'static, F: FnOnce(&mut T) -> Result<R, String> + Send + 'static>(
        &self,
        messenger: F,
    ) -> (r: Result<std::sync::mpsc::Receiver<Result<R, String>>, ShrineError>)
        requires
            forall|k: &mut T| #[trigger] messenger.requires((k,)),
        ensures
            r is Ok || r == Err::<std::sync::mpsc::Receiver<Result<R, String>>, ShrineError>(ShrineError::ActorUnavailable),
    {
        let (tx, rx) = new_queue::<Result<R, String>>();
        let job = move |kami: &mut T| -> (out: Result<(), String>)
            requires
                messenger.requires((kami,)),
            ensures
                exists|k: &mut T, res: Result<R, String>|
                    *k == *old(kami) && *final(k) == *final(kami) && #[trigger] messenger.ensures((k,), res) && answered(res, out),
            {
                let res = messenger(kami);
                let out = answer(&tx, res);
                proof {
                    let k = choose|k: &mut T| *k == *old(kami) && *final(k) == *kami && messenger.ensures((k,), res);
                    assert(answered(res, out));
                }
                out
            };
        match self.send_raw_messenger(job) {
            Ok(()) => Ok(rx),
            Err(e) => Err(e),
        }
    }

    /// Queues `messenger` to run against the resource with shared access, and
    /// gives the queue on which its reply will come.
    pub fn send_messenger_get_channel<R: Send + 'static, F: FnOnce(&T) -> Result<R, String> + Send + 'static>(
        &self,
        messenger: F,
    ) -> (r: Result<std::sync::mpsc::Receiver<Result<R, String>>, ShrineError>)
        requires
            forall|k: &T| #[trigger] messenger.requires((k,)),
        ensures
            r is Ok || r == Err::<std::sync::mpsc::Receiver<Result<R, String>>, ShrineError>(ShrineError::ActorUnavailable),
    {
        let (tx, rx) = new_queue::<Result<R, String>>();
        let job = move |kami: &mut T| -> (out: Result<(), String>)
            requires
                messenger.requires((&*kami,)),
            ensures
                *final(kami) == *old(kami),
                exists|res: Result<R, String>| #[trigger] messenger.ensures((&*old(kami),), res) && answered(res, out),
            {
                let res = messenger(&*kami);
                answer(&tx, res)
            };
        match self.send_raw_messenger(job) {
            Ok(()) => Ok(rx),
            Err(e) => Err(e),
        }
    }

    /// Runs `messenger` against the resource with shared access and waits for
    /// its reply.
    pub fn send_messenger<R: Send + 'static, F: FnOnce(&T) -> Result<R, String> + Send + 'static>(&self, messenger: F) -> (r: Result<R, ShrineError>)
        requires
            forall|k: &T| #[trigger] messenger.requires((k,)),
    {
        let rx = self.send_messenger_get_channel(messenger)?;
        reply_outcome(receive(&rx))
    }

    /// Runs `messenger` against the resource with exclusive access and waits
    /// for its reply.
    pub fn send_mutating_messenger<R: Send + 'static, F: FnOnce(&mut T) -> Result<R, String> + Send + 'static>(&self, messenger: F) -> (r: Result<R, ShrineError>)
        requires
            forall|k: &mut T| #[trigger] messenger.requires((k,)),
    {
        let rx = self.send_mutating_messenger_get_channel(messenger)?;
        reply_outcome(receive(&rx))
    }
}

/// `out` is what a replying work item hands the worker once its closure
/// returned `res`: success, or the closure's error.
pub open spec fn answered<R>(res: Result<R, String>, out: Result<(), String>) -> bool {
    &&& (res is Ok ==> out is Ok)
    &&& (res matches Err(e) ==> out == Err::<(), String>(e))
}

/// Sends a work item's result back to its caller, and hands the closure's
/// error on to the worker as well.
fn answer<R>(tx: &std::sync::mpsc::Sender<Result<R, String>>, res: Result<R, String>) -> (r: Result<(), String>)
    ensures
        answered(res, r),
{
    match res {
        Ok(v) => {
            let _ = post(tx, Ok(v));
            Ok(())
        },
        Err(e) => {
            let _ = post(tx, Err(e.clone()));
            Err(e)
        },
    }
}

} // verus!
