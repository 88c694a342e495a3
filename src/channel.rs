use std::sync::mpsc::{Receiver, Sender};
use std::sync::{Arc, Mutex};
use vstd::prelude::*;
use crate::effects::{send_on, SentLog};
use crate::task::TaskAction;

verus! {

/// The sending end of a std pipe; opaque.
#[verifier::external_type_specification]
#[verifier::external_body]
#[verifier::reject_recursive_types(T)]
pub struct ExSender<T>(std::sync::mpsc::Sender<T>);

/// The receiving end of a std pipe; opaque.
#[verifier::external_type_specification]
#[verifier::external_body]
#[verifier::reject_recursive_types(T)]
pub struct ExReceiver<T>(std::sync::mpsc::Receiver<T>);

/// std's mutex, around the receiving end; opaque.
#[verifier::external_type_specification]
#[verifier::external_body]
#[verifier::reject_recursive_types(T)]
pub struct ExMutex<T: ?Sized>(std::sync::Mutex<T>);

/// Relies on `std::sync::mpsc::channel`: a new pipe, as its two ends.
pub assume_specification<T>[ std::sync::mpsc::channel::<T> ]() -> (Sender<T>, Receiver<T>);

/// Relies on `Mutex::new`: a new, unlocked mutex around the value.
pub assume_specification<T>[ std::sync::Mutex::<T>::new ](t: T) -> Mutex<T>;

/// A many-to-one pipe of control signals. Producers call `send`; one
/// listener drains `task_receiver` and decides each step with [`next_step`].
pub struct Channel {
    pub task_sender: Sender<TaskAction>,
    pub task_receiver: Arc<Mutex<Receiver<TaskAction>>>,
    sent: SentLog,
}

impl Channel {
    /// The actions sent through this handle, oldest first.
    pub closed spec fn sent(&self) -> Seq<TaskAction> {
        self.sent.actions()
    }

    /// A new pipe with nothing sent.
    pub fn new() -> (r: Channel)
        ensures
            r.sent() == Seq::<TaskAction>::empty(),
    {
        let (sender, receiver) = std::sync::mpsc::channel();
        Channel {
            task_sender: sender,
            task_receiver: Arc::new(Mutex::new(receiver)),
            sent: SentLog::new(),
        }
    }

    /// Enqueues `val`. A failure (no receiver left) is not reported.
    pub fn send(&mut self, val: TaskAction)
        ensures
            final(self).sent() == old(self).sent().push(val),
    {
        send_on(&self.task_sender, val, &mut self.sent);
    }
}

/// What the listener does after one receive.
#[derive(Clone, Copy, Debug, PartialEq, Eq, Structural)]
pub enum ListenStep {
    /// Call the success handler with this action and keep listening.
    Handle(TaskAction),
    /// A shutdown came: stop without calling either handler.
    Finish,
    /// The pipe failed: call the error handler once and stop.
    Fail,
}

/// The listener's decision on one receive; `None` is a failed receive.
pub open spec fn step_of(received: Option<TaskAction>) -> ListenStep {
    match received {
        Some(TaskAction::Shutdown) => ListenStep::Finish,
        Some(a) => ListenStep::Handle(a),
        None => ListenStep::Fail,
    }
}

/// Decides what the listener does with one receive.
pub fn next_step(received: Option<TaskAction>) -> (r: ListenStep)
    ensures
        r == step_of(received),
{
    match received {
        Some(TaskAction::Shutdown) => ListenStep::Finish,
        Some(a) => ListenStep::Handle(a),
        None => ListenStep::Fail,
    }
}

/// Whether the listener has stopped after the receives in `rs`.
pub open spec fn stopped(rs: Seq<Option<TaskAction>>) -> bool
    decreases rs.len(),
{
    if rs.len() == 0 {
        false
    } else {
        stopped(rs.drop_last()) || !(step_of(rs.last()) is Handle)
    }
}

/// The success-handler calls made by a listener that sees the receives in
/// `rs`, in order; it ignores what comes after it has stopped.
pub open spec fn handled(rs: Seq<Option<TaskAction>>) -> Seq<TaskAction>
    decreases rs.len(),
{
    if rs.len() == 0 {
        Seq::empty()
    } else if stopped(rs.drop_last()) {
        handled(rs.drop_last())
    } else {
        match step_of(rs.last()) {
            ListenStep::Handle(a) => handled(rs.drop_last()).push(a),
            _ => handled(rs.drop_last()),
        }
    }
}

/// The number of error-handler calls made by a listener that sees the
/// receives in `rs`.
pub open spec fn errors(rs: Seq<Option<TaskAction>>) -> nat
    decreases rs.len(),
{
    if rs.len() == 0 {
        0
    } else if stopped(rs.drop_last()) {
        errors(rs.drop_last())
    } else {
        match step_of(rs.last()) {
            ListenStep::Fail => errors(rs.drop_last()) + 1,
            _ => errors(rs.drop_last()),
        }
    }
}

/// The receives that a stream of sends produces, in order.
pub open spec fn received(sends: Seq<TaskAction>) -> Seq<Option<TaskAction>> {
    sends.map_values(|a: TaskAction| Some(a))
}

proof fn lemma_received_drop_last(sends: Seq<TaskAction>)
    requires
        sends.len() > 0,
    ensures
        received(sends).drop_last() == received(sends.drop_last()),
        received(sends).last() == Some(sends.last()),
{
    assert(received(sends).drop_last() =~= received(sends.drop_last()));
}

/// A stream of actions without a shutdown is handled action by action, with
/// no error and without stopping.
proof fn lemma_plain_stream(sends: Seq<TaskAction>)
    requires
        !sends.contains(TaskAction::Shutdown),
    ensures
        !stopped(received(sends)),
        handled(received(sends)) == sends,
        errors(received(sends)) == 0,
    decreases sends.len(),
{
    if sends.len() == 0 {
        assert(received(sends) =~= Seq::<Option<TaskAction>>::empty());
        assert(sends =~= Seq::<TaskAction>::empty());
    } else {
        let prev = sends.drop_last();
        assert(!prev.contains(TaskAction::Shutdown)) by {
            if prev.contains(TaskAction::Shutdown) {
                let i = choose|i: int| 0 <= i < prev.len() && prev[i] == TaskAction::Shutdown;
                assert(sends[i] == TaskAction::Shutdown);
            }
        }
        lemma_plain_stream(prev);
        lemma_received_drop_last(sends);
        assert(sends.last() != TaskAction::Shutdown) by {
            assert(sends[sends.len() - 1] == sends.last());
        }
        assert(sends =~= prev.push(sends.last()));
    }
}

/// Once a listener has stopped, later receives change nothing.
proof fn lemma_stopped_stays(rs: Seq<Option<TaskAction>>, tail: Seq<Option<TaskAction>>)
    requires
        stopped(rs),
    ensures
        stopped(rs + tail),
        handled(rs + tail) == handled(rs),
        errors(rs + tail) == errors(rs),
    decreases tail.len(),
{
    if tail.len() == 0 {
        assert(rs + tail =~= rs);
    } else {
        lemma_stopped_stays(rs, tail.drop_last());
        assert((rs + tail).drop_last() =~= rs + tail.drop_last());
    }
}

/// A listener that receives some actions, then a shutdown, then anything
/// more, calls the success handler for exactly the actions before the
/// shutdown, never for the shutdown or what follows it, and never calls the
/// error handler.
pub proof fn lemma_shutdown_ends_listening(before: Seq<TaskAction>, after: Seq<TaskAction>)
    requires
        !before.contains(TaskAction::Shutdown),
    ensures
        handled(received(before.push(TaskAction::Shutdown) + after)) == before,
        errors(received(before.push(TaskAction::Shutdown) + after)) == 0,
        stopped(received(before.push(TaskAction::Shutdown) + after)),
{
    let upto = before.push(TaskAction::Shutdown);
    lemma_plain_stream(before);
    lemma_received_drop_last(upto);
    assert(upto.drop_last() =~= before);
    assert(stopped(received(upto)));
    lemma_stopped_stays(received(upto), received(after));
    assert(received(upto + after) =~= received(upto) + received(after));
}

/// A listener whose pipe closes after some actions and no shutdown calls the
/// success handler for each of those actions and the error handler exactly
/// once, and then stops.
pub proof fn lemma_close_reports_once(sends: Seq<TaskAction>)
    requires
        !sends.contains(TaskAction::Shutdown),
    ensures
        handled(received(sends).push(None)) == sends,
        errors(received(sends).push(None)) == 1,
        stopped(received(sends).push(None)),
{
    lemma_plain_stream(sends);
    assert(received(sends).push(None).drop_last() =~= received(sends));
}

} // verus!
