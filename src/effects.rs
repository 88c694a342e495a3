//! The calls with effects outside the library, each entered in a ghost log
//! that only the call itself writes.
use std::sync::mpsc::Sender;
use tokio::task::JoinHandle;
use vstd::prelude::*;
use crate::task::TaskAction;

verus! {

/// The ids whose running units were asked to cancel, oldest first.
pub struct CancelLog {
    ids: Ghost<Seq<i32>>,
}

impl CancelLog {
    pub closed spec fn ids(&self) -> Seq<i32> {
        self.ids@
    }

    /// An empty log.
    pub(crate) fn new() -> (r: CancelLog)
        ensures
            r.ids() == Seq::<i32>::empty(),
    {
        CancelLog { ids: Ghost(Seq::empty()) }
    }
}

/// Relies on tokio's `JoinHandle::abort`: it asks the runtime to cancel the
/// unit behind `handle` and returns at once, without waiting for it. The
/// request is entered in `log` under `id`.
#[verifier::external_body]
pub(crate) fn abort_unit(handle: &JoinHandle<()>, id: i32, log: &mut CancelLog)
    ensures
        final(log).ids() == old(log).ids().push(id),
{
    handle.abort();
}

/// The actions handed to a sender, oldest first.
pub struct SentLog {
    actions: Ghost<Seq<TaskAction>>,
}

impl SentLog {
    pub closed spec fn actions(&self) -> Seq<TaskAction> {
        self.actions@
    }

    /// An empty log.
    pub(crate) fn new() -> (r: SentLog)
        ensures
            r.actions() == Seq::<TaskAction>::empty(),
    {
        SentLog { actions: Ghost(Seq::empty()) }
    }
}

/// Relies on `Sender::send`: it enqueues `val`, or hands it back in an error
/// (dropped here) when the receiving end is gone; it never blocks. The
/// action is entered in `log`.
#[verifier::external_body]
pub(crate) fn send_on(sender: &Sender<TaskAction>, val: TaskAction, log: &mut SentLog)
    ensures
        final(log).actions() == old(log).actions().push(val),
{
    let _ = sender.send(val);
}

} // verus!
