//! The channel over which engine systems report on the loads that were handed to them.

use crate::ids::LoadHandle;
use crossbeam_channel::{Receiver, Sender};
use std::sync::Arc;
use vstd::prelude::*;

verus! {

/// The receiving half of a channel of `crossbeam_channel`.
#[verifier::external_type_specification]
#[verifier::external_body]
#[verifier::reject_recursive_types(T)]
pub struct ExReceiver<T>(Receiver<T>);

/// The sending half of a channel of `crossbeam_channel`.
#[verifier::external_type_specification]
#[verifier::external_body]
#[verifier::reject_recursive_types(T)]
pub struct ExSender<T>(Sender<T>);

/// A report on a load that was handed to the engine.
#[derive(Debug)]
pub enum HandleOp {
    /// The engine could not load the asset, and says why.
    LoadError(LoadHandle, String),
    /// The engine has loaded the asset.
    LoadComplete(LoadHandle),
    /// The engine dropped the operation without saying how it ended.
    LoadDrop(LoadHandle),
}

/// The answers that polling a receiver has given so far, one per poll: a report, or nothing.
pub uninterp spec fn polls(receiver: Receiver<HandleOp>) -> Seq<Option<HandleOp>>;

/// The reports that the holder of a sender has handed to the channel over it so far. What others
/// who share the sender hand over afterwards is not counted.
pub uninterp spec fn sent(sender: Sender<HandleOp>) -> Seq<HandleOp>;

/// Whether a sender and a receiver are halves of the same channel.
pub uninterp spec fn connected(sender: Sender<HandleOp>, receiver: Receiver<HandleOp>) -> bool;

/// `crossbeam_channel::unbounded` makes a channel and gives its two halves, over which nothing was
/// sent and which were not polled yet.
#[verifier::external_body]
pub(crate) fn open_channel() -> (halves: (Sender<HandleOp>, Receiver<HandleOp>))
    ensures
        connected(halves.0, halves.1),
        sent(halves.0).len() == 0,
        polls(halves.1).len() == 0,
{
    crossbeam_channel::unbounded()
}

/// `Receiver::try_recv` takes a report off the channel if one is there, without waiting. Whether
/// one is there, and which, depends on what has been sent by then and is not claimed. The answer is
/// one more answer of this receiver, which stays the half of the channel that it is.
#[verifier::external_body]
pub(crate) fn poll(receiver: &mut Receiver<HandleOp>) -> (answer: Option<HandleOp>)
    ensures
        polls(*final(receiver)) == polls(*old(receiver)).push(answer),
        forall|sender: Sender<HandleOp>| #[trigger]
            connected(sender, *final(receiver)) == connected(sender, *old(receiver)),
{
    receiver.try_recv().ok()
}

/// `Sender::try_send` hands a report to the channel, without waiting. It is one more report that
/// this holder of the sender has handed over, and the sender stays the half of the channel that it
/// is. The channel keeps the report unless it is full, which an unbounded channel never is, or its
/// other half is gone; which of these it is depends on the other half, and is not claimed.
#[verifier::external_body]
fn report(sender: &mut Arc<Sender<HandleOp>>, op: HandleOp)
    ensures
        sent(**final(sender)) == sent(**old(sender)).push(op),
        forall|receiver: Receiver<HandleOp>| #[trigger]
            connected(**final(sender), receiver) == connected(**old(sender), receiver),
    opens_invariants none
    no_unwind
{
    let _ = sender.try_send(op);
}

/// `Arc::clone` gives another pointer to the same value.
#[verifier::external_body]
pub(crate) fn share(sender: &Arc<Sender<HandleOp>>) -> (shared: Arc<Sender<HandleOp>>)
    ensures
        shared == *sender,
{
    sender.clone()
}

/// An operation of the engine as a mathematical value.
pub struct LoadOpModel {
    /// The load that the operation is about.
    pub load: LoadHandle,
    /// Where the report goes.
    pub sender: Arc<Sender<HandleOp>>,
    /// Whether the report is still to be made.
    pub open: bool,
}

impl LoadOpModel {
    /// An operation on `load` that is to be reported to `sender`.
    pub open spec fn fresh(load: LoadHandle, sender: Arc<Sender<HandleOp>>) -> Self {
        LoadOpModel { load, sender, open: true }
    }

    /// Whether `after` is this operation once `op` is reported, unless a report was made before:
    /// then nothing is sent.
    pub open spec fn ends_as(self, after: LoadOpModel, op: HandleOp) -> bool {
        &&& after.load == self.load
        &&& !after.open
        &&& sent(*after.sender) == if self.open {
            sent(*self.sender).push(op)
        } else {
            sent(*self.sender)
        }
        &&& forall|receiver: Receiver<HandleOp>| #[trigger]
            connected(*after.sender, receiver) == connected(*self.sender, receiver)
    }
}

/// Lets the engine say how a load that was handed to it has ended.
pub struct AssetLoadOp {
    sender: Arc<Sender<HandleOp>>,
    handle: LoadHandle,
    open: bool,
}

impl View for AssetLoadOp {
    type V = LoadOpModel;

    closed spec fn view(&self) -> LoadOpModel {
        LoadOpModel { load: self.handle, sender: self.sender, open: self.open }
    }
}

impl AssetLoadOp {
    /// An operation on the load `handle`, to be reported to `sender`.
    pub fn new(sender: Arc<Sender<HandleOp>>, handle: LoadHandle) -> (op: Self)
        ensures
            op@ == LoadOpModel::fresh(handle, sender),
    {
        AssetLoadOp { sender, handle, open: true }
    }

    /// Makes the report `op`, unless a report was made before.
    fn conclude(&mut self, op: HandleOp)
        ensures
            old(self)@.ends_as(final(self)@, op),
    {
        if self.open {
            report(&mut self.sender, op);
            self.open = false;
        }
    }

    /// Reports that the asset is loaded. What comes back has nothing more to report.
    pub fn complete(self) -> (ended: Self)
        ensures
            self@.ends_as(ended@, HandleOp::LoadComplete(self@.load)),
    {
        let mut op = self;
        op.conclude(HandleOp::LoadComplete(op.handle));
        op
    }

    /// Reports that the asset could not be loaded, and why. What comes back has nothing more to
    /// report.
    pub fn error(self, reason: String) -> (ended: Self)
        ensures
            self@.ends_as(ended@, HandleOp::LoadError(self@.load, reason)),
    {
        let mut op = self;
        op.conclude(HandleOp::LoadError(op.handle, reason));
        op
    }
}

impl Drop for AssetLoadOp {
    fn drop(&mut self)
        ensures
            sent(*final(self)@.sender) == if old(self)@.open {
                sent(*old(self)@.sender).push(HandleOp::LoadDrop(old(self)@.load))
            } else {
                sent(*old(self)@.sender)
            },
        opens_invariants none
        no_unwind
    {
        if self.open {
            report(&mut self.sender, HandleOp::LoadDrop(self.handle));
        }
    }
}

} // verus!
