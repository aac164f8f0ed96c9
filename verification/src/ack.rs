//! The one-shot channel over which a batch's acknowledgment reaches its sender.
use crate::connections::Connections;
use crate::delivery::is_held;
use futures_channel::oneshot;
use futures_util::FutureExt;
use std::task::{Context, Poll};
use vstd::prelude::*;

verus! {

/// `futures_channel::oneshot::Sender`: the half that reports an acknowledgment.
#[verifier::external_type_specification]
#[verifier::external_body]
#[verifier::reject_recursive_types(T)]
pub struct ExSender<T>(oneshot::Sender<T>);

/// `futures_channel::oneshot::Receiver`: the half that waits for it.
#[verifier::external_type_specification]
#[verifier::external_body]
#[verifier::reject_recursive_types(T)]
pub struct ExReceiver<T>(oneshot::Receiver<T>);

/// `futures_channel::oneshot::Canceled`: what a receiver yields once its sender is gone. It
/// is part of the receiver's `Future` impl, so that the receiver cannot be declared alone.
#[verifier::external_type_specification]
#[verifier::external_body]
pub struct ExCanceled(oneshot::Canceled);

/// `std::task::Context`: the task on whose behalf a receiver is polled.
#[verifier::external_type_specification]
#[verifier::external_body]
pub struct ExContext<'a>(Context<'a>);

/// What `futures_channel::oneshot::Sender::is_connected_to` answers: whether the two
/// halves were made by the same call of `oneshot::channel`.
pub uninterp spec fn connected(sender: oneshot::Sender<()>, receiver: oneshot::Receiver<()>) -> bool;

/// Whether `futures_channel::oneshot::Sender::send` is ever called on this sender. The call
/// takes the sender by value, so that this is settled once for each of them.
pub uninterp spec fn reported(sender: oneshot::Sender<()>) -> bool;

/// What polling a receiver found.
#[derive(Debug, Clone, Copy, PartialEq, Eq, Structural)]
pub enum AckPoll {
    /// The sender reported the acknowledgment.
    Acknowledged,
    /// The sender was dropped without reporting one.
    Canceled,
    /// Neither has happened yet.
    Waiting,
}

/// The half of a one-shot channel that hears of an acknowledgment.
///
/// It can be polled and given up, and nothing else: it is never closed.
pub struct AckReceiver {
    receiver: oneshot::Receiver<()>,
    polls: Ghost<Seq<AckPoll>>,
}

impl View for AckReceiver {
    type V = oneshot::Receiver<()>;

    closed spec fn view(&self) -> oneshot::Receiver<()> {
        self.receiver
    }
}

impl AckReceiver {
    /// What the polls of the receiver found, one after the other.
    pub closed spec fn polls(self) -> Seq<AckPoll> {
        self.polls@
    }

    /// Whether no poll of the receiver has found anything yet.
    pub open spec fn is_fresh(self) -> bool {
        forall|i: int|
            0 <= i < self.polls().len() ==> #[trigger] self.polls()[i] == AckPoll::Waiting
    }

    /// The receiver itself.
    pub fn into_inner(self) -> (receiver: oneshot::Receiver<()>)
        ensures
            receiver == self@,
    {
        self.receiver
    }
}

/// Whether an acknowledgment is reported to this receiver.
pub open spec fn is_reported(receiver: AckReceiver) -> bool {
    exists|sender: oneshot::Sender<()>| #[trigger] connected(sender, receiver@) && reported(sender)
}

/// That an acknowledgment was reported.
pub struct AckReport {
    sender: Ghost<oneshot::Sender<()>>,
    heard: bool,
}

impl AckReport {
    /// The sender that the acknowledgment was reported over.
    pub closed spec fn sender(self) -> oneshot::Sender<()> {
        self.sender@
    }

    /// Whether anyone still listened.
    pub closed spec fn was_heard(self) -> bool {
        self.heard
    }

    /// Whether anyone still listened.
    pub fn heard(&self) -> (heard: bool)
        ensures
            heard == self.was_heard(),
    {
        self.heard
    }
}

/// Calls `futures_channel::oneshot::channel`.
///
/// Believed: the two halves are connected to one another, and the receiver
/// was never polled.
#[verifier::external_body]
pub(crate) fn ack_channel() -> (halves: (oneshot::Sender<()>, AckReceiver))
    ensures
        connected(halves.0, halves.1@),
        halves.1.is_fresh(),
        halves.1.polls() == Seq::<AckPoll>::empty(),
{
    let (sender, receiver) = oneshot::channel();
    (sender, AckReceiver { receiver, polls: Ghost(Seq::empty()) })
}

/// Calls `poll_unpin`, of `futures_util::FutureExt`, on a `oneshot::Receiver`.
///
/// Believed: the receiver stays connected to the sender that it was connected to, and to no
/// other. While the connections hold that sender, the poll finds that neither an
/// acknowledgment nor the end of the sender has come: `Sender::send` takes the sender by
/// value, and a sender that is held was not dropped either. A closed receiver would find
/// itself canceled all the same, but an [`AckReceiver`] is never closed. The connections are
/// lent for the length of the call, so that nobody can take the sender out of them meanwhile;
/// the call itself does not look at them.
///
/// Believed too: an acknowledgment is found only where `Sender::send` was called on the
/// connected sender, since nothing else fills the slot that it is taken from. The sender is
/// found to be gone only where that was never called on it: the call fills the slot before
/// the sender ends, and a fresh receiver has not emptied it. The receiver stays fresh until
/// a poll finds the one or the other. What the poll returned is the last entry in the
/// receiver's record of polls.
///
/// When the poll finds either, once the connections no longer hold the sender, is up to
/// whoever took it, on whatever thread, and is left open.
#[verifier::external_body]
pub(crate) fn poll_ack<S>(
    receiver: &mut AckReceiver,
    cx: &mut Context<'_>,
    _connections: &Connections<S>,
) -> (found: AckPoll)
    requires
        old(receiver).is_fresh(),
    ensures
        forall|sender: oneshot::Sender<()>| #[trigger]
            connected(sender, final(receiver)@) == connected(sender, old(receiver)@),
        is_held(_connections@, *old(receiver)) ==> found == AckPoll::Waiting,
        found == AckPoll::Acknowledged ==> is_reported(*old(receiver)),
        found == AckPoll::Canceled ==> !is_reported(*old(receiver)),
        final(receiver).is_fresh() == (found == AckPoll::Waiting),
        final(receiver).polls() == old(receiver).polls().push(found),
{
    let found = match receiver.receiver.poll_unpin(cx) {
        Poll::Ready(Ok(())) => AckPoll::Acknowledged,
        Poll::Ready(Err(_)) => AckPoll::Canceled,
        Poll::Pending => AckPoll::Waiting,
    };
    receiver.polls = Ghost(receiver.polls@.push(found));
    found
}

/// Calls `futures_channel::oneshot::Sender::send`.
///
/// Believed: the acknowledgment is reported over this very sender. Whether it is heard is
/// left open: it is not where the receiver was dropped, on whatever thread. That the
/// connected receiver finds the acknowledgment afterwards is an effect on a value that no
/// argument names, and is left unsaid.
#[verifier::external_body]
pub(crate) fn report_ack(sender: oneshot::Sender<()>) -> (report: AckReport)
    ensures
        report.sender() == sender,
        reported(report.sender()),
{
    let given = Ghost(sender);
    AckReport { sender: given, heard: sender.send(()).is_ok() }
}

/// An acknowledgment is reported to a receiver exactly if `send` is called on a sender that
/// the receiver is connected to, and a receiver is fresh exactly if each of its polls found
/// it waiting.
pub proof fn reports_come_over_the_connected_sender(receiver: AckReceiver)
    ensures
        is_reported(receiver) <==> exists|sender: oneshot::Sender<()>| #[trigger]
            connected(sender, receiver@) && reported(sender),
        receiver.is_fresh() <==> forall|k: int|
            0 <= k < receiver.polls().len() ==> (#[trigger] receiver.polls()[k])
                == AckPoll::Waiting,
{
}

} // verus!
