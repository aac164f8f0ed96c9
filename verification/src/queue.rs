//! The queue through which one webview gets its edits.
use crate::ack::{connected, is_reported, poll_ack, reported, AckPoll, AckReceiver};
use crate::connections::ConnectionsView;
use crate::delivery::{
    holds, is_held, lemma_held_batch_has_a_place, sending_adds_one_batch,
};
use crate::flush::lemma_polled_parts;
use crate::outcomes::{polling_adds_nothing, what_is_left_was_polled};
use crate::handshake::request_path;
use crate::keys::{base64_url_safe, encode_key_string};
use crate::message::MsgPair;
use crate::server::EditWebsocket;
use crate::text::decimal;
use futures_channel::oneshot;
use std::sync::Arc;
use std::task::Context;
use vstd::prelude::*;

verus! {

/// How long an acknowledgment may take before the socket counts as dead, in nanoseconds.
pub const STALE_THRESHOLD: u128 = 3_000_000_000;

/// How long a triggered reconnect keeps the next one back, in nanoseconds.
pub const RECONNECT_COOLDOWN: u128 = 3_000_000_000;

/// A batch that was sent and that the webview has not acknowledged yet.
pub struct BatchInProgress {
    /// The place of the batch in the webview's sequence.
    pub batch_id: u64,
    /// The serialized edits.
    pub edits: Arc<Vec<u8>>,
    /// Hears of the acknowledgment.
    pub receiver: AckReceiver,
}

/// This handles communication between the requests that the webview makes and the interpreter.
///
/// Times are in nanoseconds since a moment of the caller's choice.
pub struct WryQueue {
    /// The id of the webview.
    webview_id: u32,
    /// The batches that this webview has yet to flush, oldest first. We don't run the virtual dom while there are any to avoid running effects before the dom has been updated
    edits_in_progress: Vec<BatchInProgress>,
    /// When the current edit batch was dispatched (for stale ACK detection)
    edit_sent_at: Option<u128>,
    next_batch_id: u64,
    suspended: bool,
    /// When we last triggered a JS WebSocket reconnect (debounce)
    reconnect_triggered_at: Option<u128>,
}

/// What a [`WryQueue`] holds.
#[verifier::ext_equal]
pub struct QueueView {
    pub webview_id: u32,
    pub edits_in_progress: Seq<BatchInProgress>,
    pub edit_sent_at: Option<u128>,
    pub next_batch_id: u64,
    pub suspended: bool,
    pub reconnect_triggered_at: Option<u128>,
}

/// What has become of the edits in progress.
#[derive(Clone, Copy, PartialEq, Eq, Structural, Debug)]
pub enum Flush {
    /// All edits have been rendered in the webview.
    Done,
    /// The webview has not acknowledged every batch yet.
    Waiting,
    /// The webview has not acknowledged every batch yet, and at least one was sent again,
    /// since nothing was left to report its acknowledgment; the queue is to be polled again.
    Replayed,
}

/// The time from `since` until `now`, or none where `now` is the earlier one.
pub open spec fn elapsed(since: u128, now: u128) -> int {
    if now >= since {
        now - since
    } else {
        0
    }
}

impl QueueView {
    /// A queue that has sent nothing yet.
    pub open spec fn initial(webview_id: u32) -> QueueView {
        QueueView {
            webview_id,
            edits_in_progress: Seq::empty(),
            edit_sent_at: None,
            next_batch_id: 1,
            suspended: false,
            reconnect_triggered_at: None,
        }
    }

    /// Whether the queue is in order: the ids of the batches in progress ascend and were all
    /// given out, a time of dispatch is kept exactly while there is such a batch, and whatever a
    /// poll of their receivers found was acted on.
    pub open spec fn wf(self) -> bool {
        &&& self.is_ordered()
        &&& forall|i: int|
            0 <= i < self.edits_in_progress.len() ==> (
            #[trigger] self.edits_in_progress[i]).receiver.is_fresh()
    }

    /// What [`QueueView::wf`] says of ids and times.
    pub open spec fn is_ordered(self) -> bool {
        &&& self.next_batch_id >= 1
        &&& forall|i: int|
            0 <= i < self.edits_in_progress.len() ==> 1 <= (
            #[trigger] self.edits_in_progress[i]).batch_id < self.next_batch_id
        &&& forall|i: int, j: int|
            0 <= i < j < self.edits_in_progress.len() ==> (
            #[trigger] self.edits_in_progress[i]).batch_id < (
            #[trigger] self.edits_in_progress[j]).batch_id
        &&& self.edits_in_progress.len() > 0 <==> self.edit_sent_at is Some
    }

    /// Whether batch `batch_id` was sent and is not acknowledged yet.
    pub open spec fn awaits(self, batch_id: u64) -> bool {
        exists|i: int|
            0 <= i < self.edits_in_progress.len() && (
            #[trigger] self.edits_in_progress[i]).batch_id == batch_id
    }

    /// After the next batch was sent, behind all others.
    pub open spec fn sending(
        self,
        edits: Arc<Vec<u8>>,
        receiver: AckReceiver,
        now: u128,
    ) -> QueueView {
        QueueView {
            edits_in_progress: self.edits_in_progress.push(
                BatchInProgress { batch_id: self.next_batch_id, edits, receiver },
            ),
            edit_sent_at: Some(now),
            next_batch_id: (self.next_batch_id + 1) as u64,
            ..self
        }
    }

    /// After the batch at `index` was acknowledged: it alone is in progress no more.
    pub open spec fn acknowledged(self, index: int) -> QueueView {
        QueueView {
            edits_in_progress: self.edits_in_progress.remove(index),
            edit_sent_at: if self.edits_in_progress.len() == 1 {
                None
            } else {
                self.edit_sent_at
            },
            ..self
        }
    }

    /// The same queue with another receiver in place of the one that the batch at `index`
    /// waits on.
    pub open spec fn waiting_on(self, index: int, receiver: AckReceiver) -> QueueView {
        QueueView {
            edits_in_progress: self.edits_in_progress.update(
                index,
                BatchInProgress { receiver, ..self.edits_in_progress[index] },
            ),
            ..self
        }
    }

    /// Whether the batches in progress have waited so long that a reconnect is called for.
    pub open spec fn is_stale(self, now: u128) -> bool {
        &&& !self.suspended
        &&& self.edits_in_progress.len() > 0
        &&& self.edit_sent_at is Some
        &&& elapsed(self.edit_sent_at->0, now) >= STALE_THRESHOLD
        &&& self.reconnect_triggered_at is Some ==> elapsed(self.reconnect_triggered_at->0, now)
            >= RECONNECT_COOLDOWN
    }

    /// After a reconnect was triggered.
    pub open spec fn triggering(self, now: u128) -> QueueView {
        QueueView { reconnect_triggered_at: Some(now), ..self }
    }

    /// After it was looked whether a reconnect is called for.
    pub open spec fn checking(self, now: u128) -> QueueView {
        if self.is_stale(now) {
            self.triggering(now)
        } else {
            self
        }
    }

    /// After the application was suspended or resumed.
    pub open spec fn suspending(self, suspended: bool, now: u128) -> QueueView {
        QueueView {
            suspended,
            reconnect_triggered_at: None,
            edit_sent_at: if !suspended && self.edits_in_progress.len() > 0 {
                Some(now)
            } else {
                self.edit_sent_at
            },
            ..self
        }
    }
}

/// Whether `after` is what the connections hold once `batch_id` with these edits was sent to
/// `webview`, such that `receiver` hears of its acknowledgment.
pub open spec fn is_sent<S>(
    before: ConnectionsView<S>,
    after: ConnectionsView<S>,
    webview: u32,
    batch_id: u64,
    edits: Arc<Vec<u8>>,
    receiver: AckReceiver,
) -> bool {
    &&& receiver.polls() == Seq::<AckPoll>::empty()
    &&& exists|response: oneshot::Sender<()>| #[trigger]
        connected(response, receiver@) && after == before.adding(
            webview,
            MsgPair { batch_id, edits, response },
        )
}

/// Whether two receivers are connected to the same sender.
pub open spec fn same_channel(x: AckReceiver, y: AckReceiver) -> bool {
    forall|sender: oneshot::Sender<()>| #[trigger] connected(sender, x@) == connected(sender, y@)
}

/// Whether `receiver` can be polled, with this outcome, to become `polled`.
pub open spec fn is_poll_of(polled: AckReceiver, receiver: AckReceiver, found: AckPoll) -> bool {
    &&& same_channel(polled, receiver)
    &&& polled.polls() == receiver.polls().push(found)
    &&& polled.is_fresh() == (found == AckPoll::Waiting)
}

/// Whether queue and connections are `q2` and `c2` once it was acted on what a poll of the
/// batch at `index` found: an acknowledged batch leaves the queue, one whose sender is gone
/// is sent again under its own id, and one that still waits stays as it is.
pub open spec fn is_acted_on<S>(
    q: QueueView,
    c: ConnectionsView<S>,
    index: int,
    found: AckPoll,
    q2: QueueView,
    c2: ConnectionsView<S>,
) -> bool {
    match found {
        AckPoll::Acknowledged => q2 == q.acknowledged(index) && c2 == c,
        AckPoll::Canceled => {
            &&& q2 == q.waiting_on(index, q2.edits_in_progress[index].receiver)
            &&& is_sent(
                c,
                c2,
                q.webview_id,
                q.edits_in_progress[index].batch_id,
                q.edits_in_progress[index].edits,
                q2.edits_in_progress[index].receiver,
            )
        },
        AckPoll::Waiting => q2 == q && c2 == c,
    }
}

/// Whether queue and connections are `q2` and `c2` once the batch at `index` was polled and
/// it was acted on what the poll found. A poll may change a receiver, but not the sender
/// that it is connected to; it finds nothing while that sender is held, and an acknowledgment
/// exactly where one is reported over that sender, if it finds that sender gone at all.
pub open spec fn is_polled_at<S>(
    q: QueueView,
    c: ConnectionsView<S>,
    index: int,
    found: AckPoll,
    q2: QueueView,
    c2: ConnectionsView<S>,
) -> bool {
    &&& is_held(c, q.edits_in_progress[index].receiver) ==> found == AckPoll::Waiting
    &&& found == AckPoll::Acknowledged ==> is_reported(q.edits_in_progress[index].receiver)
    &&& found == AckPoll::Canceled ==> !is_reported(q.edits_in_progress[index].receiver)
    &&& exists|polled: AckReceiver| #[trigger]
        is_poll_of(polled, q.edits_in_progress[index].receiver, found) && is_acted_on(
            q.waiting_on(index, polled),
            c,
            index,
            found,
            q2,
            c2,
        )
}

/// How many of the polled batches stay in progress.
pub open spec fn kept(found: Seq<AckPoll>) -> nat
    decreases found.len(),
{
    if found.len() == 0 {
        0
    } else {
        kept(found.drop_last()) + (if found.last() == AckPoll::Acknowledged {
            0nat
        } else {
            1nat
        })
    }
}

/// Whether queue and connections are `q2` and `c2` once the oldest batches of the queue were
/// polled one after the other and it was acted on what each poll found.
pub open spec fn is_polled<S>(
    q: QueueView,
    c: ConnectionsView<S>,
    found: Seq<AckPoll>,
    q2: QueueView,
    c2: ConnectionsView<S>,
) -> bool
    decreases found.len(),
{
    if found.len() == 0 {
        q2 == q && c2 == c
    } else {
        exists|q1: QueueView, c1: ConnectionsView<S>|
            is_polled(q, c, found.drop_last(), q1, c1) && #[trigger] is_polled_at(
                q1,
                c1,
                kept(found.drop_last()) as int,
                found.last(),
                q2,
                c2,
            )
    }
}

impl View for WryQueue {
    type V = QueueView;

    closed spec fn view(&self) -> QueueView {
        QueueView {
            webview_id: self.webview_id,
            edits_in_progress: self.edits_in_progress@,
            edit_sent_at: self.edit_sent_at,
            next_batch_id: self.next_batch_id,
            suspended: self.suspended,
            reconnect_triggered_at: self.reconnect_triggered_at,
        }
    }
}

fn time_since(since: u128, now: u128) -> (time: u128)
    ensures
        time == elapsed(since, now),
{
    if now >= since {
        now - since
    } else {
        0
    }
}

impl WryQueue {
    /// A queue that has sent nothing yet.
    pub(crate) fn new(webview_id: u32) -> (queue: WryQueue)
        ensures
            queue@ == QueueView::initial(webview_id),
    {
        WryQueue {
            webview_id,
            edits_in_progress: Vec::new(),
            edit_sent_at: None,
            next_batch_id: 1,
            suspended: false,
            reconnect_triggered_at: None,
        }
    }

    /// Whether another batch can be numbered.
    pub fn has_free_batch_id(&self) -> (free: bool)
        ensures
            free == (self@.next_batch_id < u64::MAX),
    {
        self.next_batch_id < u64::MAX
    }

    /// Send a list of mutations to the webview.
    /// Returns `true` if the edit channel is dead (message queued for reconnect).
    pub fn send_edits<S>(
        &mut self,
        websocket: &mut EditWebsocket<S>,
        serialized_edits: Vec<u8>,
        now: u128,
    ) -> (channel_dead: bool)
        requires
            old(self)@.wf(),
            old(websocket).wf(),
            old(self)@.next_batch_id < u64::MAX,
        ensures
            final(self)@.edits_in_progress.len() == old(self)@.edits_in_progress.len() + 1,
            final(self)@ == old(self)@.sending(
                Arc::new(serialized_edits),
                final(self)@.edits_in_progress.last().receiver,
                now,
            ),
            final(self)@.wf(),
            is_sent(
                old(websocket).connections@,
                final(websocket).connections@,
                old(self)@.webview_id,
                old(self)@.next_batch_id,
                Arc::new(serialized_edits),
                final(self)@.edits_in_progress.last().receiver,
            ),
            channel_dead == final(websocket).connections@.is_pending(old(self)@.webview_id),
            final(self)@.edits_in_progress == old(self)@.edits_in_progress.push(
                BatchInProgress {
                    batch_id: old(self)@.next_batch_id,
                    edits: Arc::new(serialized_edits),
                    receiver: final(self)@.edits_in_progress.last().receiver,
                },
            ),
            final(self)@.next_batch_id == old(self)@.next_batch_id + 1,
            final(self)@.edit_sent_at == Some(now),
            final(self)@.webview_id == old(self)@.webview_id,
            final(self)@.suspended == old(self)@.suspended,
            final(self)@.reconnect_triggered_at == old(self)@.reconnect_triggered_at,
            final(self)@.edits_in_progress.last().receiver.polls().len() == 0,
            exists|response: oneshot::Sender<()>| #[trigger]
                connected(response, final(self)@.edits_in_progress.last().receiver@) && final(
                    websocket).connections@ == old(websocket).connections@.adding(
                    old(self)@.webview_id,
                    MsgPair {
                        batch_id: old(self)@.next_batch_id,
                        edits: Arc::new(serialized_edits),
                        response,
                    },
                ),
            channel_dead == !(final(websocket).connections@.states.contains_key(
                old(self)@.webview_id,
            ) && final(websocket).connections@.states[old(self)@.webview_id] is Connected),
            final(websocket).current_location == old(websocket).current_location,
            final(websocket).max_webview_id == old(websocket).max_webview_id,
            final(websocket).wf(),
    {
        let webview_id = self.webview_id;
        let edits = Arc::new(serialized_edits);
        let batch_id = self.next_batch_id;
        self.next_batch_id = batch_id + 1;
        let receiver = websocket.send_edits(webview_id, batch_id, edits.clone());
        let channel_dead = websocket.is_pending(webview_id);
        self.edits_in_progress.push(BatchInProgress { batch_id, edits, receiver });
        self.edit_sent_at = Some(now);
        channel_dead
    }

    /// Check if the current in-progress edit has been pending long enough to
    /// indicate the WebSocket is dead. Returns `true` if a reconnect should be
    /// triggered (debounced: at most once per 3 s). Does NOT clear
    /// `edits_in_progress` — the edit will be re-sent through the new connection
    /// and its receiver will resolve naturally.
    pub fn has_stale_edit(&mut self, now: u128) -> (stale: bool)
        ensures
            stale == old(self)@.is_stale(now),
            stale == {
                &&& !old(self)@.suspended
                &&& old(self)@.edits_in_progress.len() > 0
                &&& old(self)@.edit_sent_at matches Some(sent_at) && now >= sent_at + 3_000_000_000
                &&& old(self)@.reconnect_triggered_at matches Some(last) ==> now >= last
                    + 3_000_000_000
            },
            final(self)@.reconnect_triggered_at == (if stale {
                Some(now)
            } else {
                old(self)@.reconnect_triggered_at
            }),
            final(self)@.edits_in_progress == old(self)@.edits_in_progress,
            final(self)@.edit_sent_at == old(self)@.edit_sent_at,
            final(self)@.next_batch_id == old(self)@.next_batch_id,
            final(self)@.suspended == old(self)@.suspended,
            final(self)@.webview_id == old(self)@.webview_id,
            final(self)@ == old(self)@.checking(now),
            old(self)@.wf() ==> final(self)@.wf(),
    {
        if self.suspended {
            return false;
        }
        if let Some(sent_at) = self.edit_sent_at {
            if self.edits_in_progress.len() > 0 && time_since(sent_at, now) >= STALE_THRESHOLD {
                // Debounce: don't spam JS reconnects
                if let Some(last) = self.reconnect_triggered_at {
                    if time_since(last, now) < RECONNECT_COOLDOWN {
                        return false;
                    }
                }
                self.reconnect_triggered_at = Some(now);
                return true;
            }
        }
        false
    }

    /// Wait until all pending edits have been rendered in the webview
    pub fn poll_edits_flushed<S>(
        &mut self,
        websocket: &mut EditWebsocket<S>,
        cx: &mut Context<'_>,
    ) -> (flush: Flush)
        requires
            old(self)@.wf(),
            old(websocket).wf(),
        ensures
            flush == Flush::Done <==> final(self)@.edits_in_progress.len() == 0,
            exists|found: Seq<AckPoll>|
                {
                    &&& found.len() == old(self)@.edits_in_progress.len()
                    &&& #[trigger] is_polled(
                        old(self)@,
                        old(websocket).connections@,
                        found,
                        final(self)@,
                        final(websocket).connections@,
                    )
                    &&& flush == Flush::Replayed <==> found.contains(AckPoll::Canceled)
                },
            forall|i: int|
                0 <= i < old(self)@.edits_in_progress.len() && is_held(
                    old(websocket).connections@,
                    (#[trigger] old(self)@.edits_in_progress[i]).receiver,
                ) ==> final(self)@.awaits(old(self)@.edits_in_progress[i].batch_id),
            forall|j: int|
                #![trigger final(self)@.edits_in_progress[j]]
                0 <= j < final(self)@.edits_in_progress.len() ==> exists|i: int|
                    {
                        &&& 0 <= i < old(self)@.edits_in_progress.len()
                        &&& (#[trigger] old(self)@.edits_in_progress[i]).batch_id
                            == final(self)@.edits_in_progress[j].batch_id
                        &&& old(self)@.edits_in_progress[i].edits
                            == final(self)@.edits_in_progress[j].edits
                        &&& {
                            ||| final(self)@.edits_in_progress[j].receiver.polls() == old(
                                self)@.edits_in_progress[i].receiver.polls().push(AckPoll::Waiting)
                            ||| flush == Flush::Replayed
                                && final(self)@.edits_in_progress[j].receiver.polls().len() == 0
                                && forall|sender: oneshot::Sender<()>| #[trigger]
                                connected(sender, old(self)@.edits_in_progress[i].receiver@)
                                    ==> !reported(sender)
                        }
                    },
            final(self)@.webview_id == old(self)@.webview_id,
            final(self)@.next_batch_id == old(self)@.next_batch_id,
            final(self)@.suspended == old(self)@.suspended,
            final(self)@.reconnect_triggered_at == old(self)@.reconnect_triggered_at,
            final(self)@.edit_sent_at == (if final(self)@.edits_in_progress.len() == 0 {
                None
            } else {
                old(self)@.edit_sent_at
            }),
            forall|i: int|
                0 <= i < old(self)@.edits_in_progress.len() ==> is_reported(
                    (#[trigger] old(self)@.edits_in_progress[i]).receiver,
                ) || final(self)@.awaits(old(self)@.edits_in_progress[i].batch_id),
            (forall|i: int|
                0 <= i < old(self)@.edits_in_progress.len() ==> is_held(
                    old(websocket).connections@,
                    (#[trigger] old(self)@.edits_in_progress[i]).receiver,
                ) || is_reported(old(self)@.edits_in_progress[i].receiver)) ==> flush != Flush::Replayed && final(websocket).connections@ == old(websocket).connections@,
            final(self)@.wf(),
            final(websocket).current_location == old(websocket).current_location,
            final(websocket).max_webview_id == old(websocket).max_webview_id,
            final(websocket).wf(),
    {
        let ghost start = self@;
        let ghost conns = websocket.connections@;
        let ghost mut found: Seq<AckPoll> = Seq::empty();
        let mut index: usize = 0;
        let mut replayed = false;
        while index < self.edits_in_progress.len()
            invariant
                self@.wf(),
                websocket.wf(),
                websocket.current_location == old(websocket).current_location,
                websocket.max_webview_id == old(websocket).max_webview_id,
                index == kept(found),
                index <= self@.edits_in_progress.len(),
                self@.edits_in_progress.len() - index == start.edits_in_progress.len()
                    - found.len(),
                is_polled(start, conns, found, self@, websocket.connections@),
                replayed == found.contains(AckPoll::Canceled),
                replayed ==> index > 0,
            decreases self@.edits_in_progress.len() - index,
        {
            let ghost between = self@;
            let ghost c1 = websocket.connections@;
            let polled = poll_ack(
                &mut self.edits_in_progress[index].receiver,
                cx,
                &websocket.connections,
            );
            let ghost receiver = self@.edits_in_progress[index as int].receiver;
            assert(self@ =~= between.waiting_on(index as int, receiver));
            proof {
                lemma_waiting_on_keeps_order(between, index as int, receiver);
            }
            self.after_poll(websocket, index, polled);
            proof {
                let longer = found.push(polled);
                assert(longer.drop_last() =~= found);
                assert(is_polled(start, conns, longer.drop_last(), between, c1));
                assert(is_poll_of(
                    receiver,
                    between.edits_in_progress[index as int].receiver,
                    polled,
                ));
                assert(is_polled_at(
                    between,
                    c1,
                    kept(longer.drop_last()) as int,
                    longer.last(),
                    self@,
                    websocket.connections@,
                ));
                assert(is_polled(start, conns, longer, self@, websocket.connections@));
                assert(longer[longer.len() - 1] == polled);
                assert(longer.contains(AckPoll::Canceled) <==> found.contains(AckPoll::Canceled)
                    || polled == AckPoll::Canceled) by {
                    if found.contains(AckPoll::Canceled) {
                        assert(longer[found.index_of(AckPoll::Canceled)] == AckPoll::Canceled);
                    }
                    if longer.contains(AckPoll::Canceled) && polled != AckPoll::Canceled {
                        assert(found[longer.index_of(AckPoll::Canceled)] == AckPoll::Canceled);
                    }
                }
                found = longer;
            }
            match polled {
                AckPoll::Acknowledged => {},
                AckPoll::Canceled => {
                    replayed = true;
                    index = index + 1;
                },
                AckPoll::Waiting => {
                    index = index + 1;
                },
            }
        }
        proof {
            lemma_polled_parts(start, conns, found, self@, websocket.connections@);
            if found.contains(AckPoll::Canceled) {
                let i = found.index_of(AckPoll::Canceled);
                assert(!is_held(conns, start.edits_in_progress[i].receiver));
                assert(!is_reported(start.edits_in_progress[i].receiver));
            }
            polling_adds_nothing(start, conns, found, self@, websocket.connections@, 0);
            assert forall|j: int|
                #![trigger self@.edits_in_progress[j]]
                0 <= j < self@.edits_in_progress.len() implies exists|i: int|
                {
                    &&& 0 <= i < start.edits_in_progress.len()
                    &&& (#[trigger] start.edits_in_progress[i]).batch_id
                        == self@.edits_in_progress[j].batch_id
                    &&& start.edits_in_progress[i].edits == self@.edits_in_progress[j].edits
                    &&& {
                        ||| self@.edits_in_progress[j].receiver.polls()
                            == start.edits_in_progress[i].receiver.polls().push(AckPoll::Waiting)
                        ||| found.contains(AckPoll::Canceled)
                            && self@.edits_in_progress[j].receiver.polls().len() == 0 && forall|
                            sender: oneshot::Sender<()>,
                        | #[trigger]
                            connected(sender, start.edits_in_progress[i].receiver@) ==> !reported(
                                sender,
                            )
                    }
                } by {
                what_is_left_was_polled(start, conns, found, self@, websocket.connections@, j);
            }
        }
        if self.edits_in_progress.len() == 0 {
            Flush::Done
        } else if replayed {
            Flush::Replayed
        } else {
            Flush::Waiting
        }
    }

    /// Acts on what polling the receiver of the batch at `index` found.
    pub fn after_poll<S>(
        &mut self,
        websocket: &mut EditWebsocket<S>,
        index: usize,
        polled: AckPoll,
    )
        requires
            old(self)@.is_ordered(),
            index < old(self)@.edits_in_progress.len(),
            forall|i: int|
                0 <= i < old(self)@.edits_in_progress.len() && (i != index || polled
                    == AckPoll::Waiting) ==> (
                #[trigger] old(self)@.edits_in_progress[i]).receiver.is_fresh(),
            old(websocket).wf(),
        ensures
            is_acted_on(
                old(self)@,
                old(websocket).connections@,
                index as int,
                polled,
                final(self)@,
                final(websocket).connections@,
            ),
            final(self)@.edits_in_progress.len() == old(self)@.edits_in_progress.len() - (if polled
                == AckPoll::Acknowledged {
                1int
            } else {
                0int
            }),
            match polled {
                AckPoll::Acknowledged => {
                    &&& final(self)@.edits_in_progress == old(self)@.edits_in_progress.remove(
                        index as int,
                    )
                    &&& final(self)@.edit_sent_at == (if old(self)@.edits_in_progress.len() == 1 {
                        None
                    } else {
                        old(self)@.edit_sent_at
                    })
                    &&& final(websocket).connections@ == old(websocket).connections@
                },
                AckPoll::Waiting => {
                    &&& final(self)@ == old(self)@
                    &&& final(websocket).connections@ == old(websocket).connections@
                },
                AckPoll::Canceled => {
                    let batch = old(self)@.edits_in_progress[index as int];
                    let receiver = final(self)@.edits_in_progress[index as int].receiver;
                    &&& final(self)@.edits_in_progress == old(self)@.edits_in_progress.update(
                        index as int,
                        BatchInProgress {
                            batch_id: batch.batch_id,
                            edits: batch.edits,
                            receiver,
                        },
                    )
                    &&& final(self)@.edit_sent_at == old(self)@.edit_sent_at
                    &&& receiver.polls().len() == 0
                    &&& exists|response: oneshot::Sender<()>| #[trigger]
                        connected(response, receiver@) && final(websocket).connections@ == old(
                            websocket).connections@.adding(
                            old(self)@.webview_id,
                            MsgPair { batch_id: batch.batch_id, edits: batch.edits, response },
                        )
                },
            },
            final(self)@.webview_id == old(self)@.webview_id,
            final(self)@.next_batch_id == old(self)@.next_batch_id,
            final(self)@.suspended == old(self)@.suspended,
            final(self)@.reconnect_triggered_at == old(self)@.reconnect_triggered_at,
            final(self)@.wf(),
            final(websocket).current_location == old(websocket).current_location,
            final(websocket).max_webview_id == old(websocket).max_webview_id,
            final(websocket).wf(),
    {
        match polled {
            AckPoll::Acknowledged => {
                proof {
                    lemma_acknowledged_keeps_wf(self@, index as int);
                }
                self.edits_in_progress.remove(index);
                if self.edits_in_progress.len() == 0 {
                    self.edit_sent_at = None;
                }
                assert(self@ =~= old(self)@.acknowledged(index as int));
            },
            AckPoll::Canceled => {
                // A failed sender is not evidence that the DOM was updated.
                // Retain/replay the same batch ID, including after worker failure.
                let batch_id = self.edits_in_progress[index].batch_id;
                let edits = self.edits_in_progress[index].edits.clone();
                let receiver = websocket.send_edits(self.webview_id, batch_id, edits);
                proof {
                    lemma_waiting_on_keeps_wf(self@, index as int, receiver);
                }
                self.edits_in_progress[index].receiver = receiver;
                assert(self@ =~= old(self)@.waiting_on(index as int, receiver));
            },
            AckPoll::Waiting => {},
        }
    }

    /// Lifecycle changes do not complete edits. Only their matching ACK does.
    pub fn set_suspended(&mut self, suspended: bool, now: u128)
        ensures
            final(self)@ == old(self)@.suspending(suspended, now),
            final(self)@.suspended == suspended,
            final(self)@.reconnect_triggered_at is None,
            final(self)@.edit_sent_at == (if !suspended && old(self)@.edits_in_progress.len() > 0 {
                Some(now)
            } else {
                old(self)@.edit_sent_at
            }),
            final(self)@.edits_in_progress == old(self)@.edits_in_progress,
            final(self)@.next_batch_id == old(self)@.next_batch_id,
            final(self)@.webview_id == old(self)@.webview_id,
            old(self)@.wf() ==> final(self)@.wf(),
    {
        self.suspended = suspended;
        self.reconnect_triggered_at = None;
        if !suspended && self.edits_in_progress.len() > 0 {
            self.edit_sent_at = Some(now);
        }
    }

    /// Get the websocket path that the webview should connect to in order to receive edits
    pub fn edits_path<S>(&self, websocket: &EditWebsocket<S>) -> (path: String)
        ensures
            path@ == "ws://127.0.0.1:"@ + decimal(websocket.current_location.port as nat)
                + request_path(self@.webview_id, websocket.current_location.client_key@),
            path@ == "ws://127.0.0.1:"@ + decimal(websocket.current_location.port as nat) + "/"@
                + decimal(self@.webview_id as nat) + "/"@ + base64_url_safe(
                websocket.current_location.client_key@,
            ),
    {
        websocket.current_location.address_of(self.webview_id)
    }

    /// Get the key the client should expect from the server when connecting to the websocket.
    pub fn required_server_key<S>(&self, websocket: &EditWebsocket<S>) -> (key: String)
        ensures
            key@ == base64_url_safe(websocket.current_location.server_key@),
    {
        encode_key_string(&websocket.current_location.server_key)
    }
}

/// What is seen of a queue is all of it.
proof fn queue_is_seen_whole(queue: WryQueue)
    ensures
        queue@.webview_id == queue.webview_id,
        queue@.edits_in_progress == queue.edits_in_progress@,
        queue@.edit_sent_at == queue.edit_sent_at,
        queue@.next_batch_id == queue.next_batch_id,
        queue@.suspended == queue.suspended,
        queue@.reconnect_triggered_at == queue.reconnect_triggered_at,
{
}

/// The ids of the batches in progress ascend from one and were all given out, a time of
/// dispatch is kept exactly while there is such a batch, and nothing was found of any of them
/// yet: this is all that `wf` asks.
pub proof fn well_formed_queue(q: QueueView)
    ensures
        q.wf() <==> {
            &&& q.next_batch_id >= 1
            &&& q.edits_in_progress.len() > 0 <==> q.edit_sent_at is Some
            &&& forall|i: int|
                0 <= i < q.edits_in_progress.len() ==> 1 <= (
                #[trigger] q.edits_in_progress[i]).batch_id < q.next_batch_id
            &&& forall|i: int, j: int|
                0 <= i < j < q.edits_in_progress.len() ==> (
                #[trigger] q.edits_in_progress[i]).batch_id < (
                #[trigger] q.edits_in_progress[j]).batch_id
            &&& forall|i: int, k: int|
                0 <= i < q.edits_in_progress.len() && 0 <= k
                    < q.edits_in_progress[i].receiver.polls().len() ==> (
                #[trigger] q.edits_in_progress[i].receiver.polls()[k]) == AckPoll::Waiting
        },
{
    if q.wf() {
        assert forall|i: int, k: int|
            0 <= i < q.edits_in_progress.len() && 0 <= k
                < q.edits_in_progress[i].receiver.polls().len() implies (
        #[trigger] q.edits_in_progress[i].receiver.polls()[k]) == AckPoll::Waiting by {
            assert(q.edits_in_progress[i].receiver.is_fresh());
        }
    }
}

proof fn lemma_waiting_on_keeps_order(q: QueueView, index: int, receiver: AckReceiver)
    requires
        q.is_ordered(),
        0 <= index < q.edits_in_progress.len(),
    ensures
        q.waiting_on(index, receiver).is_ordered(),
{
    let p = q.waiting_on(index, receiver);
    assert forall|i: int| 0 <= i < p.edits_in_progress.len() implies (
    #[trigger] p.edits_in_progress[i]).batch_id == q.edits_in_progress[i].batch_id by {}
}

pub(crate) proof fn lemma_waiting_on_keeps_wf(q: QueueView, index: int, receiver: AckReceiver)
    requires
        q.is_ordered(),
        0 <= index < q.edits_in_progress.len(),
        forall|i: int|
            0 <= i < q.edits_in_progress.len() && i != index ==> (
            #[trigger] q.edits_in_progress[i]).receiver.is_fresh(),
        receiver.is_fresh(),
    ensures
        q.waiting_on(index, receiver).wf(),
{
    lemma_waiting_on_keeps_order(q, index, receiver);
}

pub(crate) proof fn lemma_acknowledged_keeps_wf(q: QueueView, index: int)
    requires
        q.is_ordered(),
        0 <= index < q.edits_in_progress.len(),
        forall|i: int|
            0 <= i < q.edits_in_progress.len() && i != index ==> (
            #[trigger] q.edits_in_progress[i]).receiver.is_fresh(),
    ensures
        q.acknowledged(index).wf(),
{
    let p = q.acknowledged(index);
    assert forall|i: int| 0 <= i < p.edits_in_progress.len() implies (
    #[trigger] p.edits_in_progress[i]) == q.edits_in_progress[if i < index {
        i
    } else {
        i + 1
    }] by {}
}

/// A batch that was sent is held for its webview, together with the sender that the queue's
/// receiver is connected to.
pub proof fn sent_batch_is_held<S>(
    before: ConnectionsView<S>,
    after: ConnectionsView<S>,
    webview: u32,
    batch_id: u64,
    edits: Arc<Vec<u8>>,
    receiver: AckReceiver,
)
    requires
        before.wf(),
        is_sent(before, after, webview, batch_id, edits, receiver),
    ensures
        exists|response: oneshot::Sender<()>| #[trigger]
            connected(response, receiver@) && holds(
                after,
                webview,
                MsgPair { batch_id, edits, response },
            ),
        is_held(after, receiver),
{
    let response = choose|response: oneshot::Sender<()>| #[trigger]
        connected(response, receiver@) && after == before.adding(
            webview,
            MsgPair { batch_id, edits, response },
        );
    let pair = MsgPair { batch_id, edits, response };
    sending_adds_one_batch(before, webview, pair, webview, pair);
    lemma_held_batch_has_a_place(after, webview, pair, receiver);
}

} // verus!
