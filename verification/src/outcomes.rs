//! What becomes of each batch of a queue that is polled.
use crate::ack::{connected, is_reported, reported, AckPoll, AckReceiver};
use crate::barrier::lemma_sending_keeps_holding;
use crate::connections::ConnectionsView;
use crate::delivery::{holds, sending_adds_one_batch};
use crate::flush::{lemma_polled_is_a_step, lemma_polled_parts, polling_is_a_run, run_keeps_wf};
use crate::flush::{polling_flushes_only_when_all_are_acknowledged, run, QueueStep};
use crate::message::MsgPair;
use crate::queue::{is_acted_on, is_poll_of, is_polled, is_polled_at, is_sent, kept};
use crate::queue::{BatchInProgress, QueueView};
use futures_channel::oneshot;
use vstd::prelude::*;

verus! {

/// Whether entry `p` of a queue is what is left of a batch whose poll found this.
spec fn is_left_at<S>(
    q2: QueueView,
    p: int,
    batch: BatchInProgress,
    found: AckPoll,
    c2: ConnectionsView<S>,
) -> bool {
    let left = q2.edits_in_progress[p];
    &&& left.batch_id == batch.batch_id
    &&& left.edits == batch.edits
    &&& match found {
        AckPoll::Acknowledged => false,
        AckPoll::Waiting => {
            &&& left.receiver.polls() == batch.receiver.polls().push(AckPoll::Waiting)
            &&& forall|sender: oneshot::Sender<()>| #[trigger]
                connected(sender, left.receiver@) == connected(sender, batch.receiver@)
        },
        AckPoll::Canceled => {
            &&& left.receiver.polls().len() == 0
            &&& exists|response: oneshot::Sender<()>| #[trigger]
                connected(response, left.receiver@) && holds(
                    c2,
                    q2.webview_id,
                    MsgPair { batch_id: batch.batch_id, edits: batch.edits, response },
                )
        },
    }
}

proof fn lemma_poll_keeps_holding<S>(
    q: QueueView,
    c: ConnectionsView<S>,
    index: int,
    found: AckPoll,
    q2: QueueView,
    c2: ConnectionsView<S>,
    held: MsgPair,
)
    requires
        c.wf(),
        0 <= index < q.edits_in_progress.len(),
        is_polled_at(q, c, index, found, q2, c2),
        holds(c, q.webview_id, held),
    ensures
        holds(c2, q.webview_id, held),
{
    if found == AckPoll::Canceled {
        let batch = q.edits_in_progress[index];
        lemma_sending_keeps_holding(
            c,
            c2,
            q.webview_id,
            batch.batch_id,
            batch.edits,
            q2.edits_in_progress[index].receiver,
            held,
        );
    }
}

proof fn lemma_poll_leaves<S>(
    q: QueueView,
    c: ConnectionsView<S>,
    index: int,
    found: AckPoll,
    q2: QueueView,
    c2: ConnectionsView<S>,
)
    requires
        c.wf(),
        0 <= index < q.edits_in_progress.len(),
        is_polled_at(q, c, index, found, q2, c2),
        found != AckPoll::Acknowledged,
    ensures
        is_left_at(q2, index, q.edits_in_progress[index], found, c2),
{
    let batch = q.edits_in_progress[index];
    let polled = choose|polled: AckReceiver| #[trigger]
        is_poll_of(polled, batch.receiver, found) && is_acted_on(
            q.waiting_on(index, polled),
            c,
            index,
            found,
            q2,
            c2,
        );
    if found == AckPoll::Canceled {
        let receiver = q2.edits_in_progress[index].receiver;
        assert(is_sent(c, c2, q.webview_id, batch.batch_id, batch.edits, receiver));
        let response = choose|response: oneshot::Sender<()>| #[trigger]
            connected(response, receiver@) && c2 == c.adding(
                q.webview_id,
                MsgPair { batch_id: batch.batch_id, edits: batch.edits, response },
            );
        let pair = MsgPair { batch_id: batch.batch_id, edits: batch.edits, response };
        sending_adds_one_batch(c, q.webview_id, pair, q.webview_id, pair);
    }
}

/// The queue before the last of its polls, and what that poll made of it.
proof fn lemma_last_poll<S>(
    q: QueueView,
    c: ConnectionsView<S>,
    found: Seq<AckPoll>,
    q2: QueueView,
    c2: ConnectionsView<S>,
) -> (between: (QueueView, ConnectionsView<S>))
    requires
        q.wf(),
        c.wf(),
        0 < found.len() <= q.edits_in_progress.len(),
        is_polled(q, c, found, q2, c2),
    ensures
        is_polled(q, c, found.drop_last(), between.0, between.1),
        is_polled_at(
            between.0,
            between.1,
            kept(found.drop_last()) as int,
            found.last(),
            q2,
            c2,
        ),
        between.0.wf(),
        between.1.wf(),
        between.0.webview_id == q.webview_id,
        kept(found.drop_last()) < between.0.edits_in_progress.len(),
        between.0.edits_in_progress[kept(found.drop_last()) as int] == q.edits_in_progress[found.len()
            - 1],
        found.last() == AckPoll::Acknowledged ==> q2 == between.0.acknowledged(
            kept(found.drop_last()) as int,
        ),
        found.last() != AckPoll::Acknowledged ==> q2 == between.0.waiting_on(
            kept(found.drop_last()) as int,
            q2.edits_in_progress[kept(found.drop_last()) as int].receiver,
        ),
{
    let shorter = found.drop_last();
    let index = kept(shorter) as int;
    let (q1, c1) = choose|q1: QueueView, c1: ConnectionsView<S>|
        is_polled(q, c, shorter, q1, c1) && #[trigger] is_polled_at(
            q1,
            c1,
            index,
            found.last(),
            q2,
            c2,
        );
    lemma_polled_parts(q, c, shorter, q1, c1);
    let steps = polling_is_a_run(q, c, shorter, q1, c1);
    run_keeps_wf(q, steps);
    lemma_run_keeps_webview(q, steps);
    let j = found.len() - 1;
    assert(q1.edits_in_progress[kept(shorter) + j - shorter.len()] == q.edits_in_progress[j]);
    let step = lemma_polled_is_a_step(q1, c1, index, found.last(), q2, c2);
    assert(q2 == step.apply(q1));
    (q1, c1)
}

proof fn lemma_run_keeps_webview(q: QueueView, steps: Seq<QueueStep>)
    ensures
        run(q, steps).webview_id == q.webview_id,
    decreases steps.len(),
{
    if steps.len() > 0 {
        lemma_run_keeps_webview(q, steps.drop_last());
    }
}

proof fn lemma_polled_fields<S>(
    q: QueueView,
    c: ConnectionsView<S>,
    found: Seq<AckPoll>,
    q2: QueueView,
    c2: ConnectionsView<S>,
)
    requires
        q.wf(),
        c.wf(),
        found.len() <= q.edits_in_progress.len(),
        is_polled(q, c, found, q2, c2),
    ensures
        q2.webview_id == q.webview_id,
        q2.next_batch_id == q.next_batch_id,
        q2.suspended == q.suspended,
        q2.reconnect_triggered_at == q.reconnect_triggered_at,
        q2.edit_sent_at == (if q2.edits_in_progress.len() == 0 {
            None
        } else {
            q.edit_sent_at
        }),
    decreases found.len(),
{
    if found.len() > 0 {
        let (q1, c1) = lemma_last_poll(q, c, found, q2, c2);
        lemma_polled_fields(q, c, found.drop_last(), q1, c1);
    }
}

proof fn lemma_polled_leaves<S>(
    q: QueueView,
    c: ConnectionsView<S>,
    found: Seq<AckPoll>,
    q2: QueueView,
    c2: ConnectionsView<S>,
    i: int,
) -> (p: int)
    requires
        q.wf(),
        c.wf(),
        found.len() <= q.edits_in_progress.len(),
        is_polled(q, c, found, q2, c2),
        0 <= i < found.len(),
        found[i] != AckPoll::Acknowledged,
    ensures
        0 <= p < kept(found),
        is_left_at(q2, p, q.edits_in_progress[i], found[i], c2),
    decreases found.len(),
{
    let shorter = found.drop_last();
    let index = kept(shorter) as int;
    let batch = q.edits_in_progress[i];
    let (q1, c1) = lemma_last_poll(q, c, found, q2, c2);
    if i < found.len() - 1 {
        let p = lemma_polled_leaves(q, c, shorter, q1, c1, i);
        assert(q2.edits_in_progress[p] == q1.edits_in_progress[p]);
        if found[i] == AckPoll::Canceled {
            let left = q1.edits_in_progress[p];
            let response = choose|response: oneshot::Sender<()>| #[trigger]
                connected(response, left.receiver@) && holds(
                    c1,
                    q1.webview_id,
                    MsgPair { batch_id: batch.batch_id, edits: batch.edits, response },
                );
            lemma_poll_keeps_holding(
                q1,
                c1,
                index,
                found.last(),
                q2,
                c2,
                MsgPair { batch_id: batch.batch_id, edits: batch.edits, response },
            );
        }
        p
    } else {
        lemma_poll_leaves(q1, c1, index, found.last(), q2, c2);
        index
    }
}

proof fn lemma_left_was_unacknowledged<S>(
    q: QueueView,
    c: ConnectionsView<S>,
    found: Seq<AckPoll>,
    q2: QueueView,
    c2: ConnectionsView<S>,
    j: int,
) -> (i: int)
    requires
        q.wf(),
        c.wf(),
        found.len() <= q.edits_in_progress.len(),
        is_polled(q, c, found, q2, c2),
        0 <= j < q2.edits_in_progress.len(),
    ensures
        0 <= i < q.edits_in_progress.len(),
        q.edits_in_progress[i].batch_id == q2.edits_in_progress[j].batch_id,
        i >= found.len() || found[i] != AckPoll::Acknowledged,
    decreases found.len(),
{
    if found.len() == 0 {
        j
    } else {
        let index = kept(found.drop_last()) as int;
        let (q1, c1) = lemma_last_poll(q, c, found, q2, c2);
        let was = if found.last() == AckPoll::Acknowledged && j >= index {
            j + 1
        } else {
            j
        };
        assert(q1.edits_in_progress[was].batch_id == q2.edits_in_progress[j].batch_id);
        let i = lemma_left_was_unacknowledged(q, c, found.drop_last(), q1, c1, was);
        if i == found.len() - 1 && found.last() == AckPoll::Acknowledged {
            assert(q1.edits_in_progress[index].batch_id == q1.edits_in_progress[was].batch_id);
        }
        i
    }
}

/// What a poll of the queue does with a batch is what the poll of that batch's own receiver
/// found. A batch whose acknowledgment was found is in progress no more, and one was reported
/// over its sender. One of which nothing was found stays, with its receiver, in whose record
/// that poll is the last. One whose sender is gone stays, under its id and with its edits, and
/// is held again with the sender of a receiver that was never polled; no acknowledgment is
/// ever reported over the old one.
pub proof fn polling_acts_on_what_was_found<S>(
    q: QueueView,
    c: ConnectionsView<S>,
    found: Seq<AckPoll>,
    q2: QueueView,
    c2: ConnectionsView<S>,
    i: int,
)
    requires
        q.wf(),
        c.wf(),
        found.len() == q.edits_in_progress.len(),
        is_polled(q, c, found, q2, c2),
        0 <= i < found.len(),
    ensures
        found[i] == AckPoll::Acknowledged ==> {
            &&& exists|sender: oneshot::Sender<()>| #[trigger]
                connected(sender, q.edits_in_progress[i].receiver@) && reported(sender)
            &&& forall|j: int|
                0 <= j < q2.edits_in_progress.len() ==> (#[trigger] q2.edits_in_progress[j]).batch_id
                    != q.edits_in_progress[i].batch_id
        },
        found[i] == AckPoll::Waiting ==> exists|j: int|
            {
                &&& 0 <= j < q2.edits_in_progress.len()
                &&& (#[trigger] q2.edits_in_progress[j]).batch_id
                    == q.edits_in_progress[i].batch_id
                &&& q2.edits_in_progress[j].edits == q.edits_in_progress[i].edits
                &&& q2.edits_in_progress[j].receiver.polls()
                    == q.edits_in_progress[i].receiver.polls().push(AckPoll::Waiting)
                &&& forall|sender: oneshot::Sender<()>| #[trigger]
                    connected(sender, q2.edits_in_progress[j].receiver@) == connected(
                        sender,
                        q.edits_in_progress[i].receiver@,
                    )
            },
        found[i] == AckPoll::Canceled ==> {
            &&& forall|sender: oneshot::Sender<()>| #[trigger]
                connected(sender, q.edits_in_progress[i].receiver@) ==> !reported(sender)
            &&& exists|j: int|
                {
                    &&& 0 <= j < q2.edits_in_progress.len()
                    &&& (#[trigger] q2.edits_in_progress[j]).batch_id
                        == q.edits_in_progress[i].batch_id
                    &&& q2.edits_in_progress[j].edits == q.edits_in_progress[i].edits
                    &&& q2.edits_in_progress[j].receiver.polls().len() == 0
                    &&& exists|response: oneshot::Sender<()>| #[trigger]
                        connected(response, q2.edits_in_progress[j].receiver@) && holds(
                            c2,
                            q.webview_id,
                            MsgPair {
                                batch_id: q.edits_in_progress[i].batch_id,
                                edits: q.edits_in_progress[i].edits,
                                response,
                            },
                        )
                }
        },
{
    let batch = q.edits_in_progress[i];
    lemma_polled_parts(q, c, found, q2, c2);
    lemma_polled_fields(q, c, found, q2, c2);
    if found[i] == AckPoll::Acknowledged {
        assert(is_reported(batch.receiver));
        assert forall|j: int| 0 <= j < q2.edits_in_progress.len() implies (
        #[trigger] q2.edits_in_progress[j]).batch_id != batch.batch_id by {
            let k = lemma_left_was_unacknowledged(q, c, found, q2, c2, j);
            assert(q.edits_in_progress[k].batch_id != q.edits_in_progress[i].batch_id);
        }
    } else {
        let p = lemma_polled_leaves(q, c, found, q2, c2, i);
        assert(q2.edits_in_progress[p].batch_id == batch.batch_id);
        if found[i] == AckPoll::Canceled {
            assert(!is_reported(batch.receiver));
        }
    }
}

/// A batch is in progress after a poll only if its own receiver was polled and no
/// acknowledgment was found: either nothing was, which the receiver's record shows, or its
/// sender is gone and it has a new receiver.
pub proof fn what_is_left_was_polled<S>(
    q: QueueView,
    c: ConnectionsView<S>,
    found: Seq<AckPoll>,
    q2: QueueView,
    c2: ConnectionsView<S>,
    j: int,
)
    requires
        q.wf(),
        c.wf(),
        found.len() == q.edits_in_progress.len(),
        is_polled(q, c, found, q2, c2),
        0 <= j < q2.edits_in_progress.len(),
    ensures
        exists|i: int|
            {
                &&& 0 <= i < q.edits_in_progress.len()
                &&& (#[trigger] q.edits_in_progress[i]).batch_id
                    == q2.edits_in_progress[j].batch_id
                &&& q.edits_in_progress[i].edits == q2.edits_in_progress[j].edits
                &&& {
                    ||| found[i] == AckPoll::Waiting && q2.edits_in_progress[j].receiver.polls()
                        == q.edits_in_progress[i].receiver.polls().push(AckPoll::Waiting)
                    ||| found[i] == AckPoll::Canceled
                        && q2.edits_in_progress[j].receiver.polls().len() == 0 && forall|
                        sender: oneshot::Sender<()>,
                    | #[trigger]
                        connected(sender, q.edits_in_progress[i].receiver@) ==> !reported(sender)
                }
            },
{
    let i = lemma_left_was_unacknowledged(q, c, found, q2, c2, j);
    let p = lemma_polled_leaves(q, c, found, q2, c2, i);
    let steps = polling_is_a_run(q, c, found, q2, c2);
    run_keeps_wf(q, steps);
    lemma_polled_parts(q, c, found, q2, c2);
    assert(p == j) by {
        assert(q2.edits_in_progress[p].batch_id == q2.edits_in_progress[j].batch_id);
    }
    if found[i] == AckPoll::Canceled {
        assert(!is_reported(q.edits_in_progress[i].receiver));
    }
    assert(q.edits_in_progress[i].batch_id == q2.edits_in_progress[j].batch_id);
}

/// Nothing comes into the queue by a poll, and nothing but the batches and the time of their
/// dispatch is touched. All batches have left it exactly if each was found to be acknowledged,
/// and the connections are touched only for a batch whose sender is gone.
pub proof fn polling_adds_nothing<S>(
    q: QueueView,
    c: ConnectionsView<S>,
    found: Seq<AckPoll>,
    q2: QueueView,
    c2: ConnectionsView<S>,
    j: int,
)
    requires
        q.wf(),
        c.wf(),
        found.len() == q.edits_in_progress.len(),
        is_polled(q, c, found, q2, c2),
    ensures
        0 <= j < q2.edits_in_progress.len() ==> exists|i: int|
            0 <= i < q.edits_in_progress.len() && (#[trigger] q.edits_in_progress[i]).batch_id
                == q2.edits_in_progress[j].batch_id,
        q2.edits_in_progress.len() == 0 <==> forall|i: int|
            0 <= i < found.len() ==> found[i] == AckPoll::Acknowledged,
        !found.contains(AckPoll::Canceled) ==> c2 == c,
        q2.webview_id == q.webview_id,
        q2.next_batch_id == q.next_batch_id,
        q2.suspended == q.suspended,
        q2.reconnect_triggered_at == q.reconnect_triggered_at,
        q2.edit_sent_at == (if q2.edits_in_progress.len() == 0 {
            None
        } else {
            q.edit_sent_at
        }),
{
    lemma_polled_parts(q, c, found, q2, c2);
    lemma_polled_fields(q, c, found, q2, c2);
    polling_flushes_only_when_all_are_acknowledged(q, c, found, q2, c2);
    if 0 <= j < q2.edits_in_progress.len() {
        let i = lemma_left_was_unacknowledged(q, c, found, q2, c2, j);
        assert(q.edits_in_progress[i].batch_id == q2.edits_in_progress[j].batch_id);
    }
}

/// The batches of a queue are polled one by one, oldest first, and it is acted on each poll
/// before the next: an acknowledged batch leaves, one of which nothing was found keeps its
/// place and its receiver, and one whose sender is gone is added for its webview once more,
/// behind everything else, and keeps its place with a new receiver.
pub proof fn polling_goes_batch_by_batch<S>(
    q: QueueView,
    c: ConnectionsView<S>,
    found: Seq<AckPoll>,
    q2: QueueView,
    c2: ConnectionsView<S>,
) -> (between: (QueueView, ConnectionsView<S>))
    requires
        0 < found.len() <= q.edits_in_progress.len(),
        is_polled(q, c, found, q2, c2),
    ensures
        is_polled(q, c, found.drop_last(), between.0, between.1),
        ({
            let (q1, c1) = between;
            let index = found.drop_last().filter(
                |outcome: AckPoll| outcome != AckPoll::Acknowledged,
            ).len() as int;
            &&& 0 <= index < q1.edits_in_progress.len()
            &&& match found.last() {
                AckPoll::Acknowledged => c2 == c1 && q2.edits_in_progress
                    == q1.edits_in_progress.remove(index),
                AckPoll::Waiting => c2 == c1 && q2.edits_in_progress
                    == q1.edits_in_progress.update(
                    index,
                    BatchInProgress {
                        batch_id: q1.edits_in_progress[index].batch_id,
                        edits: q1.edits_in_progress[index].edits,
                        receiver: q2.edits_in_progress[index].receiver,
                    },
                ),
                AckPoll::Canceled => {
                    &&& exists|response: oneshot::Sender<()>| #[trigger]
                        connected(response, q2.edits_in_progress[index].receiver@) && c2
                            == c1.adding(
                            q1.webview_id,
                            MsgPair {
                                batch_id: q1.edits_in_progress[index].batch_id,
                                edits: q1.edits_in_progress[index].edits,
                                response,
                            },
                        )
                    &&& q2.edits_in_progress == q1.edits_in_progress.update(
                        index,
                        BatchInProgress {
                            batch_id: q1.edits_in_progress[index].batch_id,
                            edits: q1.edits_in_progress[index].edits,
                            receiver: q2.edits_in_progress[index].receiver,
                        },
                    )
                },
            }
        }),
{
    let shorter = found.drop_last();
    let index = kept(shorter) as int;
    let (q1, c1) = choose|q1: QueueView, c1: ConnectionsView<S>|
        is_polled(q, c, shorter, q1, c1) && #[trigger] is_polled_at(
            q1,
            c1,
            index,
            found.last(),
            q2,
            c2,
        );
    let _ = polling_is_a_run(q, c, shorter, q1, c1);
    lemma_kept_counts(shorter, |outcome: AckPoll| outcome != AckPoll::Acknowledged);
    let step = lemma_polled_is_a_step(q1, c1, index, found.last(), q2, c2);
    assert(q2 == step.apply(q1));
    (q1, c1)
}

/// Polling nothing changes nothing.
pub proof fn polling_nothing_changes_nothing<S>(
    q: QueueView,
    c: ConnectionsView<S>,
    q2: QueueView,
    c2: ConnectionsView<S>,
)
    requires
        is_polled(q, c, Seq::empty(), q2, c2),
    ensures
        q2 == q,
        c2 == c,
{
}

proof fn lemma_kept_counts(found: Seq<AckPoll>, counts: spec_fn(AckPoll) -> bool)
    requires
        forall|outcome: AckPoll| #[trigger]
            counts(outcome) == (outcome != AckPoll::Acknowledged),
    ensures
        kept(found) == found.filter(counts).len(),
    decreases found.len(),
{
    reveal(Seq::filter);
    if found.len() > 0 {
        lemma_kept_counts(found.drop_last(), counts);
    }
}

} // verus!
