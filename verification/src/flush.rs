//! What holds of a webview's edit queue over any number of steps.
use crate::ack::{connected, is_reported, AckPoll, AckReceiver};
use crate::connections::{lemma_adding_keeps_wf, ConnectionsView};
use crate::delivery::{is_held, lemma_adding_keeps_held};
use crate::message::MsgPair;
use crate::queue::{elapsed, is_acted_on, is_polled, is_poll_of, is_polled_at, kept, QueueView};
use crate::queue::{lemma_acknowledged_keeps_wf, lemma_waiting_on_keeps_wf, RECONNECT_COOLDOWN};
use crate::queue::{is_sent, BatchInProgress, STALE_THRESHOLD};
use futures_channel::oneshot;
use std::sync::Arc;
use vstd::prelude::*;

verus! {

/// One step of an edit queue.
pub enum QueueStep {
    /// A batch is sent.
    Send { edits: Arc<Vec<u8>>, receiver: AckReceiver, now: u128 },
    /// The batch at an index is polled. Unless it is acknowledged, it goes on with `receiver`:
    /// that of its replay, or the one that it had.
    Poll { index: int, found: AckPoll, receiver: AckReceiver },
    /// It is looked whether a reconnect is called for.
    Check { now: u128 },
    /// The application is suspended or resumed.
    Suspend { suspended: bool, now: u128 },
}

impl QueueStep {
    /// Whether the step can be taken. A poll of a receiver that a batch goes on with has not
    /// found anything yet.
    pub open spec fn is_enabled(self, q: QueueView) -> bool {
        match self {
            QueueStep::Send { receiver, .. } => q.next_batch_id < u64::MAX && receiver.is_fresh(),
            QueueStep::Poll { index, found, receiver } => 0 <= index < q.edits_in_progress.len() && (
            found != AckPoll::Acknowledged ==> receiver.is_fresh()),
            QueueStep::Check { .. } => true,
            QueueStep::Suspend { .. } => true,
        }
    }

    /// What the queue holds after the step.
    pub open spec fn apply(self, q: QueueView) -> QueueView {
        match self {
            QueueStep::Send { edits, receiver, now } => q.sending(edits, receiver, now),
            QueueStep::Poll { index, found, receiver } => if found == AckPoll::Acknowledged {
                q.acknowledged(index)
            } else {
                q.waiting_on(index, receiver)
            },
            QueueStep::Check { now } => q.checking(now),
            QueueStep::Suspend { suspended, now } => q.suspending(suspended, now),
        }
    }

    /// Whether the step sends batch `batch_id`.
    pub open spec fn sends(self, q: QueueView, batch_id: u64) -> bool {
        self is Send && q.next_batch_id == batch_id
    }

    /// Whether the step finds batch `batch_id` acknowledged.
    pub open spec fn acknowledges(self, q: QueueView, batch_id: u64) -> bool {
        match self {
            QueueStep::Poll { index, found, .. } => found == AckPoll::Acknowledged
                && q.edits_in_progress[index].batch_id == batch_id,
            _ => false,
        }
    }

    /// Whether the step is taken at `time` or later.
    pub open spec fn is_not_before(self, time: u128) -> bool {
        match self {
            QueueStep::Send { now, .. } => now >= time,
            QueueStep::Poll { .. } => true,
            QueueStep::Check { now } => now >= time,
            QueueStep::Suspend { now, .. } => now >= time,
        }
    }
}

/// What the queue holds after all of `steps`.
pub open spec fn run(q: QueueView, steps: Seq<QueueStep>) -> QueueView
    decreases steps.len(),
{
    if steps.len() == 0 {
        q
    } else {
        steps.last().apply(run(q, steps.drop_last()))
    }
}

/// Whether `steps` can be taken one after the other.
pub open spec fn can_run(q: QueueView, steps: Seq<QueueStep>) -> bool
    decreases steps.len(),
{
    steps.len() > 0 ==> can_run(q, steps.drop_last()) && steps.last().is_enabled(
        run(q, steps.drop_last()),
    )
}

/// Whether one of `steps` sends batch `batch_id`.
pub open spec fn run_sends(q: QueueView, steps: Seq<QueueStep>, batch_id: u64) -> bool
    decreases steps.len(),
{
    steps.len() > 0 && (run_sends(q, steps.drop_last(), batch_id) || steps.last().sends(
        run(q, steps.drop_last()),
        batch_id,
    ))
}

/// Whether one of `steps` finds batch `batch_id` acknowledged.
pub open spec fn run_acknowledges(q: QueueView, steps: Seq<QueueStep>, batch_id: u64) -> bool
    decreases steps.len(),
{
    steps.len() > 0 && (run_acknowledges(q, steps.drop_last(), batch_id)
        || steps.last().acknowledges(run(q, steps.drop_last()), batch_id))
}

pub(crate) proof fn lemma_step_keeps_wf(q: QueueView, step: QueueStep)
    requires
        q.wf(),
        step.is_enabled(q),
    ensures
        step.apply(q).wf(),
{
    match step {
        QueueStep::Send { edits, receiver, now } => {
            let p = q.sending(edits, receiver, now);
            assert forall|i: int| 0 <= i < q.edits_in_progress.len() implies (
            #[trigger] p.edits_in_progress[i]) == q.edits_in_progress[i] by {}
        },
        QueueStep::Poll { index, found, receiver } => {
            if found == AckPoll::Acknowledged {
                lemma_acknowledged_keeps_wf(q, index);
            } else {
                lemma_waiting_on_keeps_wf(q, index, receiver);
            }
        },
        QueueStep::Check { now } => {},
        QueueStep::Suspend { suspended, now } => {},
    }
}

/// Whatever happens, the ids of the batches in progress ascend, as `wf` says.
pub proof fn run_keeps_wf(q: QueueView, steps: Seq<QueueStep>)
    requires
        q.wf(),
        can_run(q, steps),
    ensures
        run(q, steps).wf(),
    decreases steps.len(),
{
    if steps.len() > 0 {
        run_keeps_wf(q, steps.drop_last());
        lemma_step_keeps_wf(run(q, steps.drop_last()), steps.last());
    }
}

proof fn lemma_step_keeps_batch(q: QueueView, step: QueueStep, batch_id: u64)
    requires
        step.is_enabled(q),
        q.awaits(batch_id),
        !step.acknowledges(q, batch_id),
    ensures
        step.apply(q).awaits(batch_id),
{
    let i = choose|i: int|
        0 <= i < q.edits_in_progress.len() && (#[trigger] q.edits_in_progress[i]).batch_id
            == batch_id;
    let p = step.apply(q);
    match step {
        QueueStep::Poll { index, found, .. } => {
            if found == AckPoll::Acknowledged && index < i {
                assert(p.edits_in_progress[i - 1] == q.edits_in_progress[i]);
            } else {
                assert(p.edits_in_progress[i].batch_id == batch_id);
            }
        },
        _ => {
            assert(p.edits_in_progress[i] == q.edits_in_progress[i]);
        },
    }
}

/// Whatever happens, a batch that was sent stays in progress until it is found to be
/// acknowledged: no later batch's acknowledgment, no lost sender, no reconnect and no change
/// of the application's lifecycle completes it.
pub proof fn batch_stays_in_progress(q: QueueView, steps: Seq<QueueStep>, batch_id: u64)
    requires
        can_run(q, steps),
        q.awaits(batch_id) || run_sends(q, steps, batch_id),
        !run_acknowledges(q, steps, batch_id),
    ensures
        run(q, steps).awaits(batch_id),
    decreases steps.len(),
{
    if steps.len() > 0 {
        let before = run(q, steps.drop_last());
        let step = steps.last();
        if q.awaits(batch_id) || run_sends(q, steps.drop_last(), batch_id) {
            batch_stays_in_progress(q, steps.drop_last(), batch_id);
            lemma_step_keeps_batch(before, step, batch_id);
        } else {
            let after = step.apply(before);
            assert(after.edits_in_progress[before.edits_in_progress.len() as int].batch_id
                == batch_id);
        }
    }
}

/// A queue has nothing in progress only once every batch that was sent since it last had
/// nothing in progress was found to be acknowledged.
pub proof fn done_means_all_acknowledged(q: QueueView, steps: Seq<QueueStep>, batch_id: u64)
    requires
        can_run(q, steps),
        q.edits_in_progress.len() == 0,
        run(q, steps).edits_in_progress.len() == 0,
        run_sends(q, steps, batch_id),
    ensures
        run_acknowledges(q, steps, batch_id),
{
    if !run_acknowledges(q, steps, batch_id) {
        batch_stays_in_progress(q, steps, batch_id);
    }
}

pub(crate) proof fn lemma_polled_is_a_step<S>(
    q: QueueView,
    c: ConnectionsView<S>,
    index: int,
    found: AckPoll,
    q2: QueueView,
    c2: ConnectionsView<S>,
) -> (step: QueueStep)
    requires
        0 <= index < q.edits_in_progress.len(),
        is_polled_at(q, c, index, found, q2, c2),
    ensures
        step == (QueueStep::Poll { index, found, receiver: step->Poll_receiver }),
        step.is_enabled(q),
        q2 == step.apply(q),
{
    let polled = choose|polled: AckReceiver| #[trigger]
        is_poll_of(polled, q.edits_in_progress[index].receiver, found) && is_acted_on(
            q.waiting_on(index, polled),
            c,
            index,
            found,
            q2,
            c2,
        );
    let touched = q.waiting_on(index, polled);
    match found {
        AckPoll::Acknowledged => {
            assert(touched.edits_in_progress.remove(index) =~= q.edits_in_progress.remove(index));
            assert(q2 =~= q.acknowledged(index));
            QueueStep::Poll { index, found, receiver: polled }
        },
        AckPoll::Waiting => QueueStep::Poll { index, found, receiver: polled },
        AckPoll::Canceled => {
            let receiver = q2.edits_in_progress[index].receiver;
            assert(q2 =~= q.waiting_on(index, receiver));
            QueueStep::Poll { index, found, receiver }
        },
    }
}

/// Polling the queue is a run of as many polls as there were batches in progress, one for
/// each of them, oldest first.
pub proof fn polling_is_a_run<S>(
    q: QueueView,
    c: ConnectionsView<S>,
    found: Seq<AckPoll>,
    q2: QueueView,
    c2: ConnectionsView<S>,
) -> (steps: Seq<QueueStep>)
    requires
        found.len() <= q.edits_in_progress.len(),
        is_polled(q, c, found, q2, c2),
    ensures
        steps.len() == found.len(),
        can_run(q, steps),
        run(q, steps) == q2,
        q2.edits_in_progress.len() == q.edits_in_progress.len() - found.len() + kept(found),
        forall|k: int|
            0 <= k < steps.len() ==> (#[trigger] steps[k]) == (QueueStep::Poll {
                index: kept(found.take(k)) as int,
                found: found[k],
                receiver: steps[k]->Poll_receiver,
            }),
    decreases found.len(),
{
    if found.len() == 0 {
        Seq::empty()
    } else {
        let shorter = found.drop_last();
        let index = kept(shorter) as int;
        let (q1, c1) = choose|q1: QueueView, c1: ConnectionsView<S>|
            is_polled(q, c, shorter, q1, c1) && #[trigger] is_polled_at(
                q1,
                c1,
                index,
                found.last(),
                q2,
                c2,
            );
        let earlier = polling_is_a_run(q, c, shorter, q1, c1);
        let step = lemma_polled_is_a_step(q1, c1, index, found.last(), q2, c2);
        let steps = earlier.push(step);
        assert(steps.drop_last() =~= earlier);
        assert forall|k: int| 0 <= k < steps.len() implies (#[trigger] steps[k]) == (
        QueueStep::Poll {
            index: kept(found.take(k)) as int,
            found: found[k],
            receiver: steps[k]->Poll_receiver,
        }) by {
            if k < earlier.len() {
                assert(found.take(k) =~= shorter.take(k));
                assert(earlier[k] == steps[k]);
            } else {
                assert(found.take(k) =~= shorter);
            }
        }
        steps
    }
}

/// A poll takes nothing away from what the connections hold.
pub(crate) proof fn lemma_polled_at_keeps_held<S>(
    q: QueueView,
    c: ConnectionsView<S>,
    index: int,
    found: AckPoll,
    q2: QueueView,
    c2: ConnectionsView<S>,
)
    requires
        c.wf(),
        0 <= index < q.edits_in_progress.len(),
        is_polled_at(q, c, index, found, q2, c2),
    ensures
        c2.wf(),
        forall|receiver: AckReceiver|
            is_held(c, receiver) ==> #[trigger] is_held(c2, receiver),
{
    if c2 != c {
        let BatchInProgress { batch_id, edits, .. } = q.edits_in_progress[index];
        let receiver = q2.edits_in_progress[index].receiver;
        assert(is_sent(c, c2, q.webview_id, batch_id, edits, receiver));
        let response = choose|response: oneshot::Sender<()>| #[trigger]
            connected(response, receiver@) && c2 == c.adding(
                q.webview_id,
                MsgPair { batch_id, edits, response },
            );
        let pair = MsgPair { batch_id, edits, response };
        lemma_adding_keeps_wf(c, q.webview_id, pair);
        assert forall|receiver: AckReceiver| is_held(c, receiver) implies
            #[trigger] is_held(c2, receiver) by {
            lemma_adding_keeps_held(c, q.webview_id, pair, receiver);
        }
    }
}

/// Whether batch `batch_id` is among the first `count` ones of a queue.
pub(crate) open spec fn is_among(q: QueueView, count: int, batch_id: u64) -> bool {
    exists|p: int|
        0 <= p < count && (#[trigger] q.edits_in_progress[p]).batch_id == batch_id
}

/// What polling the oldest batches of a queue leaves as it was: what was held is held still,
/// what was not polled is unchanged, and what was not found to be acknowledged stays. Of one
/// whose sender was held nothing is found, an acknowledgment is found only where one is
/// reported, and only a batch for which none is reported is sent again.
pub(crate) proof fn lemma_polled_parts<S>(
    q: QueueView,
    c: ConnectionsView<S>,
    found: Seq<AckPoll>,
    q2: QueueView,
    c2: ConnectionsView<S>,
)
    requires
        c.wf(),
        found.len() <= q.edits_in_progress.len(),
        is_polled(q, c, found, q2, c2),
    ensures
        c2.wf(),
        q2.edits_in_progress.len() == q.edits_in_progress.len() - found.len() + kept(found),
        forall|receiver: AckReceiver|
            is_held(c, receiver) ==> #[trigger] is_held(c2, receiver),
        forall|j: int|
            found.len() <= j < q.edits_in_progress.len() ==> q2.edits_in_progress[kept(found) + j
                - found.len()] == #[trigger] q.edits_in_progress[j],
        forall|i: int|
            0 <= i < found.len() && found[i] != AckPoll::Acknowledged ==> is_among(
                q2,
                kept(found) as int,
                (#[trigger] q.edits_in_progress[i]).batch_id,
            ),
        forall|i: int|
            0 <= i < found.len() && is_held(
                c,
                (#[trigger] q.edits_in_progress[i]).receiver,
            ) ==> found[i] == AckPoll::Waiting,
        forall|i: int|
            0 <= i < found.len() && found[i] == AckPoll::Acknowledged ==> is_reported(
                (#[trigger] q.edits_in_progress[i]).receiver,
            ),
        forall|i: int|
            0 <= i < found.len() && found[i] == AckPoll::Canceled ==> !is_reported(
                (#[trigger] q.edits_in_progress[i]).receiver,
            ),
        !found.contains(AckPoll::Canceled) ==> c2 == c,
    decreases found.len(),
{
    if found.len() > 0 {
        let shorter = found.drop_last();
        let index = kept(shorter) as int;
        let last = found.len() - 1;
        let (q1, c1) = choose|q1: QueueView, c1: ConnectionsView<S>|
            is_polled(q, c, shorter, q1, c1) && #[trigger] is_polled_at(
                q1,
                c1,
                index,
                found.last(),
                q2,
                c2,
            );
        lemma_polled_parts(q, c, shorter, q1, c1);
        lemma_polled_at_keeps_held(q1, c1, index, found.last(), q2, c2);
        assert(q1.edits_in_progress[index] == q.edits_in_progress[last]);
        let step = lemma_polled_is_a_step(q1, c1, index, found.last(), q2, c2);
        assert(q2 == step.apply(q1));
        assert forall|receiver: AckReceiver| is_held(c, receiver) implies
            #[trigger] is_held(c2, receiver) by {
            assert(is_held(c1, receiver));
        }
        assert forall|j: int| found.len() <= j < q.edits_in_progress.len() implies
            q2.edits_in_progress[kept(found) + j - found.len()]
            == #[trigger] q.edits_in_progress[j] by {
            assert(q1.edits_in_progress[index + j - shorter.len()] == q.edits_in_progress[j]);
        }
        assert forall|i: int|
            0 <= i < found.len() && found[i] != AckPoll::Acknowledged implies is_among(
            q2,
            kept(found) as int,
            (#[trigger] q.edits_in_progress[i]).batch_id,
        ) by {
            let batch_id = q.edits_in_progress[i].batch_id;
            if i < last {
                assert(shorter[i] == found[i]);
                assert(is_among(q1, index, batch_id));
                let p = choose|p: int|
                    0 <= p < index && (#[trigger] q1.edits_in_progress[p]).batch_id == batch_id;
                assert(q2.edits_in_progress[p].batch_id == batch_id);
            } else {
                assert(q2.edits_in_progress[index].batch_id == batch_id);
            }
        }
        assert forall|i: int|
            0 <= i < found.len() && is_held(
                c,
                (#[trigger] q.edits_in_progress[i]).receiver,
            ) implies found[i] == AckPoll::Waiting by {
            if i < last {
                assert(shorter[i] == found[i]);
            } else {
                assert(is_held(c1, q.edits_in_progress[last].receiver));
            }
        }
        assert forall|i: int|
            0 <= i < found.len() && found[i] == AckPoll::Acknowledged implies is_reported(
            (#[trigger] q.edits_in_progress[i]).receiver,
        ) by {
            if i < last {
                assert(shorter[i] == found[i]);
            }
        }
        assert forall|i: int|
            0 <= i < found.len() && found[i] == AckPoll::Canceled implies !is_reported(
            (#[trigger] q.edits_in_progress[i]).receiver,
        ) by {
            if i < last {
                assert(shorter[i] == found[i]);
            }
        }
        if !found.contains(AckPoll::Canceled) {
            assert(found[last] != AckPoll::Canceled);
            if shorter.contains(AckPoll::Canceled) {
                assert(found[shorter.index_of(AckPoll::Canceled)] == AckPoll::Canceled);
            }
        }
    }
}

proof fn lemma_kept_is_positive(found: Seq<AckPoll>, k: int)
    requires
        0 <= k < found.len(),
        found[k] != AckPoll::Acknowledged,
    ensures
        kept(found) > 0,
    decreases found.len(),
{
    if k < found.len() - 1 {
        lemma_kept_is_positive(found.drop_last(), k);
    }
}

proof fn lemma_kept_is_zero(found: Seq<AckPoll>)
    requires
        forall|k: int| 0 <= k < found.len() ==> found[k] == AckPoll::Acknowledged,
    ensures
        kept(found) == 0,
    decreases found.len(),
{
    if found.len() > 0 {
        lemma_kept_is_zero(found.drop_last());
    }
}

/// Polling leaves nothing in progress exactly if every batch that was in progress is found
/// to be acknowledged.
pub proof fn polling_flushes_only_when_all_are_acknowledged<S>(
    q: QueueView,
    c: ConnectionsView<S>,
    found: Seq<AckPoll>,
    q2: QueueView,
    c2: ConnectionsView<S>,
)
    requires
        found.len() == q.edits_in_progress.len(),
        is_polled(q, c, found, q2, c2),
    ensures
        q2.edits_in_progress.len() == 0 <==> (forall|k: int|
            0 <= k < found.len() ==> found[k] == AckPoll::Acknowledged),
{
    let _ = polling_is_a_run(q, c, found, q2, c2);
    if forall|k: int| 0 <= k < found.len() ==> found[k] == AckPoll::Acknowledged {
        lemma_kept_is_zero(found);
    } else {
        let k = choose|k: int| 0 <= k < found.len() && found[k] != AckPoll::Acknowledged;
        lemma_kept_is_positive(found, k);
    }
}

/// Whether nothing that a queue holds can trigger a reconnect within the cooldown from
/// `time` on.
pub open spec fn is_quiet_since(q: QueueView, time: u128) -> bool {
    ||| q.suspended
    ||| q.reconnect_triggered_at is Some && q.reconnect_triggered_at->0 >= time
    ||| q.edit_sent_at is Some ==> q.edit_sent_at->0 >= time
}

proof fn lemma_run_stays_quiet(q: QueueView, steps: Seq<QueueStep>, time: u128)
    requires
        q.wf(),
        can_run(q, steps),
        is_quiet_since(q, time),
        forall|k: int| 0 <= k < steps.len() ==> (#[trigger] steps[k]).is_not_before(time),
    ensures
        is_quiet_since(run(q, steps), time),
    decreases steps.len(),
{
    if steps.len() > 0 {
        let shorter = steps.drop_last();
        assert forall|k: int| 0 <= k < shorter.len() implies (
        #[trigger] shorter[k]).is_not_before(time) by {
            assert(shorter[k] == steps[k]);
        }
        lemma_run_stays_quiet(q, shorter, time);
        run_keeps_wf(q, shorter);
        assert(steps[steps.len() - 1].is_not_before(time));
    }
}

/// Between two reconnects that a queue triggers lies at least the cooldown, whatever happens
/// in between: batches may be sent, replayed and acknowledged, and the application may be
/// suspended and resumed. Time does not run backwards.
pub proof fn reconnects_are_apart(
    q: QueueView,
    triggered: u128,
    steps: Seq<QueueStep>,
    later: u128,
)
    requires
        q.wf(),
        q.is_stale(triggered),
        can_run(q.checking(triggered), steps),
        forall|k: int| 0 <= k < steps.len() ==> (#[trigger] steps[k]).is_not_before(triggered),
        run(q.checking(triggered), steps).is_stale(later),
    ensures
        elapsed(triggered, later) >= RECONNECT_COOLDOWN,
{
    lemma_run_stays_quiet(q.checking(triggered), steps, triggered);
}

/// No reconnect is triggered while the application is suspended.
pub proof fn suspended_queue_is_never_stale(q: QueueView, suspended_at: u128, later: u128)
    ensures
        !q.suspending(true, suspended_at).is_stale(later),
{
}

/// A resumed application gives the batches in progress their full time again.
pub proof fn resuming_restarts_the_clock(q: QueueView, resumed_at: u128, later: u128)
    requires
        elapsed(resumed_at, later) < STALE_THRESHOLD,
    ensures
        !q.suspending(false, resumed_at).is_stale(later),
{
}

/// Neither a change of the application's lifecycle nor a triggered reconnect completes an
/// edit, forgets a batch or spends a batch id.
pub proof fn lifecycle_keeps_edits(q: QueueView, suspended: bool, now: u128)
    ensures
        q.suspending(suspended, now).edits_in_progress == q.edits_in_progress,
        q.suspending(suspended, now).next_batch_id == q.next_batch_id,
        q.checking(now).edits_in_progress == q.edits_in_progress,
        q.checking(now).next_batch_id == q.next_batch_id,
{
}

} // verus!
