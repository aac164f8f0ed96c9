//! The render barrier: what an edit queue and the connections give together.
use crate::ack::{connected, AckPoll, AckReceiver};
use crate::connections::{lemma_adding_keeps_wf, ConnectionsView};
use crate::delivery::{acknowledging_removes_one_batch, batch_is_held_until_acknowledged, can_run};
use crate::delivery::{holds, is_held, is_in_channel, lemma_held_batch_has_a_place};
use crate::delivery::{lemma_step_keeps_batch, lemma_step_keeps_wf, run, run_acknowledges};
use crate::delivery::{sending_adds_one_batch, waits_in_state, Step};
use crate::flush::{lemma_polled_at_keeps_held, polling_is_a_run};
use crate::message::MsgPair;
use crate::queue::{is_acted_on, is_poll_of, is_polled, is_polled_at, is_sent, kept, QueueView};
use futures_channel::oneshot;
use std::sync::Arc;
use vstd::prelude::*;

verus! {

/// A webview's queue and the connections of all webviews.
pub struct World<S> {
    pub queue: QueueView,
    pub connections: ConnectionsView<S>,
}

/// One thing that happens to a queue or to the connections.
pub enum Event<S> {
    /// The queue sends a batch.
    Send { edits: Arc<Vec<u8>>, receiver: AckReceiver, now: u128 },
    /// The queue polls the batch at an index.
    Poll { index: int, found: AckPoll },
    /// It is looked whether a reconnect is called for.
    Check { now: u128 },
    /// The application is suspended or resumed.
    Suspend { suspended: bool, now: u128 },
    /// The connections take a step.
    Connections { step: Step<S> },
}

impl<S> Event<S> {
    /// Whether the event can lead from one world to the other.
    pub open spec fn leads(self, from: World<S>, to: World<S>) -> bool {
        match self {
            Event::Send { edits, receiver, now } => {
                &&& from.queue.next_batch_id < u64::MAX
                &&& to.queue == from.queue.sending(edits, receiver, now)
                &&& is_sent(
                    from.connections,
                    to.connections,
                    from.queue.webview_id,
                    from.queue.next_batch_id,
                    edits,
                    receiver,
                )
            },
            Event::Poll { index, found } => {
                &&& 0 <= index < from.queue.edits_in_progress.len()
                &&& is_polled_at(
                    from.queue,
                    from.connections,
                    index,
                    found,
                    to.queue,
                    to.connections,
                )
            },
            Event::Check { now } => {
                &&& to.queue == from.queue.checking(now)
                &&& to.connections == from.connections
            },
            Event::Suspend { suspended, now } => {
                &&& to.queue == from.queue.suspending(suspended, now)
                &&& to.connections == from.connections
            },
            Event::Connections { step } => {
                &&& step.is_enabled(from.connections)
                &&& to.queue == from.queue
                &&& to.connections == step.apply(from.connections)
            },
        }
    }

    /// Whether the event is the acknowledgment of this batch over a connection of the
    /// queue's webview.
    pub open spec fn acknowledges(self, world: World<S>, batch_id: u64, edits: Arc<Vec<u8>>) -> bool {
        match self {
            Event::Connections { step: Step::Acknowledge { channel } } => {
                let on_its_way = world.connections.channels[channel];
                &&& world.connections.has_queued(channel)
                &&& on_its_way.webview_id == world.queue.webview_id
                &&& on_its_way.queued_message->0.batch_id == batch_id
                &&& on_its_way.queued_message->0.edits == edits
            },
            _ => false,
        }
    }
}

/// Whether each of `events` leads from one of `worlds` to the next.
pub open spec fn is_trace<S>(worlds: Seq<World<S>>, events: Seq<Event<S>>) -> bool {
    &&& worlds.len() == events.len() + 1
    &&& forall|k: int|
        0 <= k < events.len() ==> (#[trigger] events[k]).leads(worlds[k], worlds[k + 1])
}

/// Whether a batch is in progress, and is held together with the sender that its receiver is
/// connected to.
spec fn is_pending_at<S>(
    world: World<S>,
    index: int,
    pair: MsgPair,
    batch_id: u64,
    edits: Arc<Vec<u8>>,
) -> bool {
    &&& 0 <= index < world.queue.edits_in_progress.len()
    &&& world.queue.edits_in_progress[index].batch_id == batch_id
    &&& world.queue.edits_in_progress[index].edits == edits
    &&& pair.batch_id == batch_id
    &&& pair.edits == edits
    &&& connected(pair.response, world.queue.edits_in_progress[index].receiver@)
    &&& holds(world.connections, world.queue.webview_id, pair)
}

/// Whether a batch is in progress and held somewhere.
spec fn is_on_its_way<S>(world: World<S>, batch_id: u64, edits: Arc<Vec<u8>>) -> bool {
    exists|index: int, pair: MsgPair| is_pending_at(world, index, pair, batch_id, edits)
}

/// A sent batch is in progress and held.
proof fn lemma_sent_is_on_its_way<S>(
    from: World<S>,
    to: World<S>,
    index: int,
    batch_id: u64,
    edits: Arc<Vec<u8>>,
)
    requires
        from.connections.wf(),
        0 <= index < to.queue.edits_in_progress.len(),
        to.queue.webview_id == from.queue.webview_id,
        to.queue.edits_in_progress[index].batch_id == batch_id,
        to.queue.edits_in_progress[index].edits == edits,
        is_sent(
            from.connections,
            to.connections,
            from.queue.webview_id,
            batch_id,
            edits,
            to.queue.edits_in_progress[index].receiver,
        ),
    ensures
        is_on_its_way(to, batch_id, edits),
{
    let receiver = to.queue.edits_in_progress[index].receiver;
    let webview = from.queue.webview_id;
    let response = choose|response: oneshot::Sender<()>| #[trigger]
        connected(response, receiver@) && to.connections == from.connections.adding(
            webview,
            MsgPair { batch_id, edits, response },
        );
    let pair = MsgPair { batch_id, edits, response };
    sending_adds_one_batch(from.connections, webview, pair, webview, pair);
    assert(is_pending_at(to, index, pair, batch_id, edits));
}

pub(crate) proof fn lemma_sending_keeps_holding<S>(
    from: ConnectionsView<S>,
    to: ConnectionsView<S>,
    webview: u32,
    batch_id: u64,
    edits: Arc<Vec<u8>>,
    receiver: AckReceiver,
    held: MsgPair,
)
    requires
        from.wf(),
        is_sent(from, to, webview, batch_id, edits, receiver),
        holds(from, webview, held),
    ensures
        holds(to, webview, held),
{
    let response = choose|response: oneshot::Sender<()>| #[trigger]
        connected(response, receiver@) && to == from.adding(
            webview,
            MsgPair { batch_id, edits, response },
        );
    sending_adds_one_batch(
        from,
        webview,
        MsgPair { batch_id, edits, response },
        webview,
        held,
    );
}

/// A poll leaves every batch on its way.
proof fn lemma_poll_keeps_on_its_way<S>(
    from: World<S>,
    to: World<S>,
    index: int,
    found: AckPoll,
    batch_id: u64,
    edits: Arc<Vec<u8>>,
)
    requires
        from.connections.wf(),
        (Event::Poll { index, found }).leads(from, to),
        is_on_its_way(from, batch_id, edits),
    ensures
        is_on_its_way(to, batch_id, edits),
{
    let (i, pair) = choose|i: int, pair: MsgPair| is_pending_at(from, i, pair, batch_id, edits);
    let q = from.queue;
    let q2 = to.queue;
    let polled = choose|polled: AckReceiver| #[trigger]
        is_poll_of(polled, q.edits_in_progress[index].receiver, found) && is_acted_on(
            q.waiting_on(index, polled),
            from.connections,
            index,
            found,
            q2,
            to.connections,
        );
    lemma_held_batch_has_a_place(
        from.connections,
        q.webview_id,
        pair,
        q.edits_in_progress[i].receiver,
    );
    if found == AckPoll::Acknowledged {
        assert(i != index);
        let j = if i < index {
            i
        } else {
            i - 1
        };
        assert(q2.edits_in_progress[j] == q.edits_in_progress[i]);
        assert(is_pending_at(to, j, pair, batch_id, edits));
    } else if found == AckPoll::Canceled {
        let batch = q.edits_in_progress[index];
        if i == index {
            lemma_sent_is_on_its_way(from, to, index, batch_id, edits);
        } else {
            lemma_sending_keeps_holding(
                from.connections,
                to.connections,
                q.webview_id,
                batch.batch_id,
                batch.edits,
                q2.edits_in_progress[index].receiver,
                pair,
            );
            assert(is_pending_at(to, i, pair, batch_id, edits));
        }
    } else {
        assert(connected(pair.response, q2.edits_in_progress[i].receiver@));
        assert(is_pending_at(to, i, pair, batch_id, edits));
    }
}

/// A step of the connections leaves a batch held unless it acknowledges that batch over a
/// connection of its webview.
proof fn lemma_step_keeps_holding<S>(
    v: ConnectionsView<S>,
    step: Step<S>,
    webview: u32,
    pair: MsgPair,
)
    requires
        v.wf(),
        step.is_enabled(v),
        holds(v, webview, pair),
    ensures
        holds(step.apply(v), webview, pair) || (step matches Step::Acknowledge { channel }
            && v.channels[channel].webview_id == webview && v.channels[channel].queued_message
            == Some(pair)),
{
    lemma_step_keeps_batch(v, step, webview, pair);
    if let Step::Acknowledge { channel } = step {
        acknowledging_removes_one_batch(v, channel, webview, pair);
        let w = step.apply(v);
        if v.channels[channel].webview_id != webview {
            if waits_in_state(v, webview, pair) {
                assert(waits_in_state(w, webview, pair));
            } else {
                let id = choose|id: u64| is_in_channel(v, webview, id, pair);
                assert(is_in_channel(w, webview, id, pair));
            }
        }
    }
}

pub(crate) proof fn lemma_event_keeps_wf<S>(event: Event<S>, from: World<S>, to: World<S>)
    requires
        from.connections.wf(),
        event.leads(from, to),
    ensures
        to.connections.wf(),
        to.queue.webview_id == from.queue.webview_id,
{
    match event {
        Event::Send { edits, receiver, .. } => {
            let webview = from.queue.webview_id;
            let batch_id = from.queue.next_batch_id;
            let response = choose|response: oneshot::Sender<()>| #[trigger]
                connected(response, receiver@) && to.connections == from.connections.adding(
                    webview,
                    MsgPair { batch_id, edits, response },
                );
            lemma_adding_keeps_wf(
                from.connections,
                webview,
                MsgPair { batch_id, edits, response },
            );
        },
        Event::Poll { index, found } => lemma_polled_at_keeps_held(
            from.queue,
            from.connections,
            index,
            found,
            to.queue,
            to.connections,
        ),
        Event::Connections { step } => lemma_step_keeps_wf(from.connections, step),
        _ => {},
    }
}

proof fn lemma_event_keeps_on_its_way<S>(
    event: Event<S>,
    from: World<S>,
    to: World<S>,
    batch_id: u64,
    edits: Arc<Vec<u8>>,
)
    requires
        from.connections.wf(),
        event.leads(from, to),
        is_on_its_way(from, batch_id, edits),
        !event.acknowledges(from, batch_id, edits),
    ensures
        is_on_its_way(to, batch_id, edits),
{
    let (i, pair) = choose|i: int, pair: MsgPair| is_pending_at(from, i, pair, batch_id, edits);
    match event {
        Event::Send { edits: sent, receiver, .. } => {
            lemma_sending_keeps_holding(
                from.connections,
                to.connections,
                from.queue.webview_id,
                from.queue.next_batch_id,
                sent,
                receiver,
                pair,
            );
            assert(is_pending_at(to, i, pair, batch_id, edits));
        },
        Event::Poll { index, found } => lemma_poll_keeps_on_its_way(
            from,
            to,
            index,
            found,
            batch_id,
            edits,
        ),
        Event::Connections { step } => {
            lemma_step_keeps_holding(from.connections, step, from.queue.webview_id, pair);
            assert(is_pending_at(to, i, pair, batch_id, edits));
        },
        _ => {
            assert(is_pending_at(to, i, pair, batch_id, edits));
        },
    }
}

proof fn lemma_trace_keeps_wf<S>(worlds: Seq<World<S>>, events: Seq<Event<S>>, n: int)
    requires
        is_trace(worlds, events),
        worlds[0].connections.wf(),
        0 <= n < worlds.len(),
    ensures
        worlds[n].connections.wf(),
    decreases n,
{
    if n > 0 {
        lemma_trace_keeps_wf(worlds, events, n - 1);
        lemma_event_keeps_wf(events[n - 1], worlds[n - 1], worlds[n]);
    }
}

proof fn lemma_trace_keeps_on_its_way<S>(
    worlds: Seq<World<S>>,
    events: Seq<Event<S>>,
    sent: int,
    n: int,
)
    requires
        is_trace(worlds, events),
        worlds[0].connections.wf(),
        0 <= sent < n < worlds.len(),
        events[sent] is Send,
        forall|j: int|
            sent < j < n ==> !(#[trigger] events[j]).acknowledges(
                worlds[j],
                worlds[sent].queue.next_batch_id,
                events[sent]->edits,
            ),
    ensures
        is_on_its_way(worlds[n], worlds[sent].queue.next_batch_id, events[sent]->edits),
    decreases n,
{
    let from = worlds[n - 1];
    let to = worlds[n];
    let batch_id = worlds[sent].queue.next_batch_id;
    let edits = events[sent]->edits;
    assert(events[n - 1].leads(from, to));
    lemma_trace_keeps_wf(worlds, events, n - 1);
    if n == sent + 1 {
        lemma_sent_is_on_its_way(
            from,
            to,
            from.queue.edits_in_progress.len() as int,
            batch_id,
            edits,
        );
    } else {
        lemma_trace_keeps_on_its_way(worlds, events, sent, n - 1);
        lemma_event_keeps_on_its_way(events[n - 1], from, to, batch_id, edits);
    }
}

/// Whatever happens, a batch that the queue sent is in progress until the webview
/// acknowledges that batch over one of its connections.
pub proof fn batch_is_awaited_until_the_webview_acknowledges<S>(
    worlds: Seq<World<S>>,
    events: Seq<Event<S>>,
    sent: int,
)
    requires
        is_trace(worlds, events),
        worlds[0].connections.wf(),
        0 <= sent < events.len(),
        events[sent] is Send,
        forall|j: int|
            sent < j < events.len() ==> !(#[trigger] events[j]).acknowledges(
                worlds[j],
                worlds[sent].queue.next_batch_id,
                events[sent]->edits,
            ),
    ensures
        worlds.last().queue.awaits(worlds[sent].queue.next_batch_id),
{
    lemma_trace_keeps_on_its_way(worlds, events, sent, events.len() as int);
    let batch_id = worlds[sent].queue.next_batch_id;
    let (i, pair) = choose|i: int, pair: MsgPair|
        is_pending_at(worlds.last(), i, pair, batch_id, events[sent]->edits);
    assert(worlds.last().queue.edits_in_progress[i].batch_id == batch_id);
}

/// The render barrier: once the queue has nothing in progress, the webview has acknowledged
/// every batch that the queue sent, each over one of the webview's connections, after it was
/// sent.
pub proof fn done_means_the_webview_acknowledged_all<S>(
    worlds: Seq<World<S>>,
    events: Seq<Event<S>>,
    sent: int,
)
    requires
        is_trace(worlds, events),
        worlds[0].connections.wf(),
        worlds.last().queue.edits_in_progress.len() == 0,
        0 <= sent < events.len(),
        events[sent] is Send,
    ensures
        exists|j: int|
            sent < j < events.len() && (#[trigger] events[j]).acknowledges(
                worlds[j],
                worlds[sent].queue.next_batch_id,
                events[sent]->edits,
            ),
{
    if forall|j: int|
        sent < j < events.len() ==> !(#[trigger] events[j]).acknowledges(
            worlds[j],
            worlds[sent].queue.next_batch_id,
            events[sent]->edits,
        ) {
        batch_is_awaited_until_the_webview_acknowledges(worlds, events, sent);
    }
}

/// Polling the queue is a trace of polls, one for each batch that was in progress, so that
/// the render barrier holds of it.
pub proof fn polling_is_a_trace<S>(
    q: QueueView,
    c: ConnectionsView<S>,
    found: Seq<AckPoll>,
    q2: QueueView,
    c2: ConnectionsView<S>,
) -> (trace: (Seq<World<S>>, Seq<Event<S>>))
    requires
        found.len() <= q.edits_in_progress.len(),
        is_polled(q, c, found, q2, c2),
    ensures
        is_trace(trace.0, trace.1),
        trace.0.first() == (World { queue: q, connections: c }),
        trace.0.last() == (World { queue: q2, connections: c2 }),
        trace.1.len() == found.len(),
        forall|k: int|
            0 <= k < found.len() ==> (#[trigger] trace.1[k]) == (Event::<S>::Poll {
                index: kept(found.take(k)) as int,
                found: found[k],
            }),
    decreases found.len(),
{
    let end = World { queue: q2, connections: c2 };
    if found.len() == 0 {
        (seq![end], Seq::empty())
    } else {
        let shorter = found.drop_last();
        let index = kept(shorter) as int;
        let (q1, c1) = choose|q1: QueueView, c1: ConnectionsView<S>|
            is_polled(q, c, shorter, q1, c1) && #[trigger] is_polled_at(
                q1,
                c1,
                index,
                found.last(),
                q2,
                c2,
            );
        let (worlds, events) = polling_is_a_trace(q, c, shorter, q1, c1);
        let _ = polling_is_a_run(q, c, shorter, q1, c1);
        let event = Event::<S>::Poll { index, found: found.last() };
        let more_worlds = worlds.push(end);
        let more_events = events.push(event);
        assert(event.leads(worlds.last(), end));
        assert forall|k: int| 0 <= k < more_events.len() implies (
        #[trigger] more_events[k]).leads(more_worlds[k], more_worlds[k + 1]) by {
            if k < events.len() {
                assert(events[k].leads(worlds[k], worlds[k + 1]));
            }
        }
        assert forall|k: int| 0 <= k < found.len() implies (#[trigger] more_events[k]) == (
        Event::<S>::Poll { index: kept(found.take(k)) as int, found: found[k] }) by {
            if k < events.len() {
                assert(found.take(k) =~= shorter.take(k));
                assert(events[k] == more_events[k]);
            } else {
                assert(found.take(k) =~= shorter);
            }
        }
        (more_worlds, more_events)
    }
}

/// Whatever the connections do, the sender of a batch that they hold is held until the batch
/// is acknowledged, so that no poll of its receiver finds an acknowledgment before.
pub proof fn sender_is_held_until_acknowledged<S>(
    v: ConnectionsView<S>,
    steps: Seq<Step<S>>,
    webview: u32,
    pair: MsgPair,
    receiver: AckReceiver,
)
    requires
        v.wf(),
        can_run(v, steps),
        holds(v, webview, pair),
        connected(pair.response, receiver@),
        !run_acknowledges(v, steps, pair),
    ensures
        is_held(run(v, steps), receiver),
{
    batch_is_held_until_acknowledged(v, steps, webview, pair);
    lemma_held_batch_has_a_place(run(v, steps), webview, pair, receiver);
}

} // verus!
