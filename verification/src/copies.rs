//! How often a batch is held for its webview: never more than once.
use crate::ack::{connected, AckPoll, AckReceiver};
use crate::barrier::{is_trace, lemma_event_keeps_wf, Event, World};
use crate::connections::{
    lemma_adding_keeps_wf, lemma_removing_channel_keeps_wf, ConnectionsView, StateView,
};
use crate::delivery::{batch_at, held_batch_was_sent, holds, is_in_channel, place_of_added, Place};
use crate::delivery::{can_run, lemma_batch_at_after_adding, lemma_held_batch_has_a_place, run};
use crate::delivery::{is_held, run_sends, sending_adds_one_batch, waits_in_state, Step};
use crate::flush::{lemma_polled_is_a_step, lemma_step_keeps_wf, QueueStep};
use crate::message::MsgPair;
use crate::queue::{is_acted_on, is_poll_of, is_sent, QueueView};
use futures_channel::oneshot;
use std::sync::Arc;
use vstd::prelude::*;

verus! {

/// Whether a batch that is held at a place is held for `webview`.
pub open spec fn belongs_to<S>(v: ConnectionsView<S>, place: Place, webview: u32) -> bool {
    match place {
        Place::Pending { webview: of, .. } => of == webview,
        Place::Channel { channel, .. } => v.channels.contains_key(channel)
            && v.channels[channel].webview_id == webview,
    }
}

/// The id of the batch that is held at a place for `webview`, if there is one.
pub open spec fn id_at<S>(v: ConnectionsView<S>, place: Place, webview: u32) -> Option<u64> {
    if belongs_to(v, place, webview) && batch_at(v, place) is Some {
        Some(batch_at(v, place)->0.batch_id)
    } else {
        None
    }
}

/// Whether no two places hold batches of one id for `webview`.
pub open spec fn holds_one_copy<S>(v: ConnectionsView<S>, webview: u32) -> bool {
    forall|x: Place, y: Place|
        #![trigger id_at(v, x, webview), id_at(v, y, webview)]
        id_at(v, x, webview) is Some && id_at(v, x, webview) == id_at(v, y, webview) ==> x == y
}

/// Whether no batch of this id is held for `webview`.
pub open spec fn holds_no_copy<S>(v: ConnectionsView<S>, webview: u32, batch_id: u64) -> bool {
    forall|place: Place| #[trigger] id_at(v, place, webview) != Some(batch_id)
}

/// Whether the queue waits for the acknowledgment of this batch, over the sender that the
/// batch is held with.
pub open spec fn is_awaited(q: QueueView, pair: MsgPair) -> bool {
    exists|i: int|
        {
            &&& 0 <= i < q.edits_in_progress.len()
            &&& (#[trigger] q.edits_in_progress[i]).batch_id == pair.batch_id
            &&& q.edits_in_progress[i].edits == pair.edits
            &&& connected(pair.response, q.edits_in_progress[i].receiver@)
        }
}

/// Whether queue and connections are in step: whatever is held for the queue's webview is a
/// batch that the queue waits for, and is held once.
pub open spec fn is_in_step<S>(world: World<S>) -> bool {
    &&& world.queue.wf()
    &&& world.connections.wf()
    &&& holds_one_copy(world.connections, world.queue.webview_id)
    &&& forall|pair: MsgPair| #[trigger]
        holds(world.connections, world.queue.webview_id, pair) ==> is_awaited(world.queue, pair)
}

impl<S> Event<S> {
    /// Whether the event leaves it to the queue to send to `webview`.
    pub open spec fn leaves_sending(self, webview: u32) -> bool {
        self matches Event::Connections { step: Step::Send { webview: to, .. } } ==> to != webview
    }
}

proof fn lemma_id_at_is_held<S>(v: ConnectionsView<S>, place: Place, webview: u32)
    requires
        id_at(v, place, webview) is Some,
    ensures
        holds(v, webview, batch_at(v, place)->0),
{
    let pair = batch_at(v, place)->0;
    match place {
        Place::Pending { index, .. } => {
            assert(waits_in_state(v, webview, pair)) by {
                assert(v.states[webview]->pending[index] == pair);
            }
        },
        Place::Channel { channel, index } => {
            assert(v.channels[channel].backlog()[index] == pair);
            assert(is_in_channel(v, webview, channel, pair));
        },
    }
}

proof fn lemma_id_at_after_adding<S>(
    v: ConnectionsView<S>,
    to: u32,
    pair: MsgPair,
    place: Place,
    webview: u32,
)
    requires
        v.wf(),
    ensures
        id_at(v.adding(to, pair), place, webview) == (if place == place_of_added(v, to) && to
            == webview {
            Some(pair.batch_id)
        } else {
            id_at(v, place, webview)
        }),
{
    lemma_batch_at_after_adding(v, to, pair, place);
    if let StateView::Connected { edits_outgoing, .. } = v.state_of(to) {
        assert(v.sends_into(to, edits_outgoing));
    }
}

proof fn lemma_adding_keeps_one_copy<S>(
    v: ConnectionsView<S>,
    to: u32,
    pair: MsgPair,
    webview: u32,
)
    requires
        v.wf(),
        holds_one_copy(v, webview),
        to == webview ==> holds_no_copy(v, webview, pair.batch_id),
    ensures
        holds_one_copy(v.adding(to, pair), webview),
{
    let w = v.adding(to, pair);
    assert forall|x: Place, y: Place|
        #![trigger id_at(w, x, webview), id_at(w, y, webview)]
        id_at(w, x, webview) is Some && id_at(w, x, webview) == id_at(w, y, webview) implies x
        == y by {
        lemma_id_at_after_adding(v, to, pair, x, webview);
        lemma_id_at_after_adding(v, to, pair, y, webview);
        if to == webview {
            assert(id_at(v, x, webview) != Some(pair.batch_id));
            assert(id_at(v, y, webview) != Some(pair.batch_id));
        }
    }
}

proof fn lemma_adding_all_keeps_one_copy<S>(
    v: ConnectionsView<S>,
    to: u32,
    pairs: Seq<MsgPair>,
    webview: u32,
)
    requires
        v.wf(),
        holds_one_copy(v, webview),
        to == webview ==> forall|i: int|
            0 <= i < pairs.len() ==> holds_no_copy(v, webview, (#[trigger] pairs[i]).batch_id),
        to == webview ==> forall|i: int, j: int|
            0 <= i < j < pairs.len() ==> (#[trigger] pairs[i]).batch_id != (
            #[trigger] pairs[j]).batch_id,
    ensures
        holds_one_copy(v.adding_all(to, pairs), webview),
    decreases pairs.len(),
{
    if pairs.len() > 0 {
        let pair = pairs.first();
        let rest = pairs.drop_first();
        let w = v.adding(to, pair);
        assert(pairs[0] == pair);
        lemma_adding_keeps_wf(v, to, pair);
        lemma_adding_keeps_one_copy(v, to, pair, webview);
        if to == webview {
            assert forall|i: int| 0 <= i < rest.len() implies holds_no_copy(
                w,
                webview,
                (#[trigger] rest[i]).batch_id,
            ) by {
                assert(rest[i] == pairs[i + 1]);
                assert(pairs[0].batch_id != pairs[i + 1].batch_id);
                assert forall|place: Place| #[trigger] id_at(w, place, webview) != Some(
                    rest[i].batch_id,
                ) by {
                    lemma_id_at_after_adding(v, to, pair, place, webview);
                    assert(id_at(v, place, webview) != Some(pairs[i + 1].batch_id));
                }
            }
            assert forall|i: int, j: int| 0 <= i < j < rest.len() implies (
            #[trigger] rest[i]).batch_id != (#[trigger] rest[j]).batch_id by {
                assert(rest[i] == pairs[i + 1] && rest[j] == pairs[j + 1]);
            }
        }
        lemma_adding_all_keeps_one_copy(w, to, rest, webview);
    }
}

proof fn lemma_closing_keeps_one_copy<S>(v: ConnectionsView<S>, channel: u64, webview: u32)
    requires
        v.wf(),
        holds_one_copy(v, webview),
    ensures
        holds_one_copy(v.closing(channel), webview),
{
    if v.channels.contains_key(channel) {
        let c = v.channels[channel];
        let u = ConnectionsView { channels: v.channels.remove(channel), ..v };
        let pairs = c.backlog();
        lemma_removing_channel_keeps_wf(v, channel);
        assert forall|x: Place, y: Place|
            #![trigger id_at(u, x, webview), id_at(u, y, webview)]
            id_at(u, x, webview) is Some && id_at(u, x, webview) == id_at(u, y, webview) implies x
            == y by {
            assert(id_at(v, x, webview) == id_at(u, x, webview));
            assert(id_at(v, y, webview) == id_at(u, y, webview));
        }
        if c.webview_id == webview {
            assert forall|i: int, j: int| 0 <= i < j < pairs.len() implies (
            #[trigger] pairs[i]).batch_id != (#[trigger] pairs[j]).batch_id by {
                let x = Place::Channel { channel, index: i };
                let y = Place::Channel { channel, index: j };
                assert(id_at(v, x, webview) == Some(pairs[i].batch_id));
                assert(id_at(v, y, webview) == Some(pairs[j].batch_id));
            }
            assert forall|i: int| 0 <= i < pairs.len() implies holds_no_copy(
                u,
                webview,
                (#[trigger] pairs[i]).batch_id,
            ) by {
                let x = Place::Channel { channel, index: i };
                assert(id_at(v, x, webview) == Some(pairs[i].batch_id));
                assert forall|place: Place| #[trigger] id_at(u, place, webview) != Some(
                    pairs[i].batch_id,
                ) by {
                    if id_at(u, place, webview) is Some {
                        assert(id_at(v, place, webview) == id_at(u, place, webview));
                    }
                }
            }
        }
        lemma_adding_all_keeps_one_copy(u, c.webview_id, pairs, webview);
    }
}

proof fn lemma_connecting_keeps_one_copy<S>(
    v: ConnectionsView<S>,
    to: u32,
    generation: u64,
    socket: S,
    webview: u32,
)
    requires
        v.wf(),
        v.next_channel < u64::MAX,
        holds_one_copy(v, webview),
    ensures
        holds_one_copy(v.connecting(to, generation, socket), webview),
{
    let w = v.connecting(to, generation, socket);
    let id = v.next_channel;
    let was = |place: Place|
        match place {
            Place::Channel { channel, index } => if channel == id {
                Place::Pending { webview: to, index }
            } else {
                place
            },
            Place::Pending { .. } => place,
        };
    assert(!v.channels.contains_key(id));
    assert forall|x: Place, y: Place|
        #![trigger id_at(w, x, webview), id_at(w, y, webview)]
        id_at(w, x, webview) is Some && id_at(w, x, webview) == id_at(w, y, webview) implies x
        == y by {
        assert(id_at(v, was(x), webview) == id_at(w, x, webview));
        assert(id_at(v, was(y), webview) == id_at(w, y, webview));
        assert(was(x) == was(y));
    }
}

proof fn lemma_step_keeps_one_copy<S>(v: ConnectionsView<S>, step: Step<S>, webview: u32)
    requires
        v.wf(),
        step.is_enabled(v),
        holds_one_copy(v, webview),
        step matches Step::Send { webview: to, .. } ==> to != webview,
    ensures
        holds_one_copy(step.apply(v), webview),
{
    let w = step.apply(v);
    match step {
        Step::Send { webview: to, pair } => lemma_adding_keeps_one_copy(v, to, pair, webview),
        Step::Connect { webview: to, generation, socket } => lemma_connecting_keeps_one_copy(
            v,
            to,
            generation,
            socket,
            webview,
        ),
        Step::Receive { channel } => {
            assert forall|place: Place| id_at(w, place, webview) == #[trigger] id_at(
                v,
                place,
                webview,
            ) by {
                if w != v {
                    assert(w.channels[channel].backlog() =~= v.channels[channel].backlog());
                }
            }
            assert forall|x: Place, y: Place|
                #![trigger id_at(w, x, webview), id_at(w, y, webview)]
                id_at(w, x, webview) is Some && id_at(w, x, webview) == id_at(
                    w,
                    y,
                    webview,
                ) implies x == y by {
                assert(id_at(v, x, webview) == id_at(v, y, webview));
            }
        },
        Step::Acknowledge { channel } => {
            assert(w.channels[channel].backlog() =~= v.channels[channel].backlog().drop_first());
            let was = |place: Place|
                match place {
                    Place::Channel { channel: id, index } => if id == channel {
                        Place::Channel { channel, index: index + 1 }
                    } else {
                        place
                    },
                    Place::Pending { .. } => place,
                };
            assert forall|x: Place, y: Place|
                #![trigger id_at(w, x, webview), id_at(w, y, webview)]
                id_at(w, x, webview) is Some && id_at(w, x, webview) == id_at(
                    w,
                    y,
                    webview,
                ) implies x == y by {
                assert(id_at(v, was(x), webview) == id_at(w, x, webview));
                assert(id_at(v, was(y), webview) == id_at(w, y, webview));
                assert(was(x) == was(y));
            }
        },
        Step::Close { channel } => lemma_closing_keeps_one_copy(v, channel, webview),
    }
}

/// Sending a batch that the queue does not wait for under this id otherwise keeps queue and
/// connections in step.
proof fn lemma_sending_keeps_in_step<S>(
    from: World<S>,
    to: World<S>,
    index: int,
    batch_id: u64,
    edits: Arc<Vec<u8>>,
)
    requires
        is_in_step(from),
        to.queue.wf(),
        to.queue.webview_id == from.queue.webview_id,
        0 <= index < to.queue.edits_in_progress.len(),
        to.queue.edits_in_progress[index].batch_id == batch_id,
        to.queue.edits_in_progress[index].edits == edits,
        forall|pair: MsgPair| #[trigger]
            holds(from.connections, from.queue.webview_id, pair) ==> pair.batch_id != batch_id
                && is_awaited(to.queue, pair),
        is_sent(
            from.connections,
            to.connections,
            from.queue.webview_id,
            batch_id,
            edits,
            to.queue.edits_in_progress[index].receiver,
        ),
    ensures
        is_in_step(to),
{
    let v = from.connections;
    let webview = from.queue.webview_id;
    let receiver = to.queue.edits_in_progress[index].receiver;
    let response = choose|response: oneshot::Sender<()>| #[trigger]
        connected(response, receiver@) && to.connections == v.adding(
            webview,
            MsgPair { batch_id, edits, response },
        );
    let sent = MsgPair { batch_id, edits, response };
    lemma_adding_keeps_wf(v, webview, sent);
    assert forall|place: Place| #[trigger] id_at(v, place, webview) != Some(batch_id) by {
        if id_at(v, place, webview) is Some {
            lemma_id_at_is_held(v, place, webview);
        }
    }
    lemma_adding_keeps_one_copy(v, webview, sent, webview);
    assert forall|pair: MsgPair| #[trigger] holds(to.connections, webview, pair) implies is_awaited(
        to.queue,
        pair,
    ) by {
        sending_adds_one_batch(v, webview, sent, webview, pair);
        if pair == sent {
            assert(to.queue.edits_in_progress[index].batch_id == pair.batch_id);
        }
    }
}

/// A batch that is held while the queue waits for it under this id is held with the sender
/// of the queue's own receiver.
proof fn lemma_awaited_at<S>(world: World<S>, index: int, pair: MsgPair)
    requires
        is_in_step(world),
        0 <= index < world.queue.edits_in_progress.len(),
        holds(world.connections, world.queue.webview_id, pair),
        pair.batch_id == world.queue.edits_in_progress[index].batch_id,
    ensures
        is_held(world.connections, world.queue.edits_in_progress[index].receiver),
{
    let q = world.queue;
    assert(is_awaited(q, pair));
    let i = choose|i: int|
        {
            &&& 0 <= i < q.edits_in_progress.len()
            &&& (#[trigger] q.edits_in_progress[i]).batch_id == pair.batch_id
            &&& q.edits_in_progress[i].edits == pair.edits
            &&& connected(pair.response, q.edits_in_progress[i].receiver@)
        };
    assert(i == index) by {
        assert(q.edits_in_progress[i].batch_id == q.edits_in_progress[index].batch_id);
    }
    lemma_held_batch_has_a_place(
        world.connections,
        q.webview_id,
        pair,
        q.edits_in_progress[index].receiver,
    );
}

proof fn lemma_poll_keeps_in_step<S>(from: World<S>, to: World<S>, index: int, found: AckPoll)
    requires
        is_in_step(from),
        (Event::Poll { index, found }).leads(from, to),
    ensures
        is_in_step(to),
{
    let q = from.queue;
    let q2 = to.queue;
    let webview = q.webview_id;
    let step = lemma_polled_is_a_step(q, from.connections, index, found, q2, to.connections);
    lemma_step_keeps_wf(q, step);
    let polled = choose|polled: AckReceiver| #[trigger]
        is_poll_of(polled, q.edits_in_progress[index].receiver, found) && is_acted_on(
            q.waiting_on(index, polled),
            from.connections,
            index,
            found,
            q2,
            to.connections,
        );
    // Where something was found, nothing is held under the id of the polled batch.
    assert forall|pair: MsgPair| found != AckPoll::Waiting && #[trigger] holds(
        from.connections,
        webview,
        pair,
    ) implies pair.batch_id != q.edits_in_progress[index].batch_id by {
        if pair.batch_id == q.edits_in_progress[index].batch_id {
            lemma_awaited_at(from, index, pair);
        }
    }
    assert forall|pair: MsgPair| #[trigger] holds(
        from.connections,
        webview,
        pair,
    ) implies is_awaited(q2, pair) by {
        let i = choose|i: int|
            {
                &&& 0 <= i < q.edits_in_progress.len()
                &&& (#[trigger] q.edits_in_progress[i]).batch_id == pair.batch_id
                &&& q.edits_in_progress[i].edits == pair.edits
                &&& connected(pair.response, q.edits_in_progress[i].receiver@)
            };
        let j = if found == AckPoll::Acknowledged && i > index {
            i - 1
        } else {
            i
        };
        assert(q2.edits_in_progress[j].batch_id == pair.batch_id);
        assert(connected(pair.response, q2.edits_in_progress[j].receiver@));
    }
    if found == AckPoll::Canceled {
        let batch = q.edits_in_progress[index];
        lemma_sending_keeps_in_step(from, to, index, batch.batch_id, batch.edits);
    }
}

proof fn lemma_event_keeps_in_step<S>(event: Event<S>, from: World<S>, to: World<S>)
    requires
        is_in_step(from),
        event.leads(from, to),
        event.leaves_sending(from.queue.webview_id),
    ensures
        is_in_step(to),
{
    let q = from.queue;
    let webview = q.webview_id;
    lemma_event_keeps_wf(event, from, to);
    match event {
        Event::Send { edits, receiver, now } => {
            lemma_step_keeps_wf(q, QueueStep::Send { edits, receiver, now });
            assert forall|pair: MsgPair| #[trigger] holds(
                from.connections,
                webview,
                pair,
            ) implies pair.batch_id != q.next_batch_id && is_awaited(to.queue, pair) by {
                let i = choose|i: int|
                    {
                        &&& 0 <= i < q.edits_in_progress.len()
                        &&& (#[trigger] q.edits_in_progress[i]).batch_id == pair.batch_id
                        &&& q.edits_in_progress[i].edits == pair.edits
                        &&& connected(pair.response, q.edits_in_progress[i].receiver@)
                    };
                assert(to.queue.edits_in_progress[i] == q.edits_in_progress[i]);
            }
            lemma_sending_keeps_in_step(
                from,
                to,
                q.edits_in_progress.len() as int,
                q.next_batch_id,
                edits,
            );
        },
        Event::Poll { index, found } => lemma_poll_keeps_in_step(from, to, index, found),
        Event::Check { now } => {
            lemma_same_batches_in_step(from, to);
        },
        Event::Suspend { suspended, now } => {
            lemma_same_batches_in_step(from, to);
        },
        Event::Connections { step } => {
            lemma_step_keeps_one_copy(from.connections, step, webview);
            assert forall|pair: MsgPair| #[trigger] holds(
                to.connections,
                webview,
                pair,
            ) implies is_awaited(to.queue, pair) by {
                let steps = seq![step];
                reveal_with_fuel(run, 2);
                reveal_with_fuel(can_run, 2);
                reveal_with_fuel(run_sends, 2);
                held_batch_was_sent(from.connections, steps, webview, pair);
            }
        },
    }
}

proof fn lemma_same_batches_in_step<S>(from: World<S>, to: World<S>)
    requires
        is_in_step(from),
        to.connections == from.connections,
        to.queue.wf(),
        to.queue.webview_id == from.queue.webview_id,
        to.queue.edits_in_progress == from.queue.edits_in_progress,
    ensures
        is_in_step(to),
{
    assert forall|pair: MsgPair| #[trigger] holds(
        to.connections,
        to.queue.webview_id,
        pair,
    ) implies is_awaited(to.queue, pair) by {
        assert(is_awaited(from.queue, pair));
    }
}

/// Whatever happens, a batch is held for its webview in one copy at most, and only while the
/// queue waits for it, as long as the queue alone sends to the webview: a replay under the
/// same id never adds to a batch that is still held.
pub proof fn batch_is_held_in_one_copy<S>(worlds: Seq<World<S>>, events: Seq<Event<S>>, n: int)
    requires
        is_trace(worlds, events),
        is_in_step(worlds[0]),
        forall|k: int|
            0 <= k < events.len() ==> (#[trigger] events[k]).leaves_sending(
                worlds[0].queue.webview_id,
            ),
        0 <= n < worlds.len(),
    ensures
        is_in_step(worlds[n]),
        worlds[n].queue.webview_id == worlds[0].queue.webview_id,
    decreases n,
{
    if n > 0 {
        batch_is_held_in_one_copy(worlds, events, n - 1);
        let event = events[n - 1];
        assert(event.leads(worlds[n - 1], worlds[n]));
        lemma_event_keeps_wf(event, worlds[n - 1], worlds[n]);
        lemma_event_keeps_in_step(event, worlds[n - 1], worlds[n]);
    }
}

/// A new queue is in step with connections that hold nothing for its webview.
pub proof fn new_queue_is_in_step<S>(v: ConnectionsView<S>, webview: u32)
    requires
        v.wf(),
        forall|pair: MsgPair| !#[trigger] holds(v, webview, pair),
    ensures
        is_in_step(World { queue: QueueView::initial(webview), connections: v }),
{
    assert forall|place: Place| #[trigger] id_at(v, place, webview) is None by {
        if id_at(v, place, webview) is Some {
            lemma_id_at_is_held(v, place, webview);
        }
    }
}

} // verus!
