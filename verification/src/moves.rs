//! Where each operation on the connections leaves the batches, field by field.
use crate::ack::{connected, AckReceiver};
use crate::connections::{channels_view, states_view, ChannelView, ConnectionsView, EditChannel};
use crate::connections::{StateView, WebviewConnectionState};
use crate::delivery::{batch_at, holds, is_held, is_in_channel, Place};
use crate::delivery::{lemma_adding_all_connected, lemma_adding_all_pending};
use crate::message::{exactly_its_id_acknowledges_a_batch, MsgPair, SocketRead};
use vstd::bytes::spec_u64_from_le_bytes;
use vstd::prelude::*;

verus! {

/// A connection comes too late because of its generation alone: it does exactly if something
/// is known of its webview and the generation that is known is not smaller. What waits for
/// the webview, or for another, and how many connections there were, has no part in it.
pub proof fn only_generations_supersede<S>(v: ConnectionsView<S>, webview: u32, generation: u64)
    ensures
        !v.states.contains_key(webview) ==> !v.is_superseded(webview, generation),
        v.states.contains_key(webview) ==> match v.states[webview] {
            StateView::Pending { generation: known, .. } => v.is_superseded(webview, generation)
                <==> generation <= known,
            StateView::Connected { generation: known, .. } => v.is_superseded(webview, generation)
                <==> generation <= known,
        },
{
}

/// Two states of affairs that know the same of a webview turn the same connections of it
/// away.
pub proof fn others_do_not_supersede<S>(
    v: ConnectionsView<S>,
    w: ConnectionsView<S>,
    webview: u32,
    generation: u64,
)
    requires
        v.states.contains_key(webview) == w.states.contains_key(webview),
        v.states.contains_key(webview) ==> v.states[webview] == w.states[webview],
    ensures
        v.is_superseded(webview, generation) == w.is_superseded(webview, generation),
{
    only_generations_supersede(v, webview, generation);
    only_generations_supersede(w, webview, generation);
}

/// A connection that takes over gets a channel that was never numbered before, with all that
/// was pending for its webview and nothing else, in order; no other webview and no other
/// channel is touched.
pub proof fn connecting_takes_what_is_pending<S>(
    v: ConnectionsView<S>,
    webview: u32,
    generation: u64,
    socket: S,
)
    requires
        v.next_channel < u64::MAX,
    ensures
        ({
            let w = v.connecting(webview, generation, socket);
            let channel = v.next_channel;
            &&& w.next_channel == channel + 1
            &&& w.states.contains_key(webview)
            &&& w.states[webview] == (StateView::Connected {
                generation,
                socket,
                edits_outgoing: channel,
            })
            &&& forall|other: u32|
                other != webview ==> (#[trigger] w.states.contains_key(other)
                    == v.states.contains_key(other)) && w.states[other] == v.states[other]
            &&& w.channels.contains_key(channel)
            &&& w.channels[channel].webview_id == webview
            &&& w.channels[channel].queued_message is None
            &&& w.channels[channel].incoming == (if v.states.contains_key(webview) {
                match v.states[webview] {
                    StateView::Pending { pending, .. } => pending,
                    StateView::Connected { .. } => Seq::empty(),
                }
            } else {
                Seq::empty()
            })
            &&& forall|other: u64|
                other != channel ==> (#[trigger] w.channels.contains_key(other)
                    == v.channels.contains_key(other)) && w.channels[other] == v.channels[other]
        }),
{
}

/// A batch that is added for a webview goes last into the open channel that the webview's
/// connection reads, and else last among what is pending for the webview; no other webview
/// and no other channel is touched.
pub proof fn added_batch_goes_last<S>(v: ConnectionsView<S>, webview: u32, pair: MsgPair)
    ensures
        ({
            let w = v.adding(webview, pair);
            let known = v.states.contains_key(webview);
            &&& w.next_channel == v.next_channel
            &&& w.states.contains_key(webview)
            &&& forall|other: u32|
                other != webview ==> (#[trigger] w.states.contains_key(other)
                    == v.states.contains_key(other)) && w.states[other] == v.states[other]
            &&& if known && v.states[webview] is Connected && v.channels.contains_key(
                v.states[webview]->edits_outgoing,
            ) {
                let channel = v.states[webview]->edits_outgoing;
                &&& w.states[webview] == v.states[webview]
                &&& w.channels.contains_key(channel)
                &&& w.channels[channel].incoming == v.channels[channel].incoming.push(pair)
                &&& w.channels[channel].queued_message == v.channels[channel].queued_message
                &&& w.channels[channel].webview_id == v.channels[channel].webview_id
                &&& forall|other: u64|
                    other != channel ==> (#[trigger] w.channels.contains_key(other)
                        == v.channels.contains_key(other)) && w.channels[other]
                        == v.channels[other]
            } else {
                &&& w.channels == v.channels
                &&& w.states[webview] == (StateView::<S>::Pending {
                    generation: if known {
                        match v.states[webview] {
                            StateView::Pending { generation, .. } => generation,
                            StateView::Connected { generation, .. } => generation,
                        }
                    } else {
                        0
                    },
                    pending: if known && v.states[webview] is Pending {
                        v.states[webview]->pending.push(pair)
                    } else {
                        seq![pair]
                    },
                })
            }
        }),
{
    if v.states.contains_key(webview) && v.states[webview] is Connected {
        assert(v.states.insert(webview, v.states[webview]) =~= v.states);
    }
}

/// The worker of a channel takes the batch that is first in line, once none is on its way
/// any more; what is behind it stays in order, and no other channel is touched.
pub proof fn next_batch_is_the_first_in_line<S>(v: ConnectionsView<S>, channel: u64)
    ensures
        ({
            let w = v.receiving(channel);
            let takes = v.channels.contains_key(channel)
                && v.channels[channel].queued_message is None
                && v.channels[channel].incoming.len() > 0;
            &&& !takes ==> w == v
            &&& w.states == v.states
            &&& w.next_channel == v.next_channel
            &&& takes ==> {
                &&& w.channels.contains_key(channel)
                &&& w.channels[channel].queued_message == Some(v.channels[channel].incoming[0])
                &&& seq![v.channels[channel].incoming[0]] + w.channels[channel].incoming
                    == v.channels[channel].incoming
                &&& w.channels[channel].webview_id == v.channels[channel].webview_id
            }
            &&& forall|other: u64|
                other != channel ==> (#[trigger] w.channels.contains_key(other)
                    == v.channels.contains_key(other)) && w.channels[other] == v.channels[other]
        }),
{
    if v.channels.contains_key(channel) && v.channels[channel].incoming.len() > 0 {
        let incoming = v.channels[channel].incoming;
        assert(seq![incoming[0]] + incoming.drop_first() =~= incoming);
    }
}

/// An acknowledgment ends the wait for the batch that is on its way and touches nothing else.
pub proof fn acknowledgment_ends_one_wait<S>(v: ConnectionsView<S>, channel: u64)
    requires
        v.channels.contains_key(channel),
    ensures
        ({
            let w = v.acknowledging(channel);
            &&& w.states == v.states
            &&& w.next_channel == v.next_channel
            &&& w.channels.contains_key(channel)
            &&& w.channels[channel].queued_message is None
            &&& w.channels[channel].incoming == v.channels[channel].incoming
            &&& w.channels[channel].webview_id == v.channels[channel].webview_id
            &&& forall|other: u64|
                other != channel ==> (#[trigger] w.channels.contains_key(other)
                    == v.channels.contains_key(other)) && w.channels[other] == v.channels[other]
        }),
{
}

/// What a channel holds when it is closed, with the batch that was on its way first, goes
/// behind what waits for its webview: into the channel of the connection that has taken over,
/// or among what is pending. No other webview and no other channel is touched, and the
/// generation that is known of the webview stays.
pub proof fn closed_channel_hands_everything_on<S>(v: ConnectionsView<S>, channel: u64)
    ensures
        v.closing(channel).next_channel == v.next_channel,
        !v.channels.contains_key(channel) ==> v.closing(channel) == v,
        v.channels.contains_key(channel) ==> ({
            let w = v.closing(channel);
            let webview = v.channels[channel].webview_id;
            let known = v.states.contains_key(webview);
            let left = match v.channels[channel].queued_message {
                Some(pair) => seq![pair] + v.channels[channel].incoming,
                None => v.channels[channel].incoming,
            };
            &&& !w.channels.contains_key(channel)
            &&& forall|other: u32|
                other != webview ==> (#[trigger] w.states.contains_key(other)
                    == v.states.contains_key(other)) && w.states[other] == v.states[other]
            &&& if known && v.states[webview] is Connected && v.states[webview]->edits_outgoing
                != channel && v.channels.contains_key(v.states[webview]->edits_outgoing) {
                let next = v.states[webview]->edits_outgoing;
                &&& w.states.contains_key(webview)
                &&& w.states[webview] == v.states[webview]
                &&& w.channels.contains_key(next)
                &&& w.channels[next].incoming == v.channels[next].incoming + left
                &&& w.channels[next].queued_message == v.channels[next].queued_message
                &&& w.channels[next].webview_id == v.channels[next].webview_id
                &&& forall|other: u64|
                    other != channel && other != next ==> (#[trigger] w.channels.contains_key(other)
                        == v.channels.contains_key(other)) && w.channels[other]
                        == v.channels[other]
            } else {
                &&& forall|other: u64|
                    other != channel ==> (#[trigger] w.channels.contains_key(other)
                        == v.channels.contains_key(other)) && w.channels[other]
                        == v.channels[other]
                &&& left.len() == 0 ==> w.states == v.states
                &&& left.len() > 0 ==> w.states.contains_key(webview) && w.states[webview] == (
                StateView::<S>::Pending {
                    generation: if known {
                        match v.states[webview] {
                            StateView::Pending { generation, .. } => generation,
                            StateView::Connected { generation, .. } => generation,
                        }
                    } else {
                        0
                    },
                    pending: if known && v.states[webview] is Pending {
                        v.states[webview]->pending + left
                    } else {
                        left
                    },
                })
            }
        }),
{
    if v.channels.contains_key(channel) {
        let c = v.channels[channel];
        let webview = c.webview_id;
        let left = c.backlog();
        let u = ConnectionsView { channels: v.channels.remove(channel), ..v };
        let known = v.states.contains_key(webview);
        if left.len() > 0 {
            if known && v.states[webview] is Connected && u.channels.contains_key(
                v.states[webview]->edits_outgoing,
            ) {
                lemma_adding_all_connected(u, webview, left);
            } else if known && v.states[webview] is Pending {
                lemma_adding_all_pending(
                    u,
                    webview,
                    left,
                    v.states[webview]->Pending_generation,
                    v.states[webview]->pending,
                );
            } else {
                let w = u.adding(webview, left.first());
                added_batch_goes_last(u, webview, left.first());
                let generation = w.states[webview]->Pending_generation;
                let first = w.states[webview]->pending;
                assert(first =~= seq![left.first()]);
                lemma_adding_all_pending(w, webview, left.drop_first(), generation, first);
                assert(first + left.drop_first() =~= left);
            }
        } else {
            assert(u.adding_all(webview, left) == u);
            if known && v.states[webview] is Connected {
                let next = v.states[webview]->edits_outgoing;
                assert(v.channels[next].incoming + left =~= v.channels[next].incoming);
            }
        }
    }
}

/// What is said of a webview and of a channel at any moment.
pub proof fn questions_are_answered_by_the_fields<S>(
    v: ConnectionsView<S>,
    webview: u32,
    channel: u64,
    read: SocketRead,
)
    ensures
        v.is_pending(webview) <==> !(v.states.contains_key(webview)
            && v.states[webview] is Connected),
        v.has_queued(channel) <==> v.channels.contains_key(channel)
            && v.channels[channel].queued_message is Some,
        v.sends_into(webview, channel) <==> v.states.contains_key(webview)
            && v.states[webview] is Connected && v.states[webview]->edits_outgoing == channel,
        v.has_sender(channel) <==> v.channels.contains_key(channel) && v.states.contains_key(
            v.channels[channel].webview_id,
        ) && v.states[v.channels[channel].webview_id] is Connected
            && v.states[v.channels[channel].webview_id]->edits_outgoing == channel,
        v.state_of(webview) == (if v.states.contains_key(webview) {
            v.states[webview]
        } else {
            StateView::Pending { generation: 0, pending: Seq::empty() }
        }),
        v.is_acknowledged(channel, read) <==> v.channels.contains_key(channel)
            && v.channels[channel].queued_message is Some && (
        read matches SocketRead::Binary(bytes) && bytes@.len() == 8 && spec_u64_from_le_bytes(
            bytes@,
        ) == v.channels[channel].queued_message->0.batch_id),
{
    if v.has_queued(channel) {
        exactly_its_id_acknowledges_a_batch(
            v.channels[channel].queued_message->0.batch_id,
            read,
        );
    }
}

/// The numbers of open channels were all given out, and the channel that a webview's
/// connection reads serves that webview: this is all that `wf` asks.
pub proof fn well_formed_connections<S>(v: ConnectionsView<S>)
    ensures
        v.wf() <==> {
            &&& forall|id: u64| #[trigger] v.channels.contains_key(id) ==> id < v.next_channel
            &&& forall|webview: u32|
                (#[trigger] v.states.contains_key(webview)) && v.states[webview] is Connected ==> {
                    let id = v.states[webview]->edits_outgoing;
                    id < v.next_channel && (v.channels.contains_key(id)
                        ==> v.channels[id].webview_id == webview)
                }
        },
{
    if v.wf() {
        assert forall|webview: u32| (#[trigger] v.states.contains_key(webview))
            && v.states[webview] is Connected implies ({
            let id = v.states[webview]->edits_outgoing;
            id < v.next_channel && (v.channels.contains_key(id) ==> v.channels[id].webview_id
                == webview)
        }) by {
            assert(v.sends_into(webview, v.states[webview]->edits_outgoing));
        }
    }
}

/// A batch is held for a webview if it is pending for it, or on its way or in line in one of
/// its open channels.
pub proof fn held_batches_are_in_the_fields<S>(v: ConnectionsView<S>, webview: u32, pair: MsgPair)
    ensures
        holds(v, webview, pair) <==> {
            ||| v.states.contains_key(webview) && v.states[webview] is Pending
                && v.states[webview]->pending.contains(pair)
            ||| exists|id: u64|
                (#[trigger] v.channels.contains_key(id)) && v.channels[id].webview_id == webview
                    && (v.channels[id].queued_message == Some(pair)
                    || v.channels[id].incoming.contains(pair))
        },
{
    assert forall|id: u64| is_in_channel(v, webview, id, pair) <==> (
    #[trigger] v.channels.contains_key(id)) && v.channels[id].webview_id == webview && (
    v.channels[id].queued_message == Some(pair) || v.channels[id].incoming.contains(pair)) by {
        lemma_backlog_parts(v.channels[id], pair);
    }
    if exists|id: u64| is_in_channel(v, webview, id, pair) {
        let id = choose|id: u64| is_in_channel(v, webview, id, pair);
        assert(v.channels.contains_key(id));
    }
    if exists|id: u64|
        (#[trigger] v.channels.contains_key(id)) && v.channels[id].webview_id == webview && (
        v.channels[id].queued_message == Some(pair) || v.channels[id].incoming.contains(pair)) {
        let id = choose|id: u64|
            (#[trigger] v.channels.contains_key(id)) && v.channels[id].webview_id == webview && (
            v.channels[id].queued_message == Some(pair) || v.channels[id].incoming.contains(pair));
        assert(is_in_channel(v, webview, id, pair));
    }
}

proof fn lemma_backlog_parts(c: ChannelView, pair: MsgPair)
    ensures
        c.backlog().contains(pair) <==> c.queued_message == Some(pair) || c.incoming.contains(pair),
{
    if let Some(first) = c.queued_message {
        assert(c.backlog()[0] == first);
        if c.incoming.contains(pair) {
            assert(c.backlog()[c.incoming.index_of(pair) + 1] == pair);
        }
        if c.backlog().contains(pair) && first != pair {
            assert(c.incoming[c.backlog().index_of(pair) - 1] == pair);
        }
    }
}

/// The sender of a receiver is held exactly if it belongs to a batch that is held for some
/// webview.
pub proof fn held_senders_are_in_the_fields<S>(v: ConnectionsView<S>, receiver: AckReceiver)
    ensures
        is_held(v, receiver) <==> {
            ||| exists|webview: u32, i: int|
                {
                    &&& v.states.contains_key(webview)
                    &&& v.states[webview] is Pending
                    &&& 0 <= i < v.states[webview]->pending.len()
                    &&& connected(
                        (#[trigger] v.states[webview]->pending[i]).response,
                        receiver@,
                    )
                }
            ||| exists|id: u64|
                {
                    &&& #[trigger] v.channels.contains_key(id)
                    &&& v.channels[id].queued_message is Some
                    &&& connected(v.channels[id].queued_message->0.response, receiver@)
                }
            ||| exists|id: u64, i: int|
                {
                    &&& v.channels.contains_key(id)
                    &&& 0 <= i < v.channels[id].incoming.len()
                    &&& connected((#[trigger] v.channels[id].incoming[i]).response, receiver@)
                }
        },
{
    if is_held(v, receiver) {
        let place = choose|place: Place|
            (#[trigger] batch_at(v, place)) is Some && connected(
                batch_at(v, place)->0.response,
                receiver@,
            );
        match place {
            Place::Pending { webview, index } => {
                assert(connected(v.states[webview]->pending[index].response, receiver@));
            },
            Place::Channel { channel, index } => {
                let c = v.channels[channel];
                if c.queued_message is Some && index > 0 {
                    assert(connected(c.incoming[index - 1].response, receiver@));
                } else if c.queued_message is None {
                    assert(connected(c.incoming[index].response, receiver@));
                }
            },
        }
    }
    if exists|webview: u32, i: int|
        {
            &&& v.states.contains_key(webview)
            &&& v.states[webview] is Pending
            &&& 0 <= i < v.states[webview]->pending.len()
            &&& connected((#[trigger] v.states[webview]->pending[i]).response, receiver@)
        } {
        let (webview, index) = choose|webview: u32, i: int|
            {
                &&& v.states.contains_key(webview)
                &&& v.states[webview] is Pending
                &&& 0 <= i < v.states[webview]->pending.len()
                &&& connected((#[trigger] v.states[webview]->pending[i]).response, receiver@)
            };
        assert(batch_at(v, Place::Pending { webview, index }) is Some);
    }
    if exists|id: u64|
        {
            &&& #[trigger] v.channels.contains_key(id)
            &&& v.channels[id].queued_message is Some
            &&& connected(v.channels[id].queued_message->0.response, receiver@)
        } {
        let channel = choose|id: u64|
            {
                &&& #[trigger] v.channels.contains_key(id)
                &&& v.channels[id].queued_message is Some
                &&& connected(v.channels[id].queued_message->0.response, receiver@)
            };
        assert(batch_at(v, Place::Channel { channel, index: 0 }) is Some);
    }
    if exists|id: u64, i: int|
        {
            &&& v.channels.contains_key(id)
            &&& 0 <= i < v.channels[id].incoming.len()
            &&& connected((#[trigger] v.channels[id].incoming[i]).response, receiver@)
        } {
        let (channel, i) = choose|id: u64, i: int|
            {
                &&& v.channels.contains_key(id)
                &&& 0 <= i < v.channels[id].incoming.len()
                &&& connected((#[trigger] v.channels[id].incoming[i]).response, receiver@)
            };
        let c = v.channels[channel];
        let index = if c.queued_message is Some {
            i + 1
        } else {
            i
        };
        assert(c.backlog()[index] == c.incoming[i]);
        assert(batch_at(v, Place::Channel { channel, index }) is Some);
    }
}

/// What is seen of a webview's state is all of it.
pub proof fn state_is_seen_whole<S>(state: WebviewConnectionState<S>)
    ensures
        match state {
            WebviewConnectionState::Pending { generation, pending } => state@
                == (StateView::<S>::Pending { generation, pending: pending@ }),
            WebviewConnectionState::Connected { generation, socket, edits_outgoing } => state@ == (
            StateView::Connected { generation, socket, edits_outgoing }),
        },
        state@.generation() == (match state {
            WebviewConnectionState::Pending { generation, .. } => generation,
            WebviewConnectionState::Connected { generation, .. } => generation,
        }),
{
}

/// A batch that is added to a webview's state goes last into the open channel that its
/// connection reads, and else last among what is pending.
pub proof fn state_passes_the_batch_on<S>(
    state: StateView<S>,
    channels: Map<u64, ChannelView>,
    pair: MsgPair,
)
    ensures
        match state {
            StateView::Pending { generation, pending } => {
                &&& state.adding(channels, pair) == (StateView::<S>::Pending {
                    generation,
                    pending: pending.push(pair),
                })
                &&& state.forwarding(channels, pair) == channels
            },
            StateView::Connected { generation, edits_outgoing, .. } => if channels.contains_key(
                edits_outgoing,
            ) {
                let after = state.forwarding(channels, pair);
                &&& state.adding(channels, pair) == state
                &&& after.dom() == channels.dom()
                &&& after[edits_outgoing].incoming == channels[edits_outgoing].incoming.push(pair)
                &&& after[edits_outgoing].queued_message == channels[edits_outgoing].queued_message
                &&& after[edits_outgoing].webview_id == channels[edits_outgoing].webview_id
                &&& forall|other: u64|
                    other != edits_outgoing ==> #[trigger] after[other] == channels[other]
            } else {
                &&& state.adding(channels, pair) == (StateView::<S>::Pending {
                    generation,
                    pending: seq![pair],
                })
                &&& state.forwarding(channels, pair) == channels
            },
        },
{
    if let StateView::Connected { edits_outgoing, .. } = state {
        if channels.contains_key(edits_outgoing) {
            assert(state.forwarding(channels, pair).dom() =~= channels.dom());
        }
    }
}

/// Of each channel and of each state, the view of a map shows its own.
pub proof fn maps_are_seen_whole<S>(
    channels: Map<u64, EditChannel>,
    states: Map<u32, WebviewConnectionState<S>>,
    id: u64,
    webview: u32,
)
    ensures
        channels_view(channels).contains_key(id) == channels.contains_key(id),
        channels.contains_key(id) ==> channels_view(channels)[id] == channels[id]@,
        states_view(states).contains_key(webview) == states.contains_key(webview),
        states.contains_key(webview) ==> states_view(states)[webview] == states[webview]@,
{
}

} // verus!
