//! The connections of all webviews: what waits for each of them, and how a batch moves
//! from the renderer through a connection's channel until it is acknowledged.
use crate::ack::{ack_channel, connected, AckPoll, AckReceiver};
use crate::message::{judge_read, verdict, AckVerdict, IoFailure, MsgPair, SocketRead};
use futures_channel::oneshot;
use std::collections::{HashMap, VecDeque};
use std::sync::Arc;
use vstd::bytes::spec_u64_from_le_bytes;
use vstd::prelude::*;

verus! {

broadcast use vstd::std_specs::hash::group_hash_axioms;

/// The state of a webview websocket connection. This may be pending while the webview is booting.
/// If it is, we queue up edits until the webview is ready to receive them.
pub enum WebviewConnectionState<S> {
    /// No connection takes the edits; they wait here.
    Pending {
        /// The generation of the last connection.
        generation: u64,
        /// The edits, oldest first.
        pending: VecDeque<MsgPair>,
    },
    /// A connection takes the edits.
    Connected {
        /// The generation of the connection.
        generation: u64,
        /// What shuts the connection's socket down.
        socket: S,
        /// The channel to the connection's worker.
        edits_outgoing: u64,
    },
}

/// The receiving end of the channel to one connection's worker.
pub struct EditChannel {
    webview_id: u32,
    queued_message: Option<MsgPair>,
    incoming: VecDeque<MsgPair>,
}

/// What a [`WebviewConnectionState`] holds.
pub enum StateView<S> {
    Pending { generation: u64, pending: Seq<MsgPair> },
    Connected { generation: u64, socket: S, edits_outgoing: u64 },
}

/// What an [`EditChannel`] holds: the webview it serves, the batch that was sent and waits
/// for its acknowledgment, and the batches behind it.
pub struct ChannelView {
    pub webview_id: u32,
    pub queued_message: Option<MsgPair>,
    pub incoming: Seq<MsgPair>,
}

impl<S> StateView<S> {
    /// The generation of the last connection.
    pub open spec fn generation(self) -> u64 {
        match self {
            StateView::Pending { generation, .. } => generation,
            StateView::Connected { generation, .. } => generation,
        }
    }

    /// The state of a webview that nothing is known of.
    pub open spec fn initial() -> StateView<S> {
        StateView::Pending { generation: 0, pending: Seq::empty() }
    }
}

impl<S> View for WebviewConnectionState<S> {
    type V = StateView<S>;

    open spec fn view(&self) -> StateView<S> {
        match *self {
            WebviewConnectionState::Pending { generation, pending } => StateView::Pending {
                generation,
                pending: pending@,
            },
            WebviewConnectionState::Connected { generation, socket, edits_outgoing } =>
                StateView::Connected { generation, socket, edits_outgoing },
        }
    }
}

impl View for EditChannel {
    type V = ChannelView;

    closed spec fn view(&self) -> ChannelView {
        ChannelView {
            webview_id: self.webview_id,
            queued_message: self.queued_message,
            incoming: self.incoming@,
        }
    }
}

/// The channels of a map, each by what it holds.
pub open spec fn channels_view(channels: Map<u64, EditChannel>) -> Map<u64, ChannelView> {
    channels.map_values(|channel: EditChannel| channel@)
}

/// The states of a map, each by what it holds.
pub open spec fn states_view<S>(states: Map<u32, WebviewConnectionState<S>>) -> Map<
    u32,
    StateView<S>,
> {
    states.map_values(|state: WebviewConnectionState<S>| state@)
}

/// The channels after `pair` was put behind what channel `id` holds.
pub open spec fn pushed(channels: Map<u64, ChannelView>, id: u64, pair: MsgPair) -> Map<
    u64,
    ChannelView,
> {
    channels.insert(
        id,
        ChannelView { incoming: channels[id].incoming.push(pair), ..channels[id] },
    )
}

impl<S> StateView<S> {
    /// The state after `pair` was added: a pending state queues it; a connected one keeps
    /// its form while its channel is open, and else waits for the next connection with
    /// the pair alone.
    pub open spec fn adding(self, channels: Map<u64, ChannelView>, pair: MsgPair) -> StateView<S> {
        match self {
            StateView::Pending { generation, pending } => StateView::Pending {
                generation,
                pending: pending.push(pair),
            },
            StateView::Connected { generation, edits_outgoing, .. } => if channels.contains_key(
                edits_outgoing,
            ) {
                self
            } else {
                StateView::Pending { generation, pending: seq![pair] }
            },
        }
    }

    /// The channels after `pair` was added to this state.
    pub open spec fn forwarding(self, channels: Map<u64, ChannelView>, pair: MsgPair) -> Map<
        u64,
        ChannelView,
    > {
        match self {
            StateView::Connected { edits_outgoing, .. } if channels.contains_key(edits_outgoing) =>
                pushed(channels, edits_outgoing, pair),
            _ => channels,
        }
    }
}

impl<S> Default for WebviewConnectionState<S> {
    fn default() -> (state: Self)
        ensures
            state@ == StateView::<S>::initial(),
            state matches WebviewConnectionState::Pending { generation, pending } && generation == 0
                && pending@.len() == 0,
    {
        WebviewConnectionState::Pending { generation: 0, pending: VecDeque::new() }
    }
}

impl<S> WebviewConnectionState<S> {
    /// The generation of the last connection.
    pub fn generation(&self) -> (generation: u64)
        ensures
            generation == self@.generation(),
            generation == (match *self {
                WebviewConnectionState::Pending { generation, .. } => generation,
                WebviewConnectionState::Connected { generation, .. } => generation,
            }),
    {
        match self {
            WebviewConnectionState::Pending { generation, .. } => *generation,
            WebviewConnectionState::Connected { generation, .. } => *generation,
        }
    }

    /// Add a message to the active connection or queue and return a receiver that will be resolved
    /// when the webview has applied the edits.
    pub fn add_message(
        &mut self,
        channels: &mut HashMap<u64, EditChannel>,
        batch_id: u64,
        edits: Arc<Vec<u8>>,
    ) -> (receiver: AckReceiver)
        ensures
            receiver.is_fresh(),
            receiver.polls() == Seq::<AckPoll>::empty(),
            exists|response: oneshot::Sender<()>| #[trigger]
                connected(response, receiver@) && {
                    let pair = MsgPair { batch_id, edits, response };
                    &&& final(self)@ == old(self)@.adding(channels_view(old(channels)@), pair)
                    &&& channels_view(final(channels)@) == old(self)@.forwarding(
                        channels_view(old(channels)@),
                        pair,
                    )
                },
    {
        let (response, receiver) = ack_channel();
        self.add_message_pair(channels, MsgPair { batch_id, edits, response });
        receiver
    }

    /// Add a message pair to the connection state. The receiver in the message pair will be resolved
    /// when the webview has applied the edits.
    pub fn add_message_pair(&mut self, channels: &mut HashMap<u64, EditChannel>, pair: MsgPair)
        ensures
            final(self)@ == old(self)@.adding(channels_view(old(channels)@), pair),
            channels_view(final(channels)@) == old(self)@.forwarding(
                channels_view(old(channels)@),
                pair,
            ),
    {
        let ghost before = channels_view(channels@);
        match self {
            WebviewConnectionState::Pending { pending, .. } => {
                pending.push_back(pair);
            },
            WebviewConnectionState::Connected { generation, edits_outgoing, .. } => {
                let generation = *generation;
                let id = *edits_outgoing;
                match channels.remove(&id) {
                    Some(mut channel) => {
                        channel.incoming.push_back(pair);
                        channels.insert(id, channel);
                        assert(channels_view(channels@) =~= pushed(before, id, pair));
                    },
                    None => {
                        // The worker has gone: keep the message for the next connection
                        // instead of losing it.
                        assert(channels_view(channels@) =~= before);
                        let mut pending: VecDeque<MsgPair> = VecDeque::new();
                        pending.push_back(pair);
                        assert(pending@ =~= seq![pair]);
                        *self = WebviewConnectionState::Pending { generation, pending };
                    },
                }
            },
        }
    }
}

/// What the connections of all webviews hold: each webview's state, the open channels, and
/// the number of the next one.
#[verifier::ext_equal]
pub struct ConnectionsView<S> {
    pub states: Map<u32, StateView<S>>,
    pub channels: Map<u64, ChannelView>,
    pub next_channel: u64,
}

impl ChannelView {
    /// What a channel holds, in the order in which it came in.
    pub open spec fn backlog(self) -> Seq<MsgPair> {
        match self.queued_message {
            Some(pair) => seq![pair] + self.incoming,
            None => self.incoming,
        }
    }
}

impl<S> ConnectionsView<S> {
    /// Whether the numbers of channels are used once each, and a channel serves the webview
    /// whose state sends into it.
    pub open spec fn wf(self) -> bool {
        &&& forall|id: u64| #[trigger] self.channels.contains_key(id) ==> id < self.next_channel
        &&& forall|webview: u32, id: u64|
            #[trigger] self.sends_into(webview, id) ==> id < self.next_channel && (
            self.channels.contains_key(id) ==> self.channels[id].webview_id == webview)
    }

    /// Whether a webview's state sends into channel `id`.
    pub open spec fn sends_into(self, webview: u32, id: u64) -> bool {
        &&& self.states.contains_key(webview)
        &&& self.states[webview] is Connected
        &&& self.states[webview]->edits_outgoing == id
    }

    /// A webview's state, or the initial one where nothing is known of it.
    pub open spec fn state_of(self, webview: u32) -> StateView<S> {
        if self.states.contains_key(webview) {
            self.states[webview]
        } else {
            StateView::initial()
        }
    }

    /// After `pair` was added for `webview`.
    pub open spec fn adding(self, webview: u32, pair: MsgPair) -> ConnectionsView<S> {
        let state = self.state_of(webview);
        ConnectionsView {
            states: self.states.insert(webview, state.adding(self.channels, pair)),
            channels: state.forwarding(self.channels, pair),
            next_channel: self.next_channel,
        }
    }

    /// After `pairs` were added for `webview`, one after the other.
    pub open spec fn adding_all(self, webview: u32, pairs: Seq<MsgPair>) -> ConnectionsView<S>
        decreases pairs.len(),
    {
        if pairs.len() == 0 {
            self
        } else {
            self.adding(webview, pairs.first()).adding_all(webview, pairs.drop_first())
        }
    }

    /// Whether a webview's edits wait for a connection. Those of a webview that nothing is
    /// known of would.
    pub open spec fn is_pending(self, webview: u32) -> bool {
        self.state_of(webview) is Pending
    }

    /// Whether a connection of this generation comes too late.
    pub open spec fn is_superseded(self, webview: u32, generation: u64) -> bool {
        self.states.contains_key(webview) && self.states[webview].generation() >= generation
    }

    /// After a connection took over: it gets a channel of its own, with what was pending.
    pub open spec fn connecting(self, webview: u32, generation: u64, socket: S) -> ConnectionsView<
        S,
    > {
        let id = self.next_channel;
        ConnectionsView {
            states: self.states.insert(
                webview,
                StateView::Connected { generation, socket, edits_outgoing: id },
            ),
            channels: self.channels.insert(
                id,
                ChannelView {
                    webview_id: webview,
                    queued_message: None,
                    incoming: match self.state_of(webview) {
                        StateView::Pending { pending, .. } => pending,
                        StateView::Connected { .. } => Seq::empty(),
                    },
                },
            ),
            next_channel: (id + 1) as u64,
        }
    }

    /// After the worker of channel `id` took its next batch, where none is on its way yet.
    pub open spec fn receiving(self, id: u64) -> ConnectionsView<S> {
        if self.channels.contains_key(id) && self.channels[id].queued_message is None
            && self.channels[id].incoming.len() > 0 {
            let channel = self.channels[id];
            ConnectionsView {
                channels: self.channels.insert(
                    id,
                    ChannelView {
                        queued_message: Some(channel.incoming.first()),
                        incoming: channel.incoming.drop_first(),
                        ..channel
                    },
                ),
                ..self
            }
        } else {
            self
        }
    }

    /// Whether channel `id` is open and has a batch on its way.
    pub open spec fn has_queued(self, id: u64) -> bool {
        self.channels.contains_key(id) && self.channels[id].queued_message is Some
    }

    /// Whether channel `id` is open and its webview's state still sends into it.
    pub open spec fn has_sender(self, id: u64) -> bool {
        self.channels.contains_key(id) && self.sends_into(self.channels[id].webview_id, id)
    }

    /// Whether the batch that channel `id` has on its way is acknowledged by `read`.
    pub open spec fn is_acknowledged(self, id: u64, read: SocketRead) -> bool {
        &&& self.has_queued(id)
        &&& verdict(self.channels[id].queued_message->0.batch_id, read) == AckVerdict::Acknowledged
    }

    /// After the batch that channel `id` has on its way was acknowledged.
    pub open spec fn acknowledging(self, id: u64) -> ConnectionsView<S> {
        ConnectionsView {
            channels: self.channels.insert(
                id,
                ChannelView { queued_message: None, ..self.channels[id] },
            ),
            ..self
        }
    }

    /// After channel `id` was closed: what it held is added anew for its webview, in order,
    /// with what was on its way first.
    pub open spec fn closing(self, id: u64) -> ConnectionsView<S> {
        if self.channels.contains_key(id) {
            let channel = self.channels[id];
            ConnectionsView { channels: self.channels.remove(id), ..self }.adding_all(
                channel.webview_id,
                channel.backlog(),
            )
        } else {
            self
        }
    }
}

/// The connections of all webviews. `S` is what shuts a connection's socket down.
pub struct Connections<S> {
    states: HashMap<u32, WebviewConnectionState<S>>,
    channels: HashMap<u64, EditChannel>,
    next_channel: u64,
}

/// What came of a connection that finished its handshake.
pub enum ConnectOutcome<S> {
    /// A connection of the same or a later generation is there already.
    Superseded,
    /// The connection takes the webview's edits from now on.
    Connected {
        /// The channel that its worker reads.
        channel: u64,
        /// The socket of the connection that it replaces, to be shut down.
        replaced: Option<S>,
    },
}

/// What a connection's worker does next.
pub enum NextFrame {
    /// Send this frame and wait for its acknowledgment.
    Send(Vec<u8>),
    /// Nothing is there to send yet.
    Wait,
    /// Nothing will ever come: another connection has taken over.
    Disconnected,
}

/// What a connection's worker does after a read.
pub enum AfterRead {
    /// Tell the sender of this batch, and go on with the next one.
    Acknowledged(MsgPair),
    /// Read again.
    KeepWaiting,
    /// Give the connection up.
    Lost,
}

impl<S> View for Connections<S> {
    type V = ConnectionsView<S>;

    closed spec fn view(&self) -> ConnectionsView<S> {
        ConnectionsView {
            states: states_view(self.states@),
            channels: channels_view(self.channels@),
            next_channel: self.next_channel,
        }
    }
}

impl<S> Connections<S> {
    /// No webview is known yet.
    pub fn new() -> (connections: Self)
        ensures
            connections@ == (ConnectionsView::<S> {
                states: Map::empty(),
                channels: Map::empty(),
                next_channel: 0,
            }),
            connections@.wf(),
    {
        let connections = Connections {
            states: HashMap::new(),
            channels: HashMap::new(),
            next_channel: 0,
        };
        assert(connections@ =~= ConnectionsView::<S> {
            states: Map::empty(),
            channels: Map::empty(),
            next_channel: 0,
        });
        connections
    }

    /// The state of a webview, if anything is known of it.
    pub fn state_of(&self, webview: u32) -> (state: Option<&WebviewConnectionState<S>>)
        ensures
            match state {
                Some(state) => self@.states.contains_key(webview) && state@
                    == self@.states[webview],
                None => !self@.states.contains_key(webview),
            },
    {
        self.states.get(&webview)
    }

    /// Check if the connection for a given webview is in the Pending state
    /// (i.e. the handler thread exited and no live WebSocket connection exists).
    pub fn is_pending(&self, webview: u32) -> (pending: bool)
        ensures
            pending == self@.is_pending(webview),
            pending == !(self@.states.contains_key(webview)
                && self@.states[webview] is Connected),
    {
        match self.states.get(&webview) {
            Some(WebviewConnectionState::Connected { .. }) => false,
            Some(WebviewConnectionState::Pending { .. }) => true,
            None => true,
        }
    }

    /// Adds a message pair for a webview.
    pub fn add_message_pair(&mut self, webview: u32, pair: MsgPair)
        requires
            old(self)@.wf(),
        ensures
            final(self)@ == old(self)@.adding(webview, pair),
            final(self)@.wf(),
    {
        let ghost before = self@;
        let mut state = match self.states.remove(&webview) {
            Some(state) => state,
            None => WebviewConnectionState::default(),
        };
        state.add_message_pair(&mut self.channels, pair);
        self.states.insert(webview, state);
        assert(self@ =~= before.adding(webview, pair));
        proof {
            lemma_adding_keeps_wf(before, webview, pair);
        }
    }

    /// Sends a batch of edits to a webview, now or with its next connection, and returns a
    /// receiver that will be resolved when the webview has applied the edits.
    pub fn send_edits(&mut self, webview: u32, batch_id: u64, edits: Arc<Vec<u8>>) -> (receiver:
        AckReceiver)
        requires
            old(self)@.wf(),
        ensures
            receiver.is_fresh(),
            receiver.polls() == Seq::<AckPoll>::empty(),
            exists|response: oneshot::Sender<()>| #[trigger]
                connected(response, receiver@) && final(self)@ == old(self)@.adding(
                    webview,
                    MsgPair { batch_id, edits, response },
                ),
            final(self)@.wf(),
    {
        let ghost before = self@;
        let mut state = match self.states.remove(&webview) {
            Some(state) => state,
            None => WebviewConnectionState::default(),
        };
        let ghost channels = self.channels@;
        let ghost found = state@;
        let receiver = state.add_message(&mut self.channels, batch_id, edits);
        self.states.insert(webview, state);
        proof {
            let response = choose|response: oneshot::Sender<()>| #[trigger]
                connected(response, receiver@) && {
                    let pair = MsgPair { batch_id, edits, response };
                    &&& state@ == found.adding(channels_view(channels), pair)
                    &&& channels_view(self.channels@) == found.forwarding(
                        channels_view(channels),
                        pair,
                    )
                };
            let pair = MsgPair { batch_id, edits, response };
            assert(self@ =~= before.adding(webview, pair));
            lemma_adding_keeps_wf(before, webview, pair);
        }
        receiver
    }

    /// Takes a webview's state out, together with the edits that it holds back.
    pub fn remove(&mut self, webview: u32) -> (state: Option<WebviewConnectionState<S>>)
        requires
            old(self)@.wf(),
        ensures
            final(self)@ == (ConnectionsView {
                states: old(self)@.states.remove(webview),
                ..old(self)@
            }),
            match state {
                Some(state) => old(self)@.states.contains_key(webview) && state@
                    == old(self)@.states[webview],
                None => !old(self)@.states.contains_key(webview),
            },
            final(self)@.wf(),
    {
        let ghost before = self@;
        let state = self.states.remove(&webview);
        proof {
            let after = ConnectionsView { states: before.states.remove(webview), ..before };
            assert(self@ =~= after);
            assert forall|other: u32, id: u64| #[trigger] after.sends_into(other, id) implies id
                < after.next_channel && (after.channels.contains_key(id)
                ==> after.channels[id].webview_id == other) by {
                assert(before.sends_into(other, id));
            }
        }
        state
    }

    /// Whether a connection of this generation comes too late.
    pub fn is_superseded(&self, webview: u32, generation: u64) -> (superseded: bool)
        ensures
            superseded == self@.is_superseded(webview, generation),
            superseded == (self@.states.contains_key(webview) && match self@.states[webview] {
                StateView::Pending { generation: known, .. } => generation <= known,
                StateView::Connected { generation: known, .. } => generation <= known,
            }),
    {
        match self.states.get(&webview) {
            Some(state) => state.generation() >= generation,
            None => false,
        }
    }

    /// Whether another connection can be numbered.
    pub fn has_free_channel(&self) -> (free: bool)
        ensures
            free == (self@.next_channel < u64::MAX),
    {
        self.next_channel < u64::MAX
    }

    /// Lets a connection that finished its handshake take over, unless it comes too late:
    /// parallel handshakes may finish out of order, and an old socket must never replace
    /// the current one (including one already back in Pending).
    pub fn connect(&mut self, webview: u32, generation: u64, socket: S) -> (outcome: ConnectOutcome<
        S,
    >)
        requires
            old(self)@.wf(),
            old(self)@.next_channel < u64::MAX,
        ensures
            match outcome {
                ConnectOutcome::Superseded => {
                    &&& old(self)@.is_superseded(webview, generation)
                    &&& final(self)@ == old(self)@
                },
                ConnectOutcome::Connected { channel, replaced } => {
                    &&& !old(self)@.is_superseded(webview, generation)
                    &&& final(self)@ == old(self)@.connecting(webview, generation, socket)
                    &&& channel == old(self)@.next_channel
                    &&& replaced == (match old(self)@.state_of(webview) {
                        StateView::Pending { .. } => None,
                        StateView::Connected { socket: previous, .. } => Some(previous),
                    })
                },
            },
            outcome is Superseded <==> old(self)@.states.contains_key(webview) && match old(self)@.states[webview] {
                StateView::Pending { generation: known, .. } => generation <= known,
                StateView::Connected { generation: known, .. } => generation <= known,
            },
            outcome matches ConnectOutcome::Connected { replaced, .. } ==> replaced == (
            if old(self)@.states.contains_key(webview) && old(self)@.states[webview] is Connected {
                Some(old(self)@.states[webview]->socket)
            } else {
                None
            }),
            final(self)@.wf(),
    {
        let ghost before = self@;
        if self.is_superseded(webview, generation) {
            return ConnectOutcome::Superseded;
        }
        let channel = self.next_channel;
        let mut incoming: VecDeque<MsgPair> = VecDeque::new();
        let mut replaced: Option<S> = None;
        match self.states.remove(&webview) {
            Some(WebviewConnectionState::Pending { pending, .. }) => {
                incoming = pending;
            },
            Some(WebviewConnectionState::Connected { socket: previous, .. }) => {
                replaced = Some(previous);
            },
            None => {},
        }
        self.channels.insert(
            channel,
            EditChannel { webview_id: webview, queued_message: None, incoming },
        );
        self.states.insert(
            webview,
            WebviewConnectionState::Connected { generation, socket, edits_outgoing: channel },
        );
        self.next_channel = channel + 1;
        proof {
            assert(self@ =~= before.connecting(webview, generation, socket));
            lemma_connecting_keeps_wf(before, webview, generation, socket);
        }
        ConnectOutcome::Connected { channel, replaced }
    }

    /// What the worker of channel `id` does next. A batch that is on its way stays first in
    /// line until it is acknowledged.
    pub fn next_frame(&mut self, id: u64) -> (next: NextFrame)
        requires
            old(self)@.wf(),
        ensures
            final(self)@ == old(self)@.receiving(id),
            match next {
                NextFrame::Send(frame) => {
                    &&& final(self)@.has_queued(id)
                    &&& frame@ == final(self)@.channels[id].queued_message->0.spec_frame()
                },
                NextFrame::Wait => !final(self)@.has_queued(id) && final(self)@.has_sender(id),
                NextFrame::Disconnected => {
                    &&& !final(self)@.has_queued(id)
                    &&& !final(self)@.has_sender(id)
                },
            },
            next is Send <==> old(self)@.channels.contains_key(id) && (old(self)@.channels[id].queued_message is Some || old(self)@.channels[id].incoming.len() > 0),
            next matches NextFrame::Send(frame) ==> {
                let pair = match old(self)@.channels[id].queued_message {
                    Some(pair) => pair,
                    None => old(self)@.channels[id].incoming[0],
                };
                &&& frame@.len() == 8 + pair.edits@.len()
                &&& spec_u64_from_le_bytes(frame@.take(8)) == pair.batch_id
                &&& frame@.skip(8) == pair.edits@
            },
            next is Wait <==> old(self)@.channels.contains_key(id) && old(self)@.channels[id].queued_message is None && old(self)@.channels[id].incoming.len() == 0
                && {
                let webview = old(self)@.channels[id].webview_id;
                &&& old(self)@.states.contains_key(webview)
                &&& old(self)@.states[webview] is Connected
                &&& old(self)@.states[webview]->edits_outgoing == id
            },
            final(self)@.wf(),
    {
        let ghost before = self@;
        let mut channel = match self.channels.remove(&id) {
            Some(channel) => channel,
            None => {
                assert(self@ =~= before);
                return NextFrame::Disconnected;
            },
        };
        let ghost taken = channel@;
        if channel.queued_message.is_none() {
            channel.queued_message = channel.incoming.pop_front();
            assert(taken.incoming.len() > 0 ==> channel@.incoming
                =~= taken.incoming.drop_first());
        }
        let webview = channel.webview_id;
        let frame = match &channel.queued_message {
            Some(message) => Some(message.frame()),
            None => None,
        };
        self.channels.insert(id, channel);
        assert(self@ =~= before.receiving(id));
        proof {
            lemma_receiving_keeps_wf(before, id);
        }
        match frame {
            Some(frame) => NextFrame::Send(frame),
            None => match self.states.get(&webview) {
                Some(WebviewConnectionState::Connected { edits_outgoing, .. }) => {
                    if *edits_outgoing == id {
                        NextFrame::Wait
                    } else {
                        NextFrame::Disconnected
                    }
                },
                _ => NextFrame::Disconnected,
            },
        }
    }

    /// Whether the worker of channel `id` has a batch on its way.
    pub fn awaits_ack(&self, id: u64) -> (awaits: bool)
        ensures
            awaits == self@.has_queued(id),
            awaits == (self@.channels.contains_key(id)
                && self@.channels[id].queued_message is Some),
    {
        match self.channels.get(&id) {
            Some(channel) => channel.queued_message.is_some(),
            None => false,
        }
    }

    /// What the worker of channel `id` does after a read.
    pub fn on_read(&mut self, id: u64, read: &SocketRead) -> (after: AfterRead)
        requires
            old(self)@.wf(),
            old(self)@.has_queued(id),
        ensures
            match after {
                AfterRead::Acknowledged(pair) => {
                    &&& old(self)@.is_acknowledged(id, *read)
                    &&& old(self)@.channels[id].queued_message == Some(pair)
                    &&& final(self)@ == old(self)@.acknowledging(id)
                },
                AfterRead::KeepWaiting => {
                    &&& verdict(old(self)@.channels[id].queued_message->0.batch_id, *read)
                        == AckVerdict::KeepWaiting
                    &&& final(self)@ == old(self)@
                },
                AfterRead::Lost => {
                    &&& verdict(old(self)@.channels[id].queued_message->0.batch_id, *read)
                        == AckVerdict::Lost
                    &&& final(self)@ == old(self)@
                },
            },
            after is Acknowledged <==> (*read matches SocketRead::Binary(bytes) && bytes@.len() == 8
                && spec_u64_from_le_bytes(bytes@) == old(self)@.channels[id].queued_message->0.batch_id),
            after is Lost <==> (*read is Close || *read is OtherError || (
            *read matches SocketRead::Io(failure) && failure != IoFailure::Interrupted)),
            final(self)@.wf(),
    {
        let ghost before = self@;
        let mut channel = self.channels.remove(&id).unwrap();
        let message = channel.queued_message.take().unwrap();
        match judge_read(message.batch_id, read) {
            AckVerdict::Acknowledged => {
                self.channels.insert(id, channel);
                assert(self@ =~= before.acknowledging(id));
                proof {
                    lemma_acknowledging_keeps_wf(before, id);
                }
                AfterRead::Acknowledged(message)
            },
            AckVerdict::KeepWaiting => {
                channel.queued_message = Some(message);
                self.channels.insert(id, channel);
                assert(self@ =~= before);
                AfterRead::KeepWaiting
            },
            AckVerdict::Lost => {
                channel.queued_message = Some(message);
                self.channels.insert(id, channel);
                assert(self@ =~= before);
                AfterRead::Lost
            },
        }
    }

    /// Closes channel `id`: its worker has gone, and what it has not seen acknowledged goes
    /// through the next connection. Whether those edits were applied is not known; they are
    /// replayed under the SAME id, and the webview tells a replay by it.
    pub fn close(&mut self, id: u64)
        requires
            old(self)@.wf(),
        ensures
            final(self)@ == old(self)@.closing(id),
            final(self)@.wf(),
    {
        let ghost before = self@;
        let mut channel = match self.channels.remove(&id) {
            Some(channel) => channel,
            None => {
                assert(self@ =~= before);
                return;
            },
        };
        let ghost backlog = channel@.backlog();
        let webview = channel.webview_id;
        assert(self@ =~= ConnectionsView { channels: before.channels.remove(id), ..before });
        proof {
            lemma_removing_channel_keeps_wf(before, id);
        }
        match channel.queued_message.take() {
            Some(message) => {
                assert(backlog.first() == message);
                assert(backlog.drop_first() =~= channel.incoming@);
                self.add_message_pair(webview, message);
            },
            None => {},
        }
        assert(self@.adding_all(webview, channel.incoming@) == before.closing(id));
        let mut incoming = channel.incoming;
        while incoming.len() > 0
            invariant
                self@.wf(),
                self@.adding_all(webview, incoming@) == before.closing(id),
            decreases incoming@.len(),
        {
            let ghost rest = incoming@;
            let message = incoming.pop_front().unwrap();
            assert(incoming@ =~= rest.drop_first());
            self.add_message_pair(webview, message);
        }
    }
}

/// What is seen of a channel is all of it, and so is what is seen of the connections.
proof fn connections_are_seen_whole<S>(
    connections: Connections<S>,
    webview: u32,
    id: u64,
)
    ensures
        connections@.next_channel == connections.next_channel,
        connections@.states.contains_key(webview) == connections.states@.contains_key(webview),
        connections.states@.contains_key(webview) ==> connections@.states[webview]
            == connections.states@[webview]@,
        connections@.channels.contains_key(id) == connections.channels@.contains_key(id),
        connections.channels@.contains_key(id) ==> connections@.channels[id] == (ChannelView {
            webview_id: connections.channels@[id].webview_id,
            queued_message: connections.channels@[id].queued_message,
            incoming: connections.channels@[id].incoming@,
        }),
{
}

pub(crate) proof fn lemma_adding_keeps_wf<S>(v: ConnectionsView<S>, webview: u32, pair: MsgPair)
    requires
        v.wf(),
    ensures
        v.adding(webview, pair).wf(),
        v.adding(webview, pair).channels.dom() == v.channels.dom(),
{
    let w = v.adding(webview, pair);
    assert(w.channels.dom() =~= v.channels.dom());
    assert forall|other: u32, id: u64| #[trigger] w.sends_into(other, id) implies id
        < w.next_channel && (w.channels.contains_key(id) ==> w.channels[id].webview_id == other) by {
        assert(v.sends_into(other, id));
    }
}

pub(crate) proof fn lemma_connecting_keeps_wf<S>(
    v: ConnectionsView<S>,
    webview: u32,
    generation: u64,
    socket: S,
)
    requires
        v.wf(),
        v.next_channel < u64::MAX,
    ensures
        v.connecting(webview, generation, socket).wf(),
{
    let w = v.connecting(webview, generation, socket);
    assert forall|other: u32, id: u64| #[trigger] w.sends_into(other, id) implies id
        < w.next_channel && (w.channels.contains_key(id) ==> w.channels[id].webview_id == other) by {
        if other != webview {
            assert(v.sends_into(other, id));
        }
    }
}

pub(crate) proof fn lemma_receiving_keeps_wf<S>(v: ConnectionsView<S>, id: u64)
    requires
        v.wf(),
    ensures
        v.receiving(id).wf(),
{
    let w = v.receiving(id);
    assert forall|other: u32, c: u64| #[trigger] w.sends_into(other, c) implies c < w.next_channel
        && (w.channels.contains_key(c) ==> w.channels[c].webview_id == other) by {
        assert(v.sends_into(other, c));
    }
}

pub(crate) proof fn lemma_acknowledging_keeps_wf<S>(v: ConnectionsView<S>, id: u64)
    requires
        v.wf(),
        v.channels.contains_key(id),
    ensures
        v.acknowledging(id).wf(),
{
    let w = v.acknowledging(id);
    assert forall|other: u32, c: u64| #[trigger] w.sends_into(other, c) implies c < w.next_channel
        && (w.channels.contains_key(c) ==> w.channels[c].webview_id == other) by {
        assert(v.sends_into(other, c));
    }
}

pub(crate) proof fn lemma_removing_channel_keeps_wf<S>(v: ConnectionsView<S>, id: u64)
    requires
        v.wf(),
    ensures
        (ConnectionsView { channels: v.channels.remove(id), ..v }).wf(),
{
    let w = ConnectionsView { channels: v.channels.remove(id), ..v };
    assert forall|other: u32, c: u64| #[trigger] w.sends_into(other, c) implies c < w.next_channel
        && (w.channels.contains_key(c) ==> w.channels[c].webview_id == other) by {
        assert(v.sends_into(other, c));
    }
}

} // verus!
