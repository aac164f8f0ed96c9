//! The edit server of an application: where it listens, and what it holds for each webview.
use crate::ack::{connected, AckPoll, AckReceiver};
use crate::connections::{Connections, ConnectionsView};
use crate::handshake::ServerLocation;
use crate::message::MsgPair;
use crate::queue::{QueueView, WryQueue};
use futures_channel::oneshot;
use std::sync::Arc;
use vstd::prelude::*;

verus! {

/// The websocket listener that the webview will connect to in order to receive edits and send requests. There
/// is only one websocket listener per application even if there are multiple windows so we don't use all the
/// open ports. `S` is what shuts a connection's socket down.
pub struct EditWebsocket<S> {
    /// Where the server listens now.
    pub current_location: ServerLocation,
    /// The id of the next webview.
    pub max_webview_id: u32,
    /// What is held for each webview.
    pub connections: Connections<S>,
}

impl<S> EditWebsocket<S> {
    /// Whether what is held for the webviews is in order.
    pub open spec fn wf(self) -> bool {
        self.connections@.wf()
    }

    /// A server that has just started to listen.
    pub fn start(location: ServerLocation) -> (server: Self)
        ensures
            server.current_location == location,
            server.max_webview_id == 0,
            server.connections@ == (ConnectionsView::<S> {
                states: Map::empty(),
                channels: Map::empty(),
                next_channel: 0,
            }),
            server.wf(),
    {
        EditWebsocket {
            current_location: location,
            max_webview_id: 0,
            connections: Connections::new(),
        }
    }

    /// Moves to where the server was bound anew. What is held for the webviews waits for
    /// them there.
    pub fn relocate(&mut self, location: ServerLocation)
        ensures
            *final(self) == (EditWebsocket { current_location: location, ..*old(self) }),
    {
        self.current_location = location;
    }

    /// The edit queue of a new webview. Ids are given out in turn and start over once all
    /// are used.
    pub fn create_queue(&mut self) -> (queue: WryQueue)
        ensures
            queue@ == QueueView::initial(old(self).max_webview_id),
            queue@ == (QueueView {
                webview_id: old(self).max_webview_id,
                edits_in_progress: Seq::empty(),
                edit_sent_at: None,
                next_batch_id: 1,
                suspended: false,
                reconnect_triggered_at: None,
            }),
            queue@.wf(),
            *final(self) == (EditWebsocket {
                max_webview_id: if old(self).max_webview_id == u32::MAX {
                    0u32
                } else {
                    (old(self).max_webview_id + 1) as u32
                },
                ..*old(self)
            }),
    {
        let webview_id = self.max_webview_id;
        self.max_webview_id = webview_id.wrapping_add(1);
        WryQueue::new(webview_id)
    }

    /// Sends a batch of edits to a webview and returns a receiver that will be resolved when
    /// the webview has applied the edits.
    pub fn send_edits(&mut self, webview: u32, batch_id: u64, edits: Arc<Vec<u8>>) -> (receiver:
        AckReceiver)
        requires
            old(self).wf(),
        ensures
            receiver.is_fresh(),
            receiver.polls() == Seq::<AckPoll>::empty(),
            exists|response: oneshot::Sender<()>| #[trigger]
                connected(response, receiver@) && final(self).connections@
                    == old(self).connections@.adding(
                    webview,
                    MsgPair { batch_id, edits, response },
                ),
            final(self).current_location == old(self).current_location,
            final(self).max_webview_id == old(self).max_webview_id,
            final(self).wf(),
    {
        self.connections.send_edits(webview, batch_id, edits)
    }

    /// Check if the connection for a given webview is in the Pending state
    /// (i.e. the handler thread exited and no live WebSocket connection exists).
    pub fn is_pending(&self, webview: u32) -> (pending: bool)
        ensures
            pending == self.connections@.is_pending(webview),
            pending == !(self.connections@.states.contains_key(webview)
                && self.connections@.states[webview] is Connected),
    {
        self.connections.is_pending(webview)
    }
}

/// How long handshake, authentication, write and acknowledgment may each take on a
/// connection's socket, in seconds.
pub const SOCKET_TIMEOUT_SECS: u64 = 3;

/// How long the listener waits before it tries to start anew, in milliseconds.
pub const RESTART_DELAY_MILLIS: u64 = 500;

/// What happened to the listener of the edit server.
#[derive(Clone, Copy, PartialEq, Eq, Structural, Debug)]
pub enum ListenerEvent {
    /// A connection came in.
    Accepted,
    /// The listener takes no more connections.
    AcceptFailed,
    /// A new listener was bound.
    Bound,
    /// No new listener could be bound.
    BindFailed,
}

/// What the thread of the listener does next.
#[derive(Clone, Copy, PartialEq, Eq, Structural, Debug)]
pub enum ListenerAction {
    /// Handle the connection on a thread of its own, and accept the next one: a half-open
    /// handshake must not block the listener for every webview.
    Handle,
    /// Bind a new listener.
    Bind,
    /// Bind a new listener after so many milliseconds.
    BindAfter(u64),
    /// Make the new location known, and accept connections there.
    Announce,
}

/// Decides what the thread of the listener does next. The operating system may kill the
/// listener, such as when a device goes to sleep; it is then started anew, as often as it
/// takes.
pub fn after_listener_event(event: ListenerEvent) -> (action: ListenerAction)
    ensures
        action == (match event {
            ListenerEvent::Accepted => ListenerAction::Handle,
            ListenerEvent::AcceptFailed => ListenerAction::Bind,
            ListenerEvent::Bound => ListenerAction::Announce,
            ListenerEvent::BindFailed => ListenerAction::BindAfter(RESTART_DELAY_MILLIS),
        }),
        event == ListenerEvent::BindFailed ==> action == ListenerAction::BindAfter(500),
{
    match event {
        ListenerEvent::Accepted => ListenerAction::Handle,
        ListenerEvent::AcceptFailed => ListenerAction::Bind,
        ListenerEvent::Bound => ListenerAction::Announce,
        ListenerEvent::BindFailed => ListenerAction::BindAfter(RESTART_DELAY_MILLIS),
    }
}

/// No step of a connection's socket may take longer than three seconds.
pub proof fn socket_steps_are_bounded()
    ensures
        SOCKET_TIMEOUT_SECS == 3,
{
}

} // verus!
