use desktop_edits::connections::{
    AfterRead, ConnectOutcome, NextFrame, WebviewConnectionState,
};
use desktop_edits::handshake::{authorize, ServerLocation};
use desktop_edits::message::{judge_read, AckVerdict, IoFailure, SocketRead};
use desktop_edits::queue::{Flush, WryQueue};
use desktop_edits::server::{
    after_listener_event, EditWebsocket, ListenerAction, ListenerEvent,
};
use std::sync::Arc;

type Server = EditWebsocket<u64>;

fn start() -> Server {
    EditWebsocket::start(ServerLocation::with_new_keys(4321).unwrap())
}

/// Goes through the handshake as a webview of the queue would, and takes over if it may.
/// The generation stands for the socket.
fn connect(server: &mut Server, queue: &WryQueue, generation: u64) -> ConnectOutcome<u64> {
    let address = queue.edits_path(server);
    let query = format!("generation={generation}");
    let handshake = authorize(
        &address["ws://127.0.0.1:4321".len()..],
        Some(&query),
        &server.current_location.client_key,
    )
    .unwrap();
    assert_eq!(handshake.generation, generation);
    server
        .connections
        .connect(handshake.webview_id, handshake.generation, generation)
}

fn connected(outcome: ConnectOutcome<u64>) -> (u64, Option<u64>) {
    match outcome {
        ConnectOutcome::Connected { channel, replaced } => (channel, replaced),
        ConnectOutcome::Superseded => panic!("connection was superseded"),
    }
}

fn frame(server: &mut Server, channel: u64) -> Vec<u8> {
    match server.connections.next_frame(channel) {
        NextFrame::Send(frame) => frame,
        _ => panic!("no frame to send"),
    }
}

fn ack(server: &mut Server, channel: u64, batch_id: u64) -> bool {
    assert!(server.connections.awaits_ack(channel));
    let read = SocketRead::Binary(batch_id.to_le_bytes().to_vec());
    match server.connections.on_read(channel, &read) {
        AfterRead::Acknowledged(pair) => {
            assert_eq!(pair.batch_id, batch_id);
            pair.resolve().heard()
        }
        AfterRead::KeepWaiting => false,
        AfterRead::Lost => panic!("connection was lost"),
    }
}

#[test]
fn lost_ack_replays_same_batch_and_keeps_original_barrier() {
    let mut server = start();
    let queue = server.create_queue();
    let mut receiver = server.send_edits(0, 1, Arc::new(vec![11, 22])).into_inner();
    let (first, replaced) = connected(connect(&mut server, &queue, 1));
    assert!(replaced.is_none());
    let sent = frame(&mut server, first);
    assert_eq!(&sent[..8], &1u64.to_le_bytes());
    assert_eq!(&sent[8..], &[11, 22]);
    assert!(receiver.try_recv().unwrap().is_none());

    // The old connection still waits for its acknowledgment when the new one takes over.
    let (replacement, replaced) = connected(connect(&mut server, &queue, 2));
    assert_eq!(replaced, Some(1));
    assert!(matches!(
        server.connections.next_frame(replacement),
        NextFrame::Wait
    ));
    server.connections.close(first);
    assert_eq!(frame(&mut server, replacement), sent);
    assert!(receiver.try_recv().unwrap().is_none());
    assert!(!ack(&mut server, replacement, 999));
    assert!(receiver.try_recv().unwrap().is_none());
    assert!(
        ack(&mut server, replacement, 1),
        "matching ACK did not release render barrier"
    );
    assert!(receiver.try_recv().unwrap().is_some());
    let _ack2 = server.send_edits(0, 2, Arc::new(vec![33]));
    let next = frame(&mut server, replacement);
    assert_eq!(&next[..8], &2u64.to_le_bytes());
    assert_eq!(&next[8..], &[33]);
    assert!(ack(&mut server, replacement, 2));
}

#[test]
fn dropped_ack_sender_requeues_without_releasing_barrier() {
    let mut server = start();
    let mut queue = server.create_queue();
    queue.send_edits(&mut server, Vec::new(), 0);
    // Simulate an edit worker losing ownership of its response sender.
    server.connections.remove(0);
    let mut cx = std::task::Context::from_waker(futures_util::task::noop_waker_ref());
    assert_eq!(
        queue.poll_edits_flushed(&mut server, &mut cx),
        Flush::Replayed
    );
    let Some(WebviewConnectionState::Pending { pending, .. }) = server.connections.state_of(0)
    else {
        panic!("edit was not requeued")
    };
    assert_eq!(pending.len(), 1);
    assert_eq!(pending[0].batch_id, 1);
}

#[test]
fn stale_handshake_cannot_replace_newer_socket() {
    let mut server = start();
    let queue = server.create_queue();
    let (current, _) = connected(connect(&mut server, &queue, 2));
    assert!(matches!(
        connect(&mut server, &queue, 1),
        ConnectOutcome::Superseded
    ));
    let _ack = server.send_edits(0, 1, Arc::new(vec![7]));
    let sent = frame(&mut server, current);
    assert_eq!(&sent[8..], &[7]);
    assert!(ack(&mut server, current, 1));
}

#[test]
fn superseded_generations() {
    let mut server = start();
    let queue = server.create_queue();
    assert!(!server.connections.is_superseded(0, 0));
    connected(connect(&mut server, &queue, 2));
    assert!(server.connections.is_superseded(0, 1));
    assert!(server.connections.is_superseded(0, 2));
    assert!(!server.connections.is_superseded(0, 3));
    assert!(!server.connections.is_superseded(1, 0));
}

#[test]
fn same_generation_cannot_connect_twice() {
    let mut server = start();
    let queue = server.create_queue();
    let (channel, _) = connected(connect(&mut server, &queue, 0));
    assert!(matches!(
        connect(&mut server, &queue, 0),
        ConnectOutcome::Superseded
    ));
    // Not even once the connection is back in Pending.
    server.connections.close(channel);
    let _ack = server.send_edits(0, 1, Arc::new(vec![]));
    assert!(server.is_pending(0));
    assert!(matches!(
        connect(&mut server, &queue, 0),
        ConnectOutcome::Superseded
    ));
    connected(connect(&mut server, &queue, 1));
}

#[test]
fn returned_receiver_belongs_to_the_queued_sender() {
    let mut server = start();
    let receiver = server.send_edits(3, 1, Arc::new(vec![1])).into_inner();
    let other = server.send_edits(3, 2, Arc::new(vec![2])).into_inner();
    let Some(WebviewConnectionState::Pending { pending, .. }) = server.connections.state_of(3)
    else {
        panic!("edits were not queued")
    };
    assert!(pending[0].response.is_connected_to(&receiver));
    assert!(pending[1].response.is_connected_to(&other));
    assert!(!pending[0].response.is_connected_to(&other));
}

#[test]
fn pending_batches_go_out_in_order() {
    let mut server = start();
    let queue = server.create_queue();
    let _receivers: Vec<_> = (1..=3)
        .map(|id| server.send_edits(0, id, Arc::new(vec![id as u8])))
        .collect();
    assert!(server.is_pending(0));
    let (channel, _) = connected(connect(&mut server, &queue, 1));
    assert!(!server.is_pending(0));
    for id in 1..=3u64 {
        let sent = frame(&mut server, channel);
        assert_eq!(sent, [&id.to_le_bytes()[..], &[id as u8]].concat());
        // What is on its way stays first in line.
        assert_eq!(frame(&mut server, channel), sent);
        assert!(ack(&mut server, channel, id));
    }
    assert!(matches!(
        server.connections.next_frame(channel),
        NextFrame::Wait
    ));
}

#[test]
fn ended_worker_requeues_what_was_on_its_way_first() {
    let mut server = start();
    let queue = server.create_queue();
    let (channel, _) = connected(connect(&mut server, &queue, 1));
    let _receivers: Vec<_> = (1..=3)
        .map(|id| server.send_edits(0, id, Arc::new(vec![])))
        .collect();
    let sent = frame(&mut server, channel);
    let lost = server.connections.on_read(channel, &SocketRead::Close);
    assert!(matches!(lost, AfterRead::Lost));
    server.connections.close(channel);
    {
        let Some(WebviewConnectionState::Pending {
            generation,
            pending,
        }) = server.connections.state_of(0)
        else {
            panic!("edits were not requeued")
        };
        assert_eq!(*generation, 1);
        let ids: Vec<u64> = pending.iter().map(|pair| pair.batch_id).collect();
        assert_eq!(ids, [1, 2, 3]);
    }
    let (next, _) = connected(connect(&mut server, &queue, 2));
    assert_eq!(frame(&mut server, next), sent);
}

#[test]
fn message_for_a_dead_channel_waits() {
    let mut server = start();
    let queue = server.create_queue();
    let (channel, _) = connected(connect(&mut server, &queue, 5));
    server.connections.close(channel);
    // Nothing was on its way, so that nobody has noticed yet.
    assert!(!server.is_pending(0));
    let _receiver = server.send_edits(0, 1, Arc::new(vec![]));
    assert!(server.is_pending(0));
    assert!(matches!(
        server.connections.next_frame(channel),
        NextFrame::Disconnected
    ));
}

#[test]
fn replaced_worker_without_messages_is_disconnected() {
    let mut server = start();
    let queue = server.create_queue();
    let (old, _) = connected(connect(&mut server, &queue, 1));
    connected(connect(&mut server, &queue, 2));
    assert!(matches!(
        server.connections.next_frame(old),
        NextFrame::Disconnected
    ));
}

#[test]
fn webviews_do_not_share_edits() {
    let mut server = start();
    let first = server.create_queue();
    let second = server.create_queue();
    let (a, _) = connected(connect(&mut server, &first, 1));
    let (b, _) = connected(connect(&mut server, &second, 1));
    let _receiver = server.send_edits(1, 1, Arc::new(vec![9]));
    assert!(matches!(server.connections.next_frame(a), NextFrame::Wait));
    assert_eq!(frame(&mut server, b), [1, 0, 0, 0, 0, 0, 0, 0, 9]);
}

#[test]
fn reads_are_judged() {
    let ack = |bytes: &[u8]| judge_read(0x0102, &SocketRead::Binary(bytes.to_vec()));
    assert_eq!(ack(&[2, 1, 0, 0, 0, 0, 0, 0]), AckVerdict::Acknowledged);
    assert_eq!(ack(&[1, 2, 0, 0, 0, 0, 0, 0]), AckVerdict::KeepWaiting);
    assert_eq!(ack(&[2, 1]), AckVerdict::KeepWaiting);
    assert_eq!(ack(&[]), AckVerdict::KeepWaiting);
    assert_eq!(ack(&[2, 1, 0, 0, 0, 0, 0, 0, 0]), AckVerdict::KeepWaiting);
    for (read, verdict) in [
        (SocketRead::Close, AckVerdict::Lost),
        (SocketRead::OtherMessage, AckVerdict::KeepWaiting),
        (SocketRead::OtherError, AckVerdict::Lost),
        (SocketRead::Io(IoFailure::WouldBlock), AckVerdict::Lost),
        (SocketRead::Io(IoFailure::TimedOut), AckVerdict::Lost),
        (SocketRead::Io(IoFailure::Other), AckVerdict::Lost),
        (
            SocketRead::Io(IoFailure::Interrupted),
            AckVerdict::KeepWaiting,
        ),
    ] {
        assert_eq!(judge_read(1, &read), verdict);
    }
}

#[test]
fn resolving_tells_whether_anyone_listens() {
    let mut server = start();
    let queue = server.create_queue();
    drop(server.send_edits(0, 1, Arc::new(vec![])));
    let (channel, _) = connected(connect(&mut server, &queue, 1));
    frame(&mut server, channel);
    assert!(!ack(&mut server, channel, 1));
    assert!(!server.connections.awaits_ack(channel));
}

#[test]
fn webview_ids_are_given_out_in_turn() {
    let mut server = start();
    let first = server.create_queue();
    assert!(first.edits_path(&server).contains("/0/"));
    let second = server.create_queue();
    assert!(second.edits_path(&server).contains("/1/"));
    server.max_webview_id = u32::MAX;
    let last = server.create_queue();
    assert!(last.edits_path(&server).contains("/4294967295/"));
    assert_eq!(server.max_webview_id, 0);
}

#[test]
fn relocation_keeps_what_is_held() {
    let mut server = start();
    let queue = server.create_queue();
    let _receiver = server.send_edits(0, 1, Arc::new(vec![4]));
    let before = queue.edits_path(&server);
    let key_before = queue.required_server_key(&server);
    server.relocate(ServerLocation::with_new_keys(4321).unwrap());
    assert_ne!(queue.edits_path(&server), before);
    assert_ne!(queue.required_server_key(&server), key_before);
    let (channel, _) = connected(connect(&mut server, &queue, 1));
    assert_eq!(frame(&mut server, channel), [1, 0, 0, 0, 0, 0, 0, 0, 4]);
}

/// The batches that a webview's connection acknowledges come in the order in which they
/// came in, whatever happens to the connections of others.
#[test]
fn connection_delivers_in_order() {
    let mut server = start();
    let queue = server.create_queue();
    let other = server.create_queue();
    let mut receivers = Vec::new();
    let (old, _) = connected(connect(&mut server, &queue, 1));
    receivers.push(server.send_edits(0, 1, Arc::new(vec![1])));
    frame(&mut server, old);
    receivers.push(server.send_edits(0, 2, Arc::new(vec![2])));
    let (channel, _) = connected(connect(&mut server, &queue, 2));
    receivers.push(server.send_edits(0, 3, Arc::new(vec![3])));
    let (elsewhere, _) = connected(connect(&mut server, &other, 1));
    receivers.push(server.send_edits(1, 7, Arc::new(vec![7])));
    // What the old worker held comes in when it ends.
    server.connections.close(old);
    receivers.push(server.send_edits(0, 4, Arc::new(vec![4])));
    frame(&mut server, elsewhere);
    server.connections.close(elsewhere);
    for id in [3u64, 1, 2, 4] {
        let sent = frame(&mut server, channel);
        assert_eq!(sent, [&id.to_le_bytes()[..], &[id as u8]].concat());
        assert!(ack(&mut server, channel, id));
    }
    assert!(matches!(
        server.connections.next_frame(channel),
        NextFrame::Wait
    ));
}

#[test]
fn listener_is_started_anew() {
    assert_eq!(
        after_listener_event(ListenerEvent::Accepted),
        ListenerAction::Handle
    );
    assert_eq!(
        after_listener_event(ListenerEvent::AcceptFailed),
        ListenerAction::Bind
    );
    assert_eq!(
        after_listener_event(ListenerEvent::BindFailed),
        ListenerAction::BindAfter(500)
    );
    assert_eq!(
        after_listener_event(ListenerEvent::Bound),
        ListenerAction::Announce
    );
}
