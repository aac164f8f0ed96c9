use desktop_edits::ack::AckPoll;
use desktop_edits::connections::{AfterRead, ConnectOutcome, NextFrame};
use desktop_edits::handshake::ServerLocation;
use desktop_edits::keys::{encode_key_string, KEY_SIZE};
use desktop_edits::message::SocketRead;
use desktop_edits::queue::{Flush, WryQueue};
use desktop_edits::server::EditWebsocket;

type Server = EditWebsocket<()>;

const SECOND: u128 = 1_000_000_000;

fn start() -> (Server, WryQueue) {
    let mut server = EditWebsocket::start(ServerLocation {
        port: 1,
        client_key: [3u8; KEY_SIZE],
        server_key: [4u8; KEY_SIZE],
    });
    let queue = server.create_queue();
    (server, queue)
}

fn poll(queue: &mut WryQueue, server: &mut Server) -> Flush {
    let mut cx = std::task::Context::from_waker(futures_util::task::noop_waker_ref());
    queue.poll_edits_flushed(server, &mut cx)
}

/// Sends what is next on the channel and acknowledges it.
fn deliver(server: &mut Server, channel: u64) -> Vec<u8> {
    let NextFrame::Send(frame) = server.connections.next_frame(channel) else {
        panic!("nothing to send")
    };
    let read = SocketRead::Binary(frame[..8].to_vec());
    let AfterRead::Acknowledged(pair) = server.connections.on_read(channel, &read) else {
        panic!("not acknowledged")
    };
    assert!(pair.resolve().heard());
    frame
}

fn connect(server: &mut Server, generation: u64) -> u64 {
    match server.connections.connect(0, generation, ()) {
        ConnectOutcome::Connected { channel, .. } => channel,
        ConnectOutcome::Superseded => panic!("superseded"),
    }
}

#[test]
fn queue_without_edits_is_flushed() {
    let (mut server, mut queue) = start();
    assert_eq!(poll(&mut queue, &mut server), Flush::Done);
    assert!(!queue.has_stale_edit(100 * SECOND));
}

#[test]
fn only_the_acknowledgment_flushes() {
    let (mut server, mut queue) = start();
    assert!(queue.send_edits(&mut server, vec![5], 0));
    assert_eq!(poll(&mut queue, &mut server), Flush::Waiting);
    let channel = connect(&mut server, 1);
    assert_eq!(poll(&mut queue, &mut server), Flush::Waiting);
    queue.set_suspended(true, SECOND);
    queue.set_suspended(false, SECOND);
    assert_eq!(poll(&mut queue, &mut server), Flush::Waiting);
    assert_eq!(deliver(&mut server, channel), [1, 0, 0, 0, 0, 0, 0, 0, 5]);
    assert_eq!(poll(&mut queue, &mut server), Flush::Done);
    assert!(!queue.has_stale_edit(100 * SECOND));
}

#[test]
fn batches_are_numbered_from_one() {
    let (mut server, mut queue) = start();
    let channel = connect(&mut server, 1);
    for id in 1..=3u64 {
        assert!(queue.has_free_batch_id());
        assert!(!queue.send_edits(&mut server, vec![], 0));
        assert_eq!(deliver(&mut server, channel), id.to_le_bytes());
        assert_eq!(poll(&mut queue, &mut server), Flush::Done);
    }
}

#[test]
fn lost_sender_replays_the_same_batch() {
    let (mut server, mut queue) = start();
    queue.send_edits(&mut server, vec![8, 9], 0);
    for _ in 0..3 {
        drop(server.connections.remove(0));
        assert_eq!(poll(&mut queue, &mut server), Flush::Replayed);
        assert_eq!(poll(&mut queue, &mut server), Flush::Waiting);
    }
    let channel = connect(&mut server, 1);
    assert_eq!(deliver(&mut server, channel), [1, 0, 0, 0, 0, 0, 0, 0, 8, 9]);
    assert_eq!(poll(&mut queue, &mut server), Flush::Done);
    // A replay spends no batch id.
    queue.send_edits(&mut server, vec![], 0);
    assert_eq!(deliver(&mut server, channel), [2, 0, 0, 0, 0, 0, 0, 0]);
}

#[test]
fn polls_decide_what_follows() {
    let (mut server, mut queue) = start();
    for byte in 1..=3u8 {
        queue.send_edits(&mut server, vec![byte], 0);
    }
    queue.after_poll(&mut server, 1, AckPoll::Waiting);
    assert_eq!(poll(&mut queue, &mut server), Flush::Waiting);
    // The second batch leaves, and the third is sent again under its own id.
    queue.after_poll(&mut server, 1, AckPoll::Acknowledged);
    queue.after_poll(&mut server, 1, AckPoll::Canceled);
    let channel = connect(&mut server, 1);
    for id in [1u8, 2, 3, 3] {
        assert_eq!(poll(&mut queue, &mut server), Flush::Waiting);
        let NextFrame::Send(frame) = server.connections.next_frame(channel) else {
            panic!("nothing to send")
        };
        assert_eq!(frame, [id, 0, 0, 0, 0, 0, 0, 0, id]);
        let read = SocketRead::Binary(frame[..8].to_vec());
        let AfterRead::Acknowledged(pair) = server.connections.on_read(channel, &read) else {
            panic!("not acknowledged")
        };
        let _ = pair.resolve();
    }
    assert_eq!(poll(&mut queue, &mut server), Flush::Done);
}

#[test]
fn later_batch_does_not_flush_an_earlier_one() {
    let (mut server, mut queue) = start();
    let first = connect(&mut server, 1);
    queue.send_edits(&mut server, vec![1], 0);
    let NextFrame::Send(_) = server.connections.next_frame(first) else {
        panic!("nothing to send")
    };
    // Another connection takes over while the first batch is on its way.
    let second = connect(&mut server, 2);
    queue.send_edits(&mut server, vec![2], 0);
    assert_eq!(deliver(&mut server, second), [2, 0, 0, 0, 0, 0, 0, 0, 2]);
    assert_eq!(poll(&mut queue, &mut server), Flush::Waiting);
    server.connections.close(first);
    assert_eq!(poll(&mut queue, &mut server), Flush::Waiting);
    assert_eq!(deliver(&mut server, second), [1, 0, 0, 0, 0, 0, 0, 0, 1]);
    assert_eq!(poll(&mut queue, &mut server), Flush::Done);
}

#[test]
fn held_batch_is_never_flushed() {
    let (mut server, mut queue) = start();
    // Never connected.
    queue.send_edits(&mut server, vec![6], 0);
    assert_eq!(poll(&mut queue, &mut server), Flush::Waiting);
    for generation in 1..=3u64 {
        let channel = connect(&mut server, generation);
        assert_eq!(poll(&mut queue, &mut server), Flush::Waiting);
        let NextFrame::Send(_) = server.connections.next_frame(channel) else {
            panic!("nothing to send")
        };
        assert_eq!(poll(&mut queue, &mut server), Flush::Waiting);
        // Another number acknowledges nothing.
        let other = SocketRead::Binary(2u64.to_le_bytes().to_vec());
        assert!(matches!(
            server.connections.on_read(channel, &other),
            AfterRead::KeepWaiting
        ));
        assert_eq!(poll(&mut queue, &mut server), Flush::Waiting);
        server.connections.close(channel);
        assert_eq!(poll(&mut queue, &mut server), Flush::Waiting);
    }
    let channel = connect(&mut server, 4);
    assert_eq!(deliver(&mut server, channel), [1, 0, 0, 0, 0, 0, 0, 0, 6]);
    assert_eq!(poll(&mut queue, &mut server), Flush::Done);
}

#[test]
fn held_batch_is_never_sent_again() {
    let (mut server, mut queue) = start();
    queue.send_edits(&mut server, vec![1], 0);
    queue.send_edits(&mut server, vec![2], 0);
    for _ in 0..5 {
        assert_eq!(poll(&mut queue, &mut server), Flush::Waiting);
    }
    let channel = connect(&mut server, 1);
    assert_eq!(deliver(&mut server, channel), [1, 0, 0, 0, 0, 0, 0, 0, 1]);
    assert_eq!(poll(&mut queue, &mut server), Flush::Waiting);
    assert_eq!(deliver(&mut server, channel), [2, 0, 0, 0, 0, 0, 0, 0, 2]);
    assert!(matches!(
        server.connections.next_frame(channel),
        NextFrame::Wait
    ));
    assert_eq!(poll(&mut queue, &mut server), Flush::Done);
}

#[test]
fn every_lost_batch_is_replayed_under_its_id() {
    let (mut server, mut queue) = start();
    for byte in 1..=3u8 {
        queue.send_edits(&mut server, vec![byte], 0);
    }
    drop(server.connections.remove(0));
    assert_eq!(poll(&mut queue, &mut server), Flush::Replayed);
    let channel = connect(&mut server, 1);
    for id in 1..=3u8 {
        assert_eq!(poll(&mut queue, &mut server), Flush::Waiting);
        assert_eq!(
            deliver(&mut server, channel),
            [id, 0, 0, 0, 0, 0, 0, 0, id]
        );
    }
    assert_eq!(poll(&mut queue, &mut server), Flush::Done);
}

#[test]
fn lost_and_acknowledged_batches_are_told_apart() {
    let (mut server, mut queue) = start();
    let channel = connect(&mut server, 1);
    queue.send_edits(&mut server, vec![1], 0);
    queue.send_edits(&mut server, vec![2], 0);
    deliver(&mut server, channel);
    // The worker takes the second batch and loses its sender.
    let NextFrame::Send(frame) = server.connections.next_frame(channel) else {
        panic!("nothing to send")
    };
    let read = SocketRead::Binary(frame[..8].to_vec());
    drop(server.connections.on_read(channel, &read));
    assert_eq!(poll(&mut queue, &mut server), Flush::Replayed);
    assert_eq!(deliver(&mut server, channel), frame);
    assert_eq!(poll(&mut queue, &mut server), Flush::Done);
}

#[test]
fn reconnects_are_apart_whatever_happens_in_between() {
    let (mut server, mut queue) = start();
    queue.send_edits(&mut server, vec![], 0);
    assert!(queue.has_stale_edit(3 * SECOND));
    queue.send_edits(&mut server, vec![], 3 * SECOND);
    queue.set_suspended(true, 4 * SECOND);
    assert!(!queue.has_stale_edit(5 * SECOND));
    queue.set_suspended(false, 5 * SECOND);
    assert!(!queue.has_stale_edit(6 * SECOND - 1));
    assert!(!queue.has_stale_edit(8 * SECOND - 1));
    assert!(queue.has_stale_edit(8 * SECOND));
}

#[test]
fn stale_edit_triggers_once_per_cooldown() {
    let (mut server, mut queue) = start();
    queue.send_edits(&mut server, vec![], 10 * SECOND);
    assert!(!queue.has_stale_edit(9 * SECOND));
    assert!(!queue.has_stale_edit(13 * SECOND - 1));
    assert!(queue.has_stale_edit(13 * SECOND));
    assert!(!queue.has_stale_edit(13 * SECOND));
    assert!(!queue.has_stale_edit(16 * SECOND - 1));
    assert!(queue.has_stale_edit(16 * SECOND));
    // The edit itself is still in progress.
    assert_eq!(poll(&mut queue, &mut server), Flush::Waiting);
}

#[test]
fn suspended_queue_is_never_stale() {
    let (mut server, mut queue) = start();
    queue.send_edits(&mut server, vec![], 0);
    queue.set_suspended(true, SECOND);
    assert!(!queue.has_stale_edit(100 * SECOND));
    queue.set_suspended(false, 100 * SECOND);
    assert!(!queue.has_stale_edit(103 * SECOND - 1));
    assert!(queue.has_stale_edit(103 * SECOND));
    // A lifecycle change ends the cooldown.
    queue.set_suspended(true, 103 * SECOND);
    queue.set_suspended(false, 100 * SECOND);
    assert!(queue.has_stale_edit(104 * SECOND));
}

#[test]
fn paths_and_keys() {
    let (server, queue) = start();
    let client_key = encode_key_string(&[3u8; KEY_SIZE]);
    assert_eq!(
        queue.edits_path(&server),
        format!("ws://127.0.0.1:1/0/{client_key}")
    );
    assert_eq!(
        queue.required_server_key(&server),
        encode_key_string(&[4u8; KEY_SIZE])
    );
}
