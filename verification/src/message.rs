//! One batch of edits on its way to a webview, and the reply that acknowledges it.
use crate::ack::{report_ack, reported, AckReport};
use futures_channel::oneshot;
use std::sync::Arc;
use vstd::bytes::{
    lemma_auto_spec_u64_to_from_le_bytes, spec_u64_from_le_bytes, spec_u64_to_le_bytes,
    u64_to_le_bytes,
};
use vstd::prelude::*;

verus! {

/// A batch of edits together with the sender that is told once the webview has applied it.
pub struct MsgPair {
    /// The place of the batch in the webview's sequence.
    pub batch_id: u64,
    /// The serialized edits.
    pub edits: Arc<Vec<u8>>,
    /// Told when the webview acknowledges the batch.
    pub response: oneshot::Sender<()>,
}

/// The frame in which a batch travels: its id in eight little-endian bytes, then its edits.
pub open spec fn frame_of(batch_id: u64, edits: Seq<u8>) -> Seq<u8> {
    spec_u64_to_le_bytes(batch_id) + edits
}

impl MsgPair {
    /// The frame in which this batch travels.
    pub open spec fn spec_frame(self) -> Seq<u8> {
        frame_of(self.batch_id, self.edits@)
    }

    /// The bytes that are sent to the webview.
    pub fn frame(&self) -> (frame: Vec<u8>)
        ensures
            frame@ == self.spec_frame(),
            frame@.len() == 8 + self.edits@.len(),
            spec_u64_from_le_bytes(frame@.take(8)) == self.batch_id,
            frame@.skip(8) == self.edits@,
    {
        let mut frame = u64_to_le_bytes(self.batch_id);
        frame.extend_from_slice(self.edits.as_slice());
        assert(frame@ =~= self.spec_frame());
        proof {
            frame_gives_the_batch_back(*self);
        }
        frame
    }

    /// Notify that the edits have been applied, over the sender that belongs to the batch.
    /// The report says whether anyone still listened.
    pub fn resolve(self) -> (report: AckReport)
        ensures
            report.sender() == self.response,
            reported(self.response),
    {
        report_ack(self.response)
    }
}

/// Why reading from a socket failed.
#[derive(Clone, Copy, PartialEq, Eq, Structural, Debug)]
pub enum IoFailure {
    /// No data within the read timeout, on systems that report it so.
    WouldBlock,
    /// No data within the read timeout.
    TimedOut,
    /// A signal interrupted the call.
    Interrupted,
    /// Anything else.
    Other,
}

/// What came of reading one message from the webview's socket.
pub enum SocketRead {
    /// A binary message.
    Binary(Vec<u8>),
    /// A close message.
    Close,
    /// A message of another kind.
    OtherMessage,
    /// An error of the underlying stream.
    Io(IoFailure),
    /// An error of the websocket protocol.
    OtherError,
}

/// What a read means for the batch that waits for its acknowledgment.
#[derive(Clone, Copy, PartialEq, Eq, Structural, Debug)]
pub enum AckVerdict {
    /// The webview has applied the batch.
    Acknowledged,
    /// Nothing that concerns the batch: read on.
    KeepWaiting,
    /// The socket is of no more use; whether the batch was applied is not known.
    Lost,
}

/// What a read means while batch `batch_id` waits for its acknowledgment: only a binary
/// message that is exactly that id, in eight little-endian bytes, acknowledges it.
pub open spec fn verdict(batch_id: u64, read: SocketRead) -> AckVerdict {
    match read {
        SocketRead::Binary(bytes) => if bytes@ == spec_u64_to_le_bytes(batch_id) {
            AckVerdict::Acknowledged
        } else {
            AckVerdict::KeepWaiting
        },
        SocketRead::Close => AckVerdict::Lost,
        SocketRead::OtherMessage => AckVerdict::KeepWaiting,
        SocketRead::Io(IoFailure::Interrupted) => AckVerdict::KeepWaiting,
        SocketRead::Io(_) => AckVerdict::Lost,
        SocketRead::OtherError => AckVerdict::Lost,
    }
}

fn same_bytes(x: &Vec<u8>, y: &Vec<u8>) -> (same: bool)
    ensures
        same == (x@ == y@),
{
    if x.len() != y.len() {
        return false;
    }
    let mut i: usize = 0;
    while i < x.len()
        invariant
            i <= x@.len() == y@.len(),
            forall|j: int| 0 <= j < i ==> x@[j] == y@[j],
        decreases x@.len() - i,
    {
        if x[i] != y[i] {
            return false;
        }
        i = i + 1;
    }
    assert(x@ =~= y@);
    true
}

/// Judges a read while batch `batch_id` waits for its acknowledgment.
pub fn judge_read(batch_id: u64, read: &SocketRead) -> (judged: AckVerdict)
    ensures
        judged == verdict(batch_id, *read),
        judged == AckVerdict::Acknowledged <==> (*read matches SocketRead::Binary(bytes)
            && bytes@.len() == 8 && spec_u64_from_le_bytes(bytes@) == batch_id),
        judged == AckVerdict::Lost <==> (*read is Close || *read is OtherError || (
        *read matches SocketRead::Io(failure) && failure != IoFailure::Interrupted)),
{
    proof {
        exactly_its_id_acknowledges_a_batch(batch_id, *read);
        dead_sockets_are_given_up(batch_id, *read);
    }
    match read {
        SocketRead::Binary(bytes) => {
            let expected = u64_to_le_bytes(batch_id);
            if same_bytes(bytes, &expected) {
                AckVerdict::Acknowledged
            } else {
                AckVerdict::KeepWaiting
            }
        },
        SocketRead::Close => AckVerdict::Lost,
        SocketRead::OtherMessage => AckVerdict::KeepWaiting,
        SocketRead::Io(failure) => match failure {
            IoFailure::Interrupted => AckVerdict::KeepWaiting,
            _ => AckVerdict::Lost,
        },
        SocketRead::OtherError => AckVerdict::Lost,
    }
}

/// A frame gives its batch id and its edits back, so that a replayed frame can be told
/// from a new one.
pub proof fn frame_reads_back(batch_id: u64, edits: Seq<u8>)
    ensures
        frame_of(batch_id, edits).len() == 8 + edits.len(),
        spec_u64_from_le_bytes(frame_of(batch_id, edits).take(8)) == batch_id,
        frame_of(batch_id, edits).skip(8) == edits,
{
    lemma_auto_spec_u64_to_from_le_bytes();
    assert(spec_u64_to_le_bytes(batch_id).len() == 8);
    assert(frame_of(batch_id, edits).take(8) =~= spec_u64_to_le_bytes(batch_id));
    assert(frame_of(batch_id, edits).skip(8) =~= edits);
}

/// What is sent of a batch is eight bytes that read as its id in little endian, and behind
/// them all of its edits, whatever they are and however many.
pub proof fn frame_gives_the_batch_back(pair: MsgPair)
    ensures
        pair.spec_frame().len() == 8 + pair.edits@.len(),
        spec_u64_from_le_bytes(pair.spec_frame().take(8)) == pair.batch_id,
        pair.spec_frame().skip(8) == pair.edits@,
{
    frame_reads_back(pair.batch_id, pair.edits@);
}

/// Two batches have the same frame only if they have the same id and the same edits.
pub proof fn frame_is_injective(x: MsgPair, y: MsgPair)
    requires
        x.spec_frame() == y.spec_frame(),
    ensures
        x.batch_id == y.batch_id,
        x.edits@ == y.edits@,
{
    frame_gives_the_batch_back(x);
    frame_gives_the_batch_back(y);
}

/// A batch is acknowledged by its id in eight little-endian bytes, whatever the id, and by
/// nothing else.
pub proof fn exactly_its_id_acknowledges_a_batch(batch_id: u64, read: SocketRead)
    ensures
        verdict(batch_id, read) == AckVerdict::Acknowledged <==> (
        read matches SocketRead::Binary(bytes) && bytes@.len() == 8 && spec_u64_from_le_bytes(
            bytes@,
        ) == batch_id),
        read matches SocketRead::Binary(bytes) && bytes@ == spec_u64_to_le_bytes(batch_id)
            ==> verdict(batch_id, read) == AckVerdict::Acknowledged,
{
    lemma_auto_spec_u64_to_from_le_bytes();
    if let SocketRead::Binary(bytes) = read {
        if bytes@.len() == 8 {
            assert(spec_u64_to_le_bytes(spec_u64_from_le_bytes(bytes@)) == bytes@);
        }
        assert(spec_u64_to_le_bytes(batch_id).len() == 8);
        assert(spec_u64_from_le_bytes(spec_u64_to_le_bytes(batch_id)) == batch_id);
    }
}

/// A webview that answers a frame with the frame's first eight bytes acknowledges its batch.
pub proof fn start_of_the_frame_acknowledges(pair: MsgPair, answer: Vec<u8>)
    requires
        answer@ == pair.spec_frame().take(8),
    ensures
        verdict(pair.batch_id, SocketRead::Binary(answer)) == AckVerdict::Acknowledged,
{
    frame_gives_the_batch_back(pair);
    exactly_its_id_acknowledges_a_batch(pair.batch_id, SocketRead::Binary(answer));
}

/// A socket is given up if it was closed or failed, other than by a mere interruption; what
/// a webview sends never loses it.
pub proof fn dead_sockets_are_given_up(batch_id: u64, read: SocketRead)
    ensures
        verdict(batch_id, read) == AckVerdict::Lost <==> (read is Close || read is OtherError || (
        read matches SocketRead::Io(failure) && failure != IoFailure::Interrupted)),
{
}

/// The acknowledgment of one batch is never taken for that of another.
pub proof fn ack_matches_one_batch(read: SocketRead, x: u64, y: u64)
    requires
        verdict(x, read) == AckVerdict::Acknowledged,
        verdict(y, read) == AckVerdict::Acknowledged,
    ensures
        x == y,
{
    lemma_auto_spec_u64_to_from_le_bytes();
    assert(spec_u64_from_le_bytes(spec_u64_to_le_bytes(x)) == x);
    assert(spec_u64_from_le_bytes(spec_u64_to_le_bytes(y)) == y);
}

} // verus!
