//! The sending side of a message stream: frames wait in a buffer behind the
//! stream's header until the transport takes them.

use vstd::prelude::*;
use crate::networking::frames::{
    all_fit, frame_bytes, frames_bytes, lemma_parse_after_frame, parse_frames, Frame, Parsed,
    MAX_PAYLOAD,
};
use crate::networking::messages::MessageId;
use crate::networking::stream_headers::{rest_after, HeaderedStreamState};
use crate::networking::u16_reader::be_bytes;
use crate::networking::{lemma_header_into_tag, StreamHeader, StreamId};

verus! {

/// Why a message was not taken for sending: its encoding is longer than a
/// frame can state. `length` is that length.
#[derive(Clone, Copy, Debug, PartialEq, Eq, Structural)]
pub struct MessageTooLong {
    pub length: usize,
}

/// What an outgoing message stream still has to hand to the transport: what
/// remains of its header, and after that the frames that wait in its buffer.
#[verifier::ext_equal]
pub struct MessageSendStreamView {
    pub stream_id: StreamId,
    pub header: Seq<u8>,
    pub buffer: Seq<u8>,
}

impl MessageSendStreamView {
    /// Every byte that has yet to reach the transport, in the order in which
    /// the peer will see them.
    pub open spec fn unsent(self) -> Seq<u8> {
        self.header + self.buffer
    }

    /// What to hand to the transport next: the rest of the header while
    /// there is one, the buffer after that.
    pub open spec fn outgoing(self) -> Seq<u8> {
        if self.header.len() > 0 {
            self.header
        } else {
            self.buffer
        }
    }

    /// Nothing waits for the transport: the header is through and the buffer
    /// is empty.
    pub open spec fn uncongested(self) -> bool {
        self.header.len() == 0 && self.buffer.len() == 0
    }

    /// What `write` answers for a message whose encoding is `message`.
    pub open spec fn write_result(self, message: Seq<u8>, queue: bool) -> Result<
        bool,
        MessageTooLong,
    > {
        if !queue && !self.uncongested() {
            Ok(false)
        } else if message.len() > MAX_PAYLOAD {
            Err(MessageTooLong { length: message.len() as usize })
        } else {
            Ok(true)
        }
    }

    /// Whether the write that `flushed` records put the header through with
    /// frames waiting behind it, so that they are to be offered at once.
    pub open spec fn flush_again(self, written: int) -> bool {
        self.header.len() > 0 && self.flushed(written).header.len() == 0 && self.buffer.len() > 0
    }

    /// The stream after `write`: with the message's frame at the end of the
    /// buffer where `write` answers `Ok(true)`, and untouched where not.
    pub open spec fn written(self, message_id: u16, message: Seq<u8>, queue: bool) -> Self {
        if self.write_result(message, queue) == Ok::<bool, MessageTooLong>(true) {
            MessageSendStreamView {
                stream_id: self.stream_id,
                header: self.header,
                buffer: self.buffer + frame_bytes(Frame { message_id, payload: message }),
            }
        } else {
            self
        }
    }

    /// The stream after the transport took the first `written` bytes of what
    /// was handed to it, or all of it where `written` is more than that.
    pub open spec fn flushed(self, written: int) -> Self {
        if self.header.len() > 0 {
            MessageSendStreamView {
                stream_id: self.stream_id,
                header: rest_after(self.header, written),
                buffer: self.buffer,
            }
        } else {
            MessageSendStreamView {
                stream_id: self.stream_id,
                header: self.header,
                buffer: rest_after(self.buffer, written),
            }
        }
    }
}

impl MessageSendStreamView {
    /// The stream after each of `frames` was written in turn with `queue`
    /// set.
    pub open spec fn queued_all(self, frames: Seq<Frame>) -> Self
        decreases frames.len(),
    {
        if frames.len() == 0 {
            self
        } else {
            self.queued_all(frames.drop_last()).written(
                frames.last().message_id,
                frames.last().payload,
                true,
            )
        }
    }
}

/// While anything waits for the transport, a write without `queue` is turned
/// away with `Ok(false)` and leaves the stream exactly as it was, whatever
/// the message.
/// A write with `queue` of a message that fits a frame is always taken: it
/// answers `Ok(true)` and the frame stands at the end of the buffer, behind
/// what waited there.
pub proof fn lemma_congestion_gating(
    stream: MessageSendStreamView,
    message_id: u16,
    message: Seq<u8>,
)
    ensures
        !stream.uncongested() ==> stream.write_result(message, false) == Ok::<
            bool,
            MessageTooLong,
        >(false) && stream.written(message_id, message, false) == stream,
        message.len() <= MAX_PAYLOAD ==> stream.write_result(message, true) == Ok::<
            bool,
            MessageTooLong,
        >(true) && stream.written(message_id, message, true).buffer == stream.buffer + frame_bytes(
            Frame { message_id, payload: message },
        ),
        stream.written(message_id, message, true).header == stream.header,
        stream.written(message_id, message, false).header == stream.header,
{
}

/// On a stream that takes messages at all, a message of no bytes, of 65535
/// bytes, or of any length between is taken, and its frame parses back to it
/// with nothing left over. A longer one is refused with its length, and
/// nothing of it is buffered.
pub proof fn lemma_length_boundary(
    stream: MessageSendStreamView,
    message_id: u16,
    message: Seq<u8>,
    queue: bool,
)
    requires
        queue || stream.uncongested(),
    ensures
        message.len() <= MAX_PAYLOAD ==> stream.write_result(message, queue) == Ok::<
            bool,
            MessageTooLong,
        >(true) && parse_frames(frame_bytes(Frame { message_id, payload: message })) == (Parsed {
            frames: seq![Frame { message_id, payload: message }],
            rest: Seq::empty(),
        }),
        message.len() > MAX_PAYLOAD ==> stream.write_result(message, queue) == Err::<
            bool,
            MessageTooLong,
        >(MessageTooLong { length: message.len() as usize }) && stream.written(
            message_id,
            message,
            queue,
        ) == stream,
{
    if message.len() <= MAX_PAYLOAD {
        let frame = Frame { message_id, payload: message };
        lemma_parse_after_frame(frame, Seq::empty());
        assert(frame_bytes(frame) + Seq::<u8>::empty() =~= frame_bytes(frame));
        assert(parse_frames(Seq::<u8>::empty()).frames =~= Seq::<Frame>::empty());
        assert(seq![frame] + Seq::<Frame>::empty() =~= seq![frame]);
    }
}

/// Messages written with `queue` stand in the buffer as their frames, in the
/// order of writing, behind what waited there; the header is not touched.
pub proof fn lemma_queued_all(stream: MessageSendStreamView, frames: Seq<Frame>)
    requires
        all_fit(frames),
    ensures
        stream.queued_all(frames) == (MessageSendStreamView {
            stream_id: stream.stream_id,
            header: stream.header,
            buffer: stream.buffer + frames_bytes(frames),
        }),
    decreases frames.len(),
{
    if frames.len() == 0 {
        assert(stream.buffer + frames_bytes(frames) =~= stream.buffer);
    } else {
        let before = frames.drop_last();
        assert(all_fit(before)) by {
            assert forall|i: int| 0 <= i < before.len() implies (#[trigger] before[i]).payload.len()
                <= MAX_PAYLOAD by {
                assert(before[i] == frames[i]);
            }
        }
        lemma_queued_all(stream, before);
        assert((stream.buffer + frames_bytes(before)) + frame_bytes(frames.last())
            =~= stream.buffer + frames_bytes(frames));
    }
}

/// What the transport takes leaves from the front: after a flush the bytes
/// that have yet to reach the transport are those of before without the
/// first `written`, in the same order. The header goes first, and no byte
/// of a frame goes while a byte of the header remains.
pub proof fn lemma_flushed_unsent(stream: MessageSendStreamView, written: int)
    requires
        0 <= written <= stream.outgoing().len(),
    ensures
        stream.flushed(written).unsent() == stream.unsent().skip(written),
        stream.header.len() > 0 ==> stream.flushed(written).buffer == stream.buffer,
{
    assert(stream.flushed(written).unsent() =~= stream.unsent().skip(written));
}

/// Adds `bytes` at the end of `buffer`.
fn append(buffer: &mut Vec<u8>, bytes: &[u8])
    ensures
        final(buffer)@ == old(buffer)@ + bytes@,
{
    let mut at: usize = 0;
    proof {
        assert(buffer@ =~= old(buffer)@ + bytes@.take(0));
    }
    while at < bytes.len()
        invariant
            at <= bytes@.len(),
            buffer@ == old(buffer)@ + bytes@.take(at as int),
        decreases bytes@.len() - at,
    {
        buffer.push(bytes[at]);
        at = at + 1;
        proof {
            assert(bytes@.take(at as int) =~= bytes@.take(at - 1).push(bytes@[at - 1]));
            assert(buffer@ =~= old(buffer)@ + bytes@.take(at as int));
        }
    }
    proof {
        assert(bytes@.take(at as int) =~= bytes@);
    }
}

/// State machine for a stream that sends messages.
pub struct MessageSendStreamState {
    stream: HeaderedStreamState,
    buffer: Vec<u8>,
}

impl View for MessageSendStreamState {
    type V = MessageSendStreamView;

    closed spec fn view(&self) -> MessageSendStreamView {
        MessageSendStreamView {
            stream_id: self.stream.id(),
            header: self.stream.remaining(),
            buffer: self.buffer@,
        }
    }
}

impl MessageSendStreamState {
    /// A message stream of which nothing has been written: its header
    /// remains, so it is congested until a flush has put the header through;
    /// no frame waits.
    pub fn new(stream_id: StreamId) -> (state: Self)
        ensures
            state@ == (MessageSendStreamView {
                stream_id,
                header: be_bytes(StreamHeader::Messages.tag()),
                buffer: Seq::empty(),
            }),
    {
        proof {
            lemma_header_into_tag(StreamHeader::Messages);
        }
        MessageSendStreamState {
            stream: HeaderedStreamState::new(stream_id, StreamHeader::Messages),
            buffer: Vec::new(),
        }
    }

    /// Gets the stream id.
    pub fn stream_id(&self) -> (stream_id: StreamId)
        ensures
            stream_id == self@.stream_id,
    {
        self.stream.stream_id()
    }

    /// Returns true if everything has been written to the connection: the
    /// header and every frame that was buffered.
    pub fn uncongested(&self) -> (uncongested: bool)
        ensures
            uncongested == self@.uncongested(),
    {
        self.stream.header().is_none() && self.buffer.len() == 0
    }

    /// The bytes to hand to the transport next: the rest of the header while
    /// there is one, the buffer after that. The transport's answer goes to
    /// `flush`.
    pub fn outgoing(&self) -> (bytes: &[u8])
        ensures
            bytes@ == self@.outgoing(),
    {
        match self.stream.header() {
            Some(header) => header,
            None => self.buffer.as_slice(),
        }
    }

    /// Records that the transport took the first `written` bytes of
    /// `outgoing`: they are let go, and what follows them moves up. The
    /// transport cannot have taken more than it was handed, and a larger
    /// count stands for all of it. Returns whether to hand `outgoing` to the
    /// transport once more right away, which is so when this write put the
    /// header through and frames wait behind it.
    pub fn flush(&mut self, written: usize) -> (again: bool)
        ensures
            final(self)@ == old(self)@.flushed(written as int),
            again == old(self)@.flush_again(written as int),
    {
        if self.stream.header().is_some() {
            let through = self.stream.write(written);
            through && self.buffer.len() > 0
        } else {
            let taken: usize = if written < self.buffer.len() {
                written
            } else {
                self.buffer.len()
            };
            let rest = self.buffer.split_off(taken);
            proof {
                assert(rest@ =~= rest_after(old(self)@.buffer, written as int));
            }
            self.buffer = rest;
            false
        }
    }

    /// Attempts to send a message, given as its encoded bytes.
    ///
    /// If `queue` is true the message is always taken, and the buffer grows
    /// without limit while the stream is congested. If `queue` is false and
    /// the stream is congested, the message is not taken and `Ok(false)` is
    /// returned. A message that is taken stands in the buffer as one frame,
    /// behind all that was taken before it; a message too long for a frame
    /// is refused, and nothing of it is buffered.
    pub fn write<T>(&mut self, message_id: MessageId<T>, message: &[u8], queue: bool) -> (taken:
        Result<bool, MessageTooLong>)
        ensures
            taken == old(self)@.write_result(message@, queue),
            final(self)@ == old(self)@.written(message_id@, message@, queue),
    {
        if !(queue || self.uncongested()) {
            return Ok(false);
        }
        let length: usize = message.len();
        if length > MAX_PAYLOAD {
            return Err(MessageTooLong { length });
        }
        let id: u16 = message_id.id();
        let size: u16 = length as u16;
        let ghost before = self.buffer@;
        self.buffer.push((id / 256) as u8);
        self.buffer.push((id % 256) as u8);
        self.buffer.push((size / 256) as u8);
        self.buffer.push((size % 256) as u8);
        append(&mut self.buffer, message);
        proof {
            assert(self.buffer@ =~= before + frame_bytes(
                Frame { message_id: message_id@, payload: message@ },
            ));
        }
        Ok(true)
    }
}

} // verus!
